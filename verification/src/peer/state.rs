//! What a peer knows: the other peers, its files, the progress of downloads.

use vstd::prelude::*;
use crate::domain::config::FSConfig;
use crate::domain::enums::PieceDownloadStatus;
use crate::domain::files::RFSFileView;
use crate::peer::client::LocalFSInfo;
use crate::peer::file::FileManager;

verus! {

/// How far the download of one piece has come.
#[derive(Clone, Copy, Debug, PartialEq, Eq, Structural)]
pub struct PieceDownloadProgress {
    pub piece: u64,
    pub status: PieceDownloadStatus,
}

impl PieceDownloadProgress {
    /// The progress of a piece of which nothing has been fetched.
    pub fn empty(piece: u64) -> (res: Self)
        ensures
            res == (PieceDownloadProgress { piece, status: PieceDownloadStatus::NotDownloaded }),
    {
        Self { piece, status: PieceDownloadStatus::NotDownloaded }
    }
}

/// The progress of every piece of a file, in the order of the pieces.
#[derive(Debug)]
pub struct FileDownloadProgress {
    pub pieces: Vec<PieceDownloadProgress>,
}

impl FileDownloadProgress {
    /// The progress of a file of `pieces` pieces of which nothing has been
    /// fetched.
    pub fn empty(pieces: u64) -> (res: Self)
        ensures
            res.pieces@.len() == pieces,
            forall|i: int|
                0 <= i < pieces ==> res.pieces@[i] == (PieceDownloadProgress {
                    piece: i as u64,
                    status: PieceDownloadStatus::NotDownloaded,
                }),
    {
        let mut list: Vec<PieceDownloadProgress> = Vec::new();
        let mut p: u64 = 0;
        while p < pieces
            invariant
                0 <= p <= pieces,
                list@.len() == p,
                forall|i: int|
                    0 <= i < p ==> list@[i] == (PieceDownloadProgress {
                        piece: i as u64,
                        status: PieceDownloadStatus::NotDownloaded,
                    }),
            decreases pieces - p,
        {
            list.push(PieceDownloadProgress::empty(p));
            p = p + 1;
        }
        Self { pieces: list }
    }
}

/// Another peer and its latency.
#[derive(Debug)]
pub struct KnownPeer {
    pub address: String,
    /// Round trip in microseconds; `None` while the peer does not answer.
    pub ping: Option<i64>,
}

/// A `KnownPeer` as plain mathematical values.
pub struct KnownPeerView {
    pub address: Seq<char>,
    pub ping: Option<i64>,
}

impl View for KnownPeer {
    type V = KnownPeerView;

    open spec fn view(&self) -> KnownPeerView {
        KnownPeerView { address: self.address@, ping: self.ping }
    }
}

impl DeepView for KnownPeer {
    type V = KnownPeerView;

    open spec fn deep_view(&self) -> KnownPeerView {
        self@
    }
}

impl Clone for KnownPeer {
    fn clone(&self) -> (res: Self)
        ensures
            res@ == self@,
    {
        KnownPeer { address: self.address.clone(), ping: self.ping }
    }
}

impl KnownPeer {
    /// Whether the peer answered the last time it was asked.
    pub fn accessible(&self) -> (res: bool)
        ensures
            res == self@.ping is Some,
    {
        self.ping.is_some()
    }
}

/// A copy of a list of peers.
pub fn clone_peers(peers: &Vec<KnownPeer>) -> (res: Vec<KnownPeer>)
    ensures
        res.deep_view() == peers.deep_view(),
{
    let mut res: Vec<KnownPeer> = Vec::new();
    let mut i: usize = 0;
    while i < peers.len()
        invariant
            0 <= i <= peers.len(),
            res@.len() == i,
            forall|j: int| 0 <= j < i ==> res@[j]@ == peers@[j]@,
        decreases peers.len() - i,
    {
        res.push(peers[i].clone());
        i = i + 1;
    }
    proof {
        assert(res.deep_view() =~= peers.deep_view());
    }
    res
}

/// No two of the peers have the same address.
pub open spec fn distinct_addresses(peers: Seq<KnownPeerView>) -> bool {
    forall|i: int, j: int| 0 <= i < j < peers.len() ==> peers[i].address != peers[j].address
}

/// The index of the first peer with the given address; the number of peers
/// where none has it.
pub open spec fn first_with_address(peers: Seq<KnownPeerView>, address: Seq<char>) -> int
    decreases peers.len(),
{
    if peers.len() == 0 {
        0
    } else if peers[0].address == address {
        0
    } else {
        1 + first_with_address(peers.drop_first(), address)
    }
}

/// The peers after one measurement has been taken in: the first peer with
/// the address of `value` has the ping of `value`; nothing else changes.
pub open spec fn with_ping(peers: Seq<KnownPeerView>, value: KnownPeerView) -> Seq<
    KnownPeerView,
> {
    let i = first_with_address(peers, value.address);
    if 0 <= i < peers.len() {
        peers.update(i, KnownPeerView { address: peers[i].address, ping: value.ping })
    } else {
        peers
    }
}

/// The peers after the measurements `values` have been taken in, one after
/// the other.
pub open spec fn with_pings(peers: Seq<KnownPeerView>, values: Seq<KnownPeerView>) -> Seq<
    KnownPeerView,
>
    decreases values.len(),
{
    if values.len() == 0 {
        peers
    } else {
        with_ping(with_pings(peers, values.drop_last()), values.last())
    }
}

proof fn lemma_first_with_address(peers: Seq<KnownPeerView>, address: Seq<char>, i: int)
    requires
        0 <= i <= peers.len(),
        forall|j: int| 0 <= j < i ==> peers[j].address != address,
        i == peers.len() || peers[i].address == address,
    ensures
        first_with_address(peers, address) == i,
    decreases peers.len(),
{
    if i > 0 {
        lemma_first_with_address(peers.drop_first(), address, i - 1);
    }
}

proof fn lemma_first_with_address_bounds(peers: Seq<KnownPeerView>, address: Seq<char>)
    ensures
        0 <= first_with_address(peers, address) <= peers.len(),
        first_with_address(peers, address) < peers.len() ==> peers[first_with_address(
            peers,
            address,
        )].address == address,
        forall|j: int| 0 <= j < first_with_address(peers, address) ==> peers[j].address != address,
    decreases peers.len(),
{
    if peers.len() > 0 && peers[0].address != address {
        let rest = peers.drop_first();
        lemma_first_with_address_bounds(rest, address);
        assert forall|j: int| 0 <= j < first_with_address(peers, address) implies peers[j].address
            != address by {
            if j > 0 {
                assert(rest[j - 1] == peers[j]);
            }
        }
    }
}

/// Taking in measurements changes neither the number of the peers nor their
/// addresses.
pub proof fn lemma_with_pings_keeps_addresses(
    peers: Seq<KnownPeerView>,
    values: Seq<KnownPeerView>,
)
    ensures
        with_pings(peers, values).len() == peers.len(),
        forall|i: int|
            0 <= i < peers.len() ==> (#[trigger] with_pings(peers, values)[i]).address
                == peers[i].address,
        distinct_addresses(peers) ==> distinct_addresses(with_pings(peers, values)),
    decreases values.len(),
{
    if values.len() > 0 {
        let before = with_pings(peers, values.drop_last());
        lemma_with_pings_keeps_addresses(peers, values.drop_last());
        lemma_first_with_address_bounds(before, values.last().address);
    }
}

/// The last measurement of a peer is the one that stays: where no later
/// measurement has the address of `values[k]`, the first peer with that
/// address ends with the ping of `values[k]`.
pub proof fn lemma_with_pings_last_wins(
    peers: Seq<KnownPeerView>,
    values: Seq<KnownPeerView>,
    k: int,
)
    requires
        0 <= k < values.len(),
        forall|j: int| k < j < values.len() ==> values[j].address != values[k].address,
        first_with_address(peers, values[k].address) < peers.len(),
    ensures
        with_pings(peers, values)[first_with_address(peers, values[k].address)].ping
            == values[k].ping,
    decreases values.len(),
{
    let address = values[k].address;
    let init = values.drop_last();
    let before = with_pings(peers, init);
    lemma_with_pings_keeps_addresses(peers, init);
    lemma_first_with_address_bounds(peers, address);
    let at = first_with_address(peers, address);
    assert(first_with_address(before, address) == at) by {
        lemma_first_with_address(before, address, at);
    }
    if k == values.len() - 1 {
    } else {
        assert(init[k] == values[k]);
        assert forall|j: int| k < j < init.len() implies init[j].address != init[k].address by {
            assert(init[j] == values[j]);
        }
        lemma_with_pings_last_wins(peers, init, k);
        lemma_first_with_address_bounds(before, values.last().address);
    }
}

/// A peer of which no measurement was taken keeps its ping.
pub proof fn lemma_with_pings_leaves_others(
    peers: Seq<KnownPeerView>,
    values: Seq<KnownPeerView>,
    i: int,
)
    requires
        0 <= i < peers.len(),
        forall|j: int| 0 <= j < values.len() ==> values[j].address != peers[i].address,
    ensures
        with_pings(peers, values)[i] == peers[i],
    decreases values.len(),
{
    if values.len() > 0 {
        let init = values.drop_last();
        let before = with_pings(peers, init);
        assert forall|j: int| 0 <= j < init.len() implies init[j].address
            != peers[i].address by {
            assert(init[j] == values[j]);
        }
        lemma_with_pings_leaves_others(peers, init, i);
        lemma_with_pings_keeps_addresses(peers, init);
        lemma_first_with_address_bounds(before, values.last().address);
    }
}

/// Everything that a peer shares among its tasks.
#[derive(Debug)]
pub struct State {
    pub known_peers: Vec<KnownPeer>,
    pub local_fs_info: LocalFSInfo,
    pub file_manager: FileManager,
}

impl State {
    /// The state of a peer that knows no other peer and holds no file.
    pub fn new(fs_config: FSConfig) -> (res: Self)
        ensures
            res.known_peers@.len() == 0,
            res.file_manager@ == Map::<Seq<char>, RFSFileView>::empty(),
            res.file_manager.config() == fs_config@,
    {
        State {
            known_peers: Vec::new(),
            local_fs_info: LocalFSInfo {  },
            file_manager: FileManager::new(fs_config),
        }
    }

    /// Takes in the measurements `values`, one after the other: each sets the
    /// ping of the first known peer with its address, if there is one.
    pub fn update_pings_for_peers(&mut self, values: Vec<KnownPeer>)
        ensures
            final(self).known_peers.deep_view() == with_pings(
                old(self).known_peers.deep_view(),
                values.deep_view(),
            ),
            final(self).file_manager == old(self).file_manager,
    {
        let ghost start = self.known_peers.deep_view();
        let mut v: usize = 0;
        proof {
            assert(values.deep_view().take(0) =~= Seq::<KnownPeerView>::empty());
        }
        while v < values.len()
            invariant
                0 <= v <= values@.len(),
                self.file_manager == old(self).file_manager,
                self.known_peers.deep_view() == with_pings(
                    start,
                    values.deep_view().take(v as int),
                ),
            decreases values@.len() - v,
        {
            let ghost before = self.known_peers.deep_view();
            let value = &values[v];
            let mut i: usize = 0;
            while i < self.known_peers.len() && !(self.known_peers[i].address == value.address)
                invariant
                    0 <= i <= self.known_peers@.len(),
                    self.known_peers.deep_view() == before,
                    self.file_manager == old(self).file_manager,
                    forall|j: int| 0 <= j < i ==> before[j].address != value@.address,
                decreases self.known_peers@.len() - i,
            {
                proof {
                    assert(before[i as int] == self.known_peers@[i as int]@);
                }
                i = i + 1;
            }
            proof {
                if i < self.known_peers@.len() {
                    assert(before[i as int] == self.known_peers@[i as int]@);
                }
                lemma_first_with_address(before, value@.address, i as int);
                assert(values.deep_view().take(v + 1).drop_last() =~= values.deep_view().take(
                    v as int,
                ));
                assert(values.deep_view().take(v + 1).last() == value@);
            }
            if i < self.known_peers.len() {
                let address = self.known_peers[i].address.clone();
                self.known_peers.set(i, KnownPeer { address, ping: value.ping });
                proof {
                    assert(self.known_peers.deep_view() =~= with_ping(before, value@));
                }
            }
            v = v + 1;
        }
        proof {
            assert(values.deep_view().take(v as int) =~= values.deep_view());
        }
    }
}

} // verus!
