//! What a peer derives from its own manifests when it starts.

use vstd::prelude::*;
use crate::domain::files::RFSFile;
use crate::domain::files::RFSFileView;
use crate::peer::state::distinct_addresses;
use crate::peer::state::KnownPeer;
use crate::peer::state::KnownPeerView;
use crate::peer::state::State;
use crate::text::same_text;

verus! {

/// What a peer knows of its own file system. Nothing so far.
#[derive(Clone, Copy, Debug)]
pub struct LocalFSInfo {}

/// Whether the manifest of one of the files names `address` as a seed.
pub open spec fn is_seed(files: Seq<RFSFile>, address: Seq<char>) -> bool {
    exists|i: int| 0 <= i < files.len() && (#[trigger] files[i]@).data.peers.contains(address)
}

/// Whether one of the stored manifests names `address` as a seed.
pub open spec fn names_seed(store: Map<Seq<char>, RFSFileView>, address: Seq<char>) -> bool {
    exists|id: Seq<char>|
        store.dom().contains(id) && (#[trigger] store[id]).data.peers.contains(address)
}

/// Whether one of the peers has the address.
pub open spec fn lists_address(peers: Seq<KnownPeerView>, address: Seq<char>) -> bool {
    exists|k: int| 0 <= k < peers.len() && (#[trigger] peers[k]).address == address
}

fn holds_address(peers: &Vec<KnownPeer>, address: &str) -> (res: bool)
    ensures
        res == lists_address(peers.deep_view(), address@),
{
    let mut k: usize = 0;
    while k < peers.len()
        invariant
            0 <= k <= peers@.len(),
            forall|m: int| 0 <= m < k ==> (#[trigger] peers.deep_view()[m]).address != address@,
        decreases peers@.len() - k,
    {
        if same_text(peers[k].address.as_str(), address) {
            proof {
                assert(peers.deep_view()[k as int].address == address@);
            }
            return true;
        }
        proof {
            assert(peers.deep_view()[k as int] == peers@[k as int]@);
        }
        k = k + 1;
    }
    false
}

/// The peers that the manifests of `files` name as seeds, but for the peer
/// at `own_address` itself: each once, and none with a ping yet.
pub fn known_peers_from_files(files: &Vec<RFSFile>, own_address: &str) -> (res: Vec<KnownPeer>)
    ensures
        distinct_addresses(res.deep_view()),
        forall|k: int| 0 <= k < res@.len() ==> (#[trigger] res.deep_view()[k]).ping is None,
        forall|a: Seq<char>|
            lists_address(res.deep_view(), a) <==> (a != own_address@ && is_seed(files@, a)),
{
    let mut res: Vec<KnownPeer> = Vec::new();
    let mut i: usize = 0;
    proof {
        assert forall|a: Seq<char>| !is_seed(files@.take(0), a) by {}
    }
    while i < files.len()
        invariant
            0 <= i <= files@.len(),
            distinct_addresses(res.deep_view()),
            forall|k: int| 0 <= k < res@.len() ==> (#[trigger] res.deep_view()[k]).ping is None,
            forall|a: Seq<char>|
                lists_address(res.deep_view(), a) <==> (a != own_address@ && is_seed(
                    files@.take(i as int),
                    a,
                )),
        decreases files@.len() - i,
    {
        let file = &files[i];
        let ghost seeds = file@.data.peers;
        let mut j: usize = 0;
        while j < file.data.peers.len()
            invariant
                0 <= j <= file.data.peers@.len(),
                0 <= i < files@.len(),
                file == files@[i as int],
                seeds == file@.data.peers,
                distinct_addresses(res.deep_view()),
                forall|k: int|
                    0 <= k < res@.len() ==> (#[trigger] res.deep_view()[k]).ping is None,
                forall|a: Seq<char>|
                    lists_address(res.deep_view(), a) <==> (a != own_address@ && (is_seed(
                        files@.take(i as int),
                        a,
                    ) || seeds.take(j as int).contains(a))),
            decreases file.data.peers@.len() - j,
        {
            let peer = &file.data.peers[j];
            let ghost before = res.deep_view();
            let ghost address = peer@;
            proof {
                assert(seeds[j as int] == address);
                assert(seeds.take(j + 1) =~= seeds.take(j as int).push(address));
                assert forall|a: Seq<char>|
                    seeds.take(j + 1).contains(a) <==> (seeds.take(j as int).contains(a) || a
                        == address) by {
                    if seeds.take(j as int).contains(a) {
                        let m = choose|m: int|
                            0 <= m < seeds.take(j as int).len() && seeds.take(j as int)[m] == a;
                        assert(seeds.take(j + 1)[m] == a);
                    }
                    if a == address {
                        assert(seeds.take(j + 1)[j as int] == a);
                    }
                }
            }
            if !same_text(peer.as_str(), own_address) && !holds_address(&res, peer.as_str()) {
                res.push(KnownPeer { address: peer.clone(), ping: None });
                proof {
                    let after = res.deep_view();
                    assert(after =~= before.push(KnownPeerView { address, ping: None }));
                    assert forall|a: Seq<char>|
                        lists_address(after, a) <==> (lists_address(before, a) || a
                            == address) by {
                        if lists_address(before, a) {
                            let m = choose|m: int|
                                0 <= m < before.len() && (#[trigger] before[m]).address == a;
                            assert(after[m].address == a);
                        }
                        if a == address {
                            assert(after[before.len() as int].address == a);
                        }
                    }
                }
            }
            j = j + 1;
        }
        proof {
            assert(seeds.take(j as int) =~= seeds);
            assert forall|a: Seq<char>|
                is_seed(files@.take(i + 1), a) <==> (is_seed(files@.take(i as int), a)
                    || seeds.contains(a)) by {
                if is_seed(files@.take(i as int), a) {
                    let m = choose|m: int|
                        0 <= m < files@.take(i as int).len() && (#[trigger] files@.take(
                            i as int,
                        )[m]@).data.peers.contains(a);
                    assert(files@.take(i + 1)[m]@.data.peers.contains(a));
                }
                if seeds.contains(a) {
                    assert(files@.take(i + 1)[i as int]@.data.peers.contains(a));
                }
                if is_seed(files@.take(i + 1), a) {
                    let m = choose|m: int|
                        0 <= m < files@.take(i + 1).len() && (#[trigger] files@.take(
                            i + 1,
                        )[m]@).data.peers.contains(a);
                    if m < i {
                        assert(files@.take(i as int)[m]@.data.peers.contains(a));
                    }
                }
            }
        }
        i = i + 1;
    }
    proof {
        assert(files@.take(i as int) =~= files@);
    }
    res
}

/// Makes the seeds of the stored manifests, but for the peer at
/// `own_address` itself, the known peers of `state`.
pub fn set_known_peers_from_files(state: &mut State, own_address: &str)
    ensures
        final(state).file_manager == old(state).file_manager,
        distinct_addresses(final(state).known_peers.deep_view()),
        forall|k: int|
            0 <= k < final(state).known_peers@.len()
                ==> (#[trigger] final(state).known_peers.deep_view()[k]).ping is None,
        forall|a: Seq<char>|
            lists_address(final(state).known_peers.deep_view(), a) <==> (a != own_address@
                && names_seed(old(state).file_manager@, a)),
{
    let files = state.file_manager.get_files();
    let peers = known_peers_from_files(&files, own_address);
    proof {
        let store = state.file_manager@;
        assert forall|a: Seq<char>| is_seed(files@, a) <==> names_seed(store, a) by {
            if is_seed(files@, a) {
                let i = choose|i: int|
                    0 <= i < files@.len() && (#[trigger] files@[i]@).data.peers.contains(a);
                let id = files@[i]@.data.id;
                assert(store.dom().contains(id) && store[id].data.peers.contains(a));
            }
            if names_seed(store, a) {
                let id = choose|id: Seq<char>|
                    store.dom().contains(id) && (#[trigger] store[id]).data.peers.contains(a);
                let j = choose|j: int| 0 <= j < files@.len() && files@[j]@.data.id == id;
                assert(files@[j]@.data.peers.contains(a));
            }
        }
    }
    state.known_peers = peers;
}

} // verus!
