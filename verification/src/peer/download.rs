//! The scheduler of one download: which session fetches which piece, what
//! becomes of a piece that has arrived, and where a piece goes when a session
//! fails to deliver it.
//!
//! The scheduler owns no session. The caller asks it for the next piece of a
//! session, fetches the piece, and reports what came back.

use vstd::prelude::*;
use crate::domain::enums::PieceDownloadStatus;
use crate::domain::files::piece_matches;
use crate::domain::files::verify_piece;
use crate::domain::models::File;
use crate::domain::models::FileView;
use crate::error::RfsError;
use crate::peer::allocation::any_reachable;
use crate::peer::allocation::assign_pieces;
use crate::peer::allocation::calculate_pieces_ratio;
use crate::peer::allocation::is_allocation;
use crate::peer::allocation::owns;
use crate::peer::allocation::range_start;
use crate::peer::allocation::PING_UNUSABLE;
use crate::peer::connection::piece_id;
use crate::peer::connection::staged_name;
use crate::peer::connection::FilePieceResponseFrame;
use crate::peer::file::staged_paths;
use crate::peer::file::AssemblyPlan;
use crate::peer::file::FileManager;
use crate::peer::state::FileDownloadProgress;
use crate::peer::state::PieceDownloadProgress;
use crate::text::same_text;

verus! {

/// A download as plain mathematical values.
pub struct DownloadView {
    /// The manifest of the file.
    pub file: FileView,
    /// How many pieces each session was given at the start.
    pub shares: Seq<u64>,
    /// Which sessions can still be asked.
    pub alive: Seq<bool>,
    /// For every piece, the session that is to fetch it.
    pub owners: Seq<usize>,
    /// For every piece, how far it has come.
    pub statuses: Seq<PieceDownloadStatus>,
    /// For every piece, the sessions that have failed to deliver it.
    pub refused: Seq<Seq<bool>>,
}

impl DownloadView {
    /// The lists have one entry for every piece of the manifest, every owner
    /// is a session, and every piece has a mark for every session.
    pub open spec fn wf(self) -> bool {
        &&& self.owners.len() == self.file.hashes.len()
        &&& self.statuses.len() == self.file.hashes.len()
        &&& self.refused.len() == self.file.hashes.len()
        &&& forall|k: int|
            0 <= k < self.owners.len() ==> (#[trigger] self.owners[k]) < self.alive.len()
        &&& forall|k: int|
            0 <= k < self.refused.len() ==> (#[trigger] self.refused[k]).len() == self.alive.len()
    }

    /// The same download with another status for piece `k`.
    pub open spec fn with_status(self, k: int, status: PieceDownloadStatus) -> DownloadView {
        DownloadView { statuses: self.statuses.update(k, status), ..self }
    }

    /// The same download with another owner for piece `k`.
    pub open spec fn with_owner(self, k: int, session: usize) -> DownloadView {
        DownloadView { owners: self.owners.update(k, session), ..self }
    }

    /// The same download after `session` has failed to deliver piece `k`:
    /// the failure is marked, and the piece waits to be fetched again.
    pub open spec fn refuse(self, k: int, session: int) -> DownloadView {
        DownloadView {
            statuses: self.statuses.update(k, PieceDownloadStatus::NotDownloaded),
            refused: self.refused.update(k, self.refused[k].update(session, true)),
            ..self
        }
    }

    /// Whether `session` may still be asked for piece `k`.
    pub open spec fn candidate(self, k: int, session: int) -> bool {
        &&& 0 <= session < self.alive.len()
        &&& self.alive[session]
        &&& !self.refused[k][session]
    }

    /// Whether piece `k` waits to be fetched by `session`: the session owns
    /// it, may still be asked for it, and nothing of it has been fetched.
    pub open spec fn waits_for(self, session: usize, k: int) -> bool {
        &&& 0 <= k < self.owners.len()
        &&& self.owners[k] == session
        &&& self.statuses[k] == PieceDownloadStatus::NotDownloaded
        &&& self.candidate(k, session as int)
    }

    /// Whether `session` is the first session that may still be asked for
    /// piece `k`.
    pub open spec fn first_candidate(self, k: int, session: int) -> bool {
        &&& self.candidate(k, session)
        &&& forall|s: int| 0 <= s < session ==> !self.candidate(k, s)
    }

    /// Whether no session may be asked for piece `k` any more.
    pub open spec fn exhausted(self, k: int) -> bool {
        forall|s: int| 0 <= s < self.alive.len() ==> !self.candidate(k, s)
    }

    /// Whether `session` is being asked for piece `piece` of the file
    /// `file_id`.
    pub open spec fn expects(self, session: usize, file_id: Seq<char>, piece: u64) -> bool {
        &&& file_id == self.file.id
        &&& piece < self.owners.len()
        &&& self.owners[piece as int] == session
        &&& self.statuses[piece as int] == PieceDownloadStatus::Downloading
    }

    /// Whether piece `k` is left without its session when `session` goes.
    pub open spec fn stranded_by(self, session: usize, k: int) -> bool {
        &&& 0 <= k < self.owners.len()
        &&& self.owners[k] == session
        &&& self.statuses[k] != PieceDownloadStatus::Downloaded
    }

    /// The download of `file` has just been planned over sessions with the
    /// given pings: the pieces are shared out in inverse proportion to ping,
    /// each session owns the pieces of its range, no piece has been fetched
    /// or refused, and the sessions with a usable ping are the ones that can
    /// be asked.
    pub open spec fn fresh(self, file: FileView, pings: Seq<u128>) -> bool {
        &&& self.wf()
        &&& self.file == file
        &&& is_allocation(file.hashes.len(), pings, self.shares)
        &&& self.alive.len() == pings.len()
        &&& forall|s: int| 0 <= s < pings.len() ==> self.alive[s] == (pings[s] != PING_UNUSABLE)
        &&& forall|k: int|
            0 <= k < self.owners.len() ==> owns(self.shares, self.owners[k] as int, k as nat)
        &&& forall|k: int|
            0 <= k < self.statuses.len() ==> self.statuses[k] == PieceDownloadStatus::NotDownloaded
        &&& forall|k: int, s: int|
            0 <= k < self.refused.len() && 0 <= s < pings.len() ==> !self.refused[k][s]
    }

    /// Piece `k` is as it was in `before`.
    pub open spec fn untouched(self, before: DownloadView, k: int) -> bool {
        &&& self.owners[k] == before.owners[k]
        &&& self.statuses[k] == before.statuses[k]
        &&& self.refused[k] == before.refused[k]
    }

    /// Piece `k` has been taken from `session`: the failure is marked, the
    /// piece waits, and its owner is the first session that may still be
    /// asked, or still `session` where no session is left.
    pub open spec fn settled(self, before: DownloadView, session: usize, k: int) -> bool {
        &&& self.statuses[k] == PieceDownloadStatus::NotDownloaded
        &&& self.refused[k] == before.refused[k].update(session as int, true)
        &&& (self.first_candidate(k, self.owners[k] as int) || (self.exhausted(k)
            && self.owners[k] == session))
    }

    spec fn same_piece(self, other: DownloadView, k: int) -> bool {
        &&& self.alive == other.alive
        &&& self.owners[k] == other.owners[k]
        &&& self.statuses[k] == other.statuses[k]
        &&& self.refused[k] == other.refused[k]
    }

    /// Whether piece `k` waits and nobody is to fetch it: its owner is gone or
    /// has failed to deliver it, and no other session was left to take it.
    pub open spec fn lost(self, k: int) -> bool {
        &&& 0 <= k < self.owners.len()
        &&& self.statuses[k] == PieceDownloadStatus::NotDownloaded
        &&& !self.candidate(k, self.owners[k] as int)
    }

    /// Whether every piece has arrived.
    pub open spec fn complete(self) -> bool {
        forall|k: int|
            0 <= k < self.statuses.len() ==> self.statuses[k] == PieceDownloadStatus::Downloaded
    }
}

proof fn lemma_same_piece(a: DownloadView, b: DownloadView, k: int)
    requires
        a.alive == b.alive,
        a.refused[k] == b.refused[k],
    ensures
        a.exhausted(k) == b.exhausted(k),
        forall|s: int| a.candidate(k, s) == b.candidate(k, s),
        forall|s: int| a.first_candidate(k, s) == b.first_candidate(k, s),
{
    assert forall|s: int| a.candidate(k, s) == b.candidate(k, s) by {}
    assert(a.exhausted(k) == b.exhausted(k)) by {
        if a.exhausted(k) {
            assert forall|s: int| 0 <= s < b.alive.len() implies !b.candidate(k, s) by {
                assert(!a.candidate(k, s));
            }
        }
        if b.exhausted(k) {
            assert forall|s: int| 0 <= s < a.alive.len() implies !a.candidate(k, s) by {
                assert(!b.candidate(k, s));
            }
        }
    }
    assert forall|s: int| a.first_candidate(k, s) == b.first_candidate(k, s) by {
        if a.first_candidate(k, s) {
            assert forall|t: int| 0 <= t < s implies !b.candidate(k, t) by {
                assert(!a.candidate(k, t));
            }
        }
        if b.first_candidate(k, s) {
            assert forall|t: int| 0 <= t < s implies !a.candidate(k, t) by {
                assert(!b.candidate(k, t));
            }
        }
    }
}

/// What has become of a piece that was reported.
#[derive(Debug)]
pub enum Received {
    /// The report concerns no piece that the session was asked for.
    Ignored,
    /// The piece is good: stage its bytes under this name.
    Staged { name: String },
    /// The piece is to be fetched from this other session.
    Rerouted { session: usize },
    /// No session is left to ask for the piece.
    Unavailable,
}

/// One download under way.
#[derive(Debug)]
pub struct Download {
    file: File,
    shares: Vec<u64>,
    alive: Vec<bool>,
    owners: Vec<usize>,
    statuses: Vec<PieceDownloadStatus>,
    refused: Vec<Vec<bool>>,
}

impl View for Download {
    type V = DownloadView;

    closed spec fn view(&self) -> DownloadView {
        DownloadView {
            file: self.file@,
            shares: self.shares@,
            alive: self.alive@,
            owners: self.owners@,
            statuses: self.statuses@,
            refused: self.refused.deep_view(),
        }
    }
}

fn copy_of(values: &Vec<u64>) -> (res: Vec<u64>)
    ensures
        res@ == values@,
{
    let mut res: Vec<u64> = Vec::new();
    let mut i: usize = 0;
    while i < values.len()
        invariant
            0 <= i <= values@.len(),
            res@ == values@.take(i as int),
        decreases values@.len() - i,
    {
        res.push(values[i]);
        proof {
            assert(values@.take(i as int).push(values@[i as int]) =~= values@.take(i + 1));
        }
        i = i + 1;
    }
    proof {
        assert(values@.take(i as int) =~= values@);
    }
    res
}

fn cleared(len: usize) -> (res: Vec<bool>)
    ensures
        res@.len() == len,
        forall|s: int| 0 <= s < len ==> !res@[s],
{
    let mut res: Vec<bool> = Vec::new();
    let mut s: usize = 0;
    while s < len
        invariant
            0 <= s <= len,
            res@.len() == s,
            forall|t: int| 0 <= t < s ==> !res@[t],
        decreases len - s,
    {
        res.push(false);
        s = s + 1;
    }
    res
}

fn marked(row: &Vec<bool>, session: usize) -> (res: Vec<bool>)
    requires
        session < row@.len(),
    ensures
        res@ == row@.update(session as int, true),
{
    let mut res: Vec<bool> = Vec::new();
    let mut s: usize = 0;
    while s < row.len()
        invariant
            0 <= s <= row@.len(),
            session < row@.len(),
            res@ == row@.update(session as int, true).take(s as int),
        decreases row@.len() - s,
    {
        let flag = if s == session {
            true
        } else {
            row[s]
        };
        res.push(flag);
        proof {
            let target = row@.update(session as int, true);
            assert(target.take(s as int).push(target[s as int]) =~= target.take(s + 1));
        }
        s = s + 1;
    }
    proof {
        let target = row@.update(session as int, true);
        assert(target.take(s as int) =~= target);
    }
    res
}

impl Download {
    /// What holds of every download: see `DownloadView::wf`.
    pub open spec fn wf(&self) -> bool {
        self@.wf()
    }

    /// Plans the download of `file` over sessions with the given pings.
    ///
    /// Fails with `NoReachablePeers` exactly when no session has a usable
    /// ping. Otherwise the pieces are shared out in inverse proportion to
    /// ping, each session owns the pieces of its range, no piece has been
    /// fetched, and the sessions with a usable ping are the ones that can be
    /// asked.
    pub fn start(file: File, pings: &Vec<u128>) -> (res: Result<Download, RfsError>)
        ensures
            res is Ok <==> any_reachable(pings@),
            res is Err ==> (res matches Err(e) && e == RfsError::NoReachablePeers),
            res matches Ok(d) ==> d@.fresh(file@, pings@),
    {
        let sessions = pings.len();
        let n = file.hashes.len();
        proof {
            assert(file@.hashes.len() == n);
        }
        let shares = match calculate_pieces_ratio(n as u64, pings) {
            Ok(shares) => shares,
            Err(e) => {
                return Err(e);
            },
        };
        let ranges = assign_pieces(copy_of(&shares));
        let mut alive: Vec<bool> = Vec::new();
        let mut s: usize = 0;
        while s < sessions
            invariant
                0 <= s <= sessions,
                sessions == pings@.len(),
                alive@.len() == s,
                forall|t: int| 0 <= t < s ==> alive@[t] == (pings@[t] != PING_UNUSABLE),
            decreases sessions - s,
        {
            alive.push(pings[s] != PING_UNUSABLE);
            s = s + 1;
        }
        let mut owners: Vec<usize> = Vec::new();
        let mut statuses: Vec<PieceDownloadStatus> = Vec::new();
        let mut refused: Vec<Vec<bool>> = Vec::new();
        let mut s: usize = 0;
        proof {
            assert(shares@.take(0) =~= Seq::<u64>::empty());
        }
        while s < sessions
            invariant
                0 <= s <= sessions,
                sessions == pings@.len(),
                shares@.len() == sessions,
                ranges@.len() == sessions,
                forall|i: int| 0 <= i < sessions ==> (#[trigger] ranges@[i])@.len() == shares@[i],
                owners@.len() == range_start(shares@, s as int),
                statuses@.len() == owners@.len(),
                refused@.len() == owners@.len(),
                forall|k: int| 0 <= k < owners@.len() ==> (#[trigger] owners@[k]) < s,
                forall|k: int|
                    0 <= k < owners@.len() ==> owns(shares@, owners@[k] as int, k as nat),
                forall|k: int|
                    0 <= k < owners@.len() ==> statuses@[k] == PieceDownloadStatus::NotDownloaded,
                forall|k: int|
                    0 <= k < owners@.len() ==> (#[trigger] refused@[k])@.len() == sessions,
                forall|k: int, t: int|
                    0 <= k < owners@.len() && 0 <= t < sessions ==> !(#[trigger] refused@[k]@[t]),
            decreases sessions - s,
        {
            let count = ranges[s].len();
            let ghost base = owners@.len();
            let mut j: usize = 0;
            while j < count
                invariant
                    0 <= j <= count,
                    0 <= s < sessions,
                    count == shares@[s as int],
                    shares@.len() == sessions,
                    base == range_start(shares@, s as int),
                    owners@.len() == base + j,
                    statuses@.len() == owners@.len(),
                    refused@.len() == owners@.len(),
                    forall|k: int| 0 <= k < owners@.len() ==> (#[trigger] owners@[k]) <= s,
                    forall|k: int|
                        0 <= k < owners@.len() ==> owns(shares@, owners@[k] as int, k as nat),
                    forall|k: int|
                        0 <= k < owners@.len() ==> statuses@[k]
                            == PieceDownloadStatus::NotDownloaded,
                    forall|k: int|
                        0 <= k < owners@.len() ==> (#[trigger] refused@[k])@.len() == sessions,
                    forall|k: int, t: int|
                        0 <= k < owners@.len() && 0 <= t < sessions ==> !(
                        #[trigger] refused@[k]@[t]),
                decreases count - j,
            {
                owners.push(s);
                statuses.push(PieceDownloadStatus::NotDownloaded);
                refused.push(cleared(sessions));
                j = j + 1;
            }
            proof {
                assert(shares@.take(s + 1).drop_last() =~= shares@.take(s as int));
            }
            s = s + 1;
        }
        proof {
            assert(shares@.take(sessions as int) =~= shares@);
        }
        let d = Download { file, shares, alive, owners, statuses, refused };
        proof {
            assert forall|k: int| 0 <= k < d@.refused.len() implies (#[trigger] d@.refused[k]).len()
                == d@.alive.len() by {
                assert(d@.refused[k] == d.refused@[k]@);
            }
            assert forall|k: int, t: int|
                0 <= k < d@.refused.len() && 0 <= t < pings@.len() implies !d@.refused[k][t] by {
                assert(d@.refused[k] == d.refused@[k]@);
                assert(!d.refused@[k]@[t]);
            }
        }
        Ok(d)
    }

    /// The next piece that `session` is to fetch: the first piece that waits
    /// for it. The piece is then being downloaded. `None` where no piece
    /// waits for the session.
    pub fn next_piece(&mut self, session: usize) -> (res: Option<u64>)
        requires
            old(self).wf(),
        ensures
            final(self).wf(),
            match res {
                Some(k) => {
                    &&& old(self)@.waits_for(session, k as int)
                    &&& forall|j: int| 0 <= j < k ==> !old(self)@.waits_for(session, j)
                    &&& final(self)@ == old(self)@.with_status(
                        k as int,
                        PieceDownloadStatus::Downloading,
                    )
                },
                None => {
                    &&& forall|j: int| !old(self)@.waits_for(session, j)
                    &&& final(self)@ == old(self)@
                },
            },
    {
        let mut k: usize = 0;
        while k < self.owners.len()
            invariant
                0 <= k <= self.owners@.len(),
                self.wf(),
                *self == *old(self),
                forall|j: int| 0 <= j < k ==> !self@.waits_for(session, j),
            decreases self.owners@.len() - k,
        {
            let waiting = match self.statuses[k] {
                PieceDownloadStatus::NotDownloaded => true,
                _ => false,
            };
            proof {
                assert(self@.refused[k as int] == self.refused@[k as int]@);
            }
            if self.owners[k] == session && waiting && self.alive[session]
                && !self.refused[k][session] {
                self.statuses.set(k, PieceDownloadStatus::Downloading);
                return Some(k as u64);
            }
            k = k + 1;
        }
        None
    }

    fn first_free_session(&self, piece: usize) -> (res: Option<usize>)
        requires
            self.wf(),
            piece < self@.owners.len(),
        ensures
            match res {
                Some(s) => self@.first_candidate(piece as int, s as int),
                None => self@.exhausted(piece as int),
            },
    {
        let mut s: usize = 0;
        proof {
            assert(self@.refused[piece as int] == self.refused@[piece as int]@);
        }
        while s < self.alive.len()
            invariant
                0 <= s <= self.alive@.len(),
                self.wf(),
                piece < self@.owners.len(),
                self@.refused[piece as int] == self.refused@[piece as int]@,
                forall|t: int| 0 <= t < s ==> !self@.candidate(piece as int, t),
            decreases self.alive@.len() - s,
        {
            if self.alive[s] && !self.refused[piece][s] {
                return Some(s);
            }
            s = s + 1;
        }
        None
    }

    fn reroute(&mut self, session: usize, piece: usize) -> (res: Received)
        requires
            old(self).wf(),
            piece < old(self)@.owners.len(),
            session < old(self)@.alive.len(),
        ensures
            final(self).wf(),
            match res {
                Received::Rerouted { session: next } => {
                    &&& old(self)@.refuse(piece as int, session as int).first_candidate(
                        piece as int,
                        next as int,
                    )
                    &&& final(self)@ == old(self)@.refuse(piece as int, session as int).with_owner(
                        piece as int,
                        next,
                    )
                },
                Received::Unavailable => {
                    &&& old(self)@.refuse(piece as int, session as int).exhausted(piece as int)
                    &&& final(self)@ == old(self)@.refuse(piece as int, session as int)
                },
                _ => false,
            },
    {
        proof {
            assert(self@.refused[piece as int] == self.refused@[piece as int]@);
        }
        let row = marked(&self.refused[piece], session);
        self.refused.set(piece, row);
        self.statuses.set(piece, PieceDownloadStatus::NotDownloaded);
        proof {
            let target = old(self)@.refuse(piece as int, session as int).refused;
            assert forall|k: int| 0 <= k < target.len() implies self@.refused[k] == target[k] by {
                assert(self@.refused[k] == self.refused@[k]@);
                assert(old(self)@.refused[k] == old(self).refused@[k]@);
            }
            assert(self@.refused =~= target);
            assert(self@ == old(self)@.refuse(piece as int, session as int));
        }
        match self.first_free_session(piece) {
            Some(next) => {
                self.owners.set(piece, next);
                Received::Rerouted { session: next }
            },
            None => Received::Unavailable,
        }
    }

    /// Takes a piece that `session` has delivered.
    ///
    /// A frame for a piece that the session is not being asked for is
    /// ignored. A piece whose bytes hash to the value of the manifest is
    /// downloaded, and is to be staged under its name. Any other piece counts
    /// as a failure of the session to deliver it: see `piece_failed`.
    pub fn piece_received(&mut self, session: usize, frame: &FilePieceResponseFrame) -> (res:
        Received)
        requires
            old(self).wf(),
        ensures
            final(self).wf(),
            !old(self)@.expects(session, frame.file_id@, frame.piece) ==> res is Ignored
                && final(self)@ == old(self)@,
            old(self)@.expects(session, frame.file_id@, frame.piece) && piece_matches(
                frame.content@,
                old(self)@.file,
                frame.piece,
            ) ==> (res matches Received::Staged { name } && name@ == piece_id(
                old(self)@.file.id,
                frame.piece,
            )) && final(self)@ == old(self)@.with_status(
                frame.piece as int,
                PieceDownloadStatus::Downloaded,
            ),
            old(self)@.expects(session, frame.file_id@, frame.piece) && !piece_matches(
                frame.content@,
                old(self)@.file,
                frame.piece,
            ) ==> old(self)@.failure(session, frame.piece as int, res, final(self)@),
    {
        if !self.is_expected(session, frame.file_id.as_str(), frame.piece) {
            return Received::Ignored;
        }
        let pieces = self.owners.len();
        proof {
            assert(frame.piece < pieces);
        }
        let piece = frame.piece as usize;
        match verify_piece(&self.file, frame.piece, frame.content.as_slice()) {
            Ok(_) => {
                self.statuses.set(piece, PieceDownloadStatus::Downloaded);
                let name = staged_name(self.file.id.as_str(), frame.piece);
                proof {
                    assert(name@ == piece_id(old(self)@.file.id, frame.piece));
                    assert(self@ == old(self)@.with_status(
                        frame.piece as int,
                        PieceDownloadStatus::Downloaded,
                    ));
                    assert(self.wf());
                }
                Received::Staged { name }
            },
            Err(_) => self.reroute(session, piece),
        }
    }

    fn is_expected(&self, session: usize, file_id: &str, piece: u64) -> (res: bool)
        requires
            self.wf(),
        ensures
            res == self@.expects(session, file_id@, piece),
    {
        if !same_text(file_id, self.file.id.as_str()) {
            return false;
        }
        if piece >= self.owners.len() as u64 {
            return false;
        }
        let k = piece as usize;
        let downloading = match self.statuses[k] {
            PieceDownloadStatus::Downloading => true,
            _ => false,
        };
        self.owners[k] == session && downloading
    }

    /// Takes the failure of `session` to deliver piece `piece`.
    ///
    /// A report for a piece that the session is not being asked for is
    /// ignored. Otherwise the failure is marked and the piece waits again:
    /// for the first session that can still be asked and has not failed to
    /// deliver it, or, where there is none, for nobody, and the piece is
    /// unavailable.
    pub fn piece_failed(&mut self, session: usize, piece: u64) -> (res: Received)
        requires
            old(self).wf(),
        ensures
            final(self).wf(),
            !old(self)@.expects(session, old(self)@.file.id, piece) ==> res is Ignored
                && final(self)@ == old(self)@,
            old(self)@.expects(session, old(self)@.file.id, piece) ==> old(self)@.failure(
                session,
                piece as int,
                res,
                final(self)@,
            ),
    {
        if !self.is_expected(session, self.file.id.as_str(), piece) {
            return Received::Ignored;
        }
        let pieces = self.owners.len();
        proof {
            assert(piece < pieces);
        }
        self.reroute(session, piece as usize)
    }

    /// Takes the loss of a session.
    ///
    /// The session can no longer be asked. Every piece that it was to deliver
    /// and has not delivered waits again: for the first session that can
    /// still be asked and has not failed to deliver it, or for nobody. The
    /// call fails with `PieceUnavailable` exactly when a piece is left with
    /// nobody to ask.
    pub fn session_failed(&mut self, session: usize) -> (res: Result<(), RfsError>)
        requires
            old(self).wf(),
        ensures
            final(self).wf(),
            final(self)@.file == old(self)@.file,
            final(self)@.shares == old(self)@.shares,
            session >= old(self)@.alive.len() ==> res is Ok && final(self)@ == old(self)@,
            session < old(self)@.alive.len() ==> final(self)@.alive == old(self)@.alive.update(
                session as int,
                false,
            ),
            forall|k: int|
                0 <= k < old(self)@.owners.len() && !old(self)@.stranded_by(session, k)
                    ==> #[trigger] final(self)@.untouched(old(self)@, k),
            forall|k: int|
                session < old(self)@.alive.len() && old(self)@.stranded_by(session, k)
                    ==> #[trigger] final(self)@.settled(old(self)@, session, k),
            res is Err <==> session < old(self)@.alive.len() && exists|k: int|
                old(self)@.stranded_by(session, k) && #[trigger] final(self)@.exhausted(k),
            res is Err ==> (res matches Err(e) && e == RfsError::PieceUnavailable),
    {
        if session >= self.alive.len() {
            return Ok(());
        }
        self.alive.set(session, false);
        let mut lost = false;
        let mut k: usize = 0;
        while k < self.owners.len()
            invariant
                0 <= k <= self.owners@.len(),
                old(self).wf(),
                self.wf(),
                session < old(self)@.alive.len(),
                self@.file == old(self)@.file,
                self@.shares == old(self)@.shares,
                self@.alive == old(self)@.alive.update(session as int, false),
                self@.owners.len() == old(self)@.owners.len(),
                forall|j: int|
                    0 <= j < old(self)@.owners.len() && (j >= k || !old(self)@.stranded_by(
                        session,
                        j,
                    )) ==> #[trigger] self@.untouched(old(self)@, j),
                forall|j: int|
                    0 <= j < k && old(self)@.stranded_by(session, j) ==> #[trigger] self@.settled(
                        old(self)@,
                        session,
                        j,
                    ),
                lost <==> exists|j: int|
                    0 <= j < k && old(self)@.stranded_by(session, j) && #[trigger] self@.exhausted(
                        j,
                    ),
            decreases self.owners@.len() - k,
        {
            let arrived = match self.statuses[k] {
                PieceDownloadStatus::Downloaded => true,
                _ => false,
            };
            let ghost before = self@;
            let ghost lost_before = lost;
            proof {
                assert(before.untouched(old(self)@, k as int));
            }
            if self.owners[k] == session && !arrived {
                let outcome = self.reroute(session, k);
                match outcome {
                    Received::Unavailable => {
                        lost = true;
                    },
                    _ => {},
                }
                proof {
                    assert(old(self)@.stranded_by(session, k as int));
                    let marked = before.refuse(k as int, session as int);
                    assert(self@.refused[k as int] == marked.refused[k as int]);
                    lemma_same_piece(self@, marked, k as int);
                    assert(self@.settled(old(self)@, session, k as int));
                }
            } else {
                proof {
                    assert(!old(self)@.stranded_by(session, k as int));
                }
            }
            proof {
                let now = self@;
                assert forall|j: int| 0 <= j < now.owners.len() && j != k implies now.same_piece(
                    before,
                    j,
                ) by {}
                assert forall|j: int|
                    0 <= j < old(self)@.owners.len() && (j >= k + 1 || !old(self)@.stranded_by(
                        session,
                        j,
                    )) implies #[trigger] now.untouched(old(self)@, j) by {
                    assert(before.untouched(old(self)@, j));
                    if j != k {
                        assert(now.same_piece(before, j));
                    }
                }
                assert forall|j: int|
                    0 <= j < k + 1 && old(self)@.stranded_by(
                        session,
                        j,
                    ) implies #[trigger] now.settled(old(self)@, session, j) by {
                    if j < k {
                        assert(before.settled(old(self)@, session, j));
                        assert(now.same_piece(before, j));
                        lemma_same_piece(now, before, j);
                    }
                }
                if lost {
                    if lost_before {
                        let j = choose|j: int|
                            0 <= j < k && old(self)@.stranded_by(session, j)
                                && #[trigger] before.exhausted(j);
                        assert(now.same_piece(before, j));
                        lemma_same_piece(now, before, j);
                        assert(now.exhausted(j));
                    } else {
                        assert(now.exhausted(k as int));
                    }
                } else {
                    assert forall|j: int|
                        0 <= j < k + 1 && old(self)@.stranded_by(session, j) implies !(
                    #[trigger] now.exhausted(j)) by {
                        if j < k {
                            assert(now.same_piece(before, j));
                            lemma_same_piece(now, before, j);
                            assert(!before.exhausted(j));
                        }
                    }
                }
            }
            k = k + 1;
        }
        if lost {
            Err(RfsError::PieceUnavailable)
        } else {
            Ok(())
        }
    }

    /// Whether every piece has arrived.
    pub fn is_complete(&self) -> (res: bool)
        requires
            self.wf(),
        ensures
            res == self@.complete(),
    {
        let mut k: usize = 0;
        while k < self.statuses.len()
            invariant
                0 <= k <= self.statuses@.len(),
                forall|j: int|
                    0 <= j < k ==> self@.statuses[j] == PieceDownloadStatus::Downloaded,
            decreases self.statuses@.len() - k,
        {
            match self.statuses[k] {
                PieceDownloadStatus::Downloaded => {},
                _ => {
                    return false;
                },
            }
            k = k + 1;
        }
        true
    }

    /// Where the download stands: `Ok(true)` when every piece has arrived,
    /// `PieceUnavailable` when a piece waits that nobody is to fetch, and
    /// `Ok(false)` while there is still something to fetch.
    pub fn poll(&self) -> (res: Result<bool, RfsError>)
        requires
            self.wf(),
        ensures
            res is Err <==> exists|k: int| #[trigger] self@.lost(k),
            res is Err ==> (res matches Err(e) && e == RfsError::PieceUnavailable),
            res matches Ok(done) ==> done == self@.complete(),
    {
        let mut done = true;
        let mut k: usize = 0;
        while k < self.owners.len()
            invariant
                0 <= k <= self.owners@.len(),
                self.wf(),
                forall|j: int| 0 <= j < k ==> !(#[trigger] self@.lost(j)),
                done <==> forall|j: int|
                    0 <= j < k ==> self@.statuses[j] == PieceDownloadStatus::Downloaded,
            decreases self.owners@.len() - k,
        {
            proof {
                assert(self@.refused[k as int] == self.refused@[k as int]@);
            }
            match self.statuses[k] {
                PieceDownloadStatus::Downloaded => {},
                PieceDownloadStatus::Downloading => {
                    done = false;
                },
                PieceDownloadStatus::NotDownloaded => {
                    let owner = self.owners[k];
                    if !self.alive[owner] || self.refused[k][owner] {
                        proof {
                            assert(self@.lost(k as int));
                        }
                        return Err(RfsError::PieceUnavailable);
                    }
                    done = false;
                },
            }
            k = k + 1;
        }
        proof {
            assert forall|j: int| !(#[trigger] self@.lost(j)) by {}
        }
        Ok(done)
    }

    /// How far every piece has come, in the order of the pieces.
    pub fn progress(&self) -> (res: FileDownloadProgress)
        requires
            self.wf(),
        ensures
            res.pieces@.len() == self@.statuses.len(),
            forall|k: int|
                0 <= k < res.pieces@.len() ==> res.pieces@[k] == (PieceDownloadProgress {
                    piece: k as u64,
                    status: self@.statuses[k],
                }),
    {
        let mut pieces: Vec<PieceDownloadProgress> = Vec::new();
        let mut k: usize = 0;
        while k < self.statuses.len()
            invariant
                0 <= k <= self.statuses@.len(),
                pieces@.len() == k,
                forall|j: int|
                    0 <= j < k ==> pieces@[j] == (PieceDownloadProgress {
                        piece: j as u64,
                        status: self@.statuses[j],
                    }),
            decreases self.statuses@.len() - k,
        {
            pieces.push(PieceDownloadProgress { piece: k as u64, status: self.statuses[k] });
            k = k + 1;
        }
        FileDownloadProgress { pieces }
    }

    /// The names under which the pieces are staged, in the order of the
    /// pieces.
    pub fn piece_ids(&self) -> (res: Vec<String>)
        requires
            self.wf(),
        ensures
            res@.len() == self@.file.hashes.len(),
            forall|k: int|
                0 <= k < res@.len() ==> (#[trigger] res@[k])@ == piece_id(self@.file.id, k as u64),
    {
        let mut res: Vec<String> = Vec::new();
        let mut k: usize = 0;
        while k < self.owners.len()
            invariant
                0 <= k <= self.owners@.len(),
                res@.len() == k,
                forall|j: int|
                    0 <= j < k ==> (#[trigger] res@[j])@ == piece_id(self@.file.id, j as u64),
            decreases self.owners@.len() - k,
        {
            res.push(staged_name(self.file.id.as_str(), k as u64));
            k = k + 1;
        }
        res
    }

    /// The plan for assembling the file, once every piece has arrived: the
    /// staged pieces in the order of the pieces of the file. Until then the
    /// call fails with `PieceUnavailable`.
    pub fn finish(&self, store: &FileManager) -> (res: Result<AssemblyPlan, RfsError>)
        requires
            self.wf(),
        ensures
            res is Ok <==> self@.complete(),
            res is Err ==> (res matches Err(e) && e == RfsError::PieceUnavailable),
            res matches Ok(plan) ==> {
                &&& plan.target@ == store.config().files_dir + "/new-"@ + self@.file.name
                &&& plan.destination@ == store.config().files_dir + "/"@ + self@.file.name
                &&& plan.parts.deep_view() == staged_paths(
                    store.config().file_parts_dir,
                    self@.file.id,
                    self@.file.hashes.len(),
                )
            },
    {
        if !self.is_complete() {
            return Err(RfsError::PieceUnavailable);
        }
        let names = self.piece_ids();
        let plan = store.assemble_file(self.file.name.as_str(), &names);
        proof {
            assert(plan.parts.deep_view() =~= staged_paths(
                store.config().file_parts_dir,
                self@.file.id,
                self@.file.hashes.len(),
            ));
        }
        Ok(plan)
    }
}

impl DownloadView {
    /// What the failure of `session` to deliver piece `k` makes of a
    /// download: `after` is the download with the failure marked, and with
    /// the first session that may still be asked as the new owner of the
    /// piece where there is one.
    pub open spec fn failure(
        self,
        session: usize,
        k: int,
        res: Received,
        after: DownloadView,
    ) -> bool {
        let marked = self.refuse(k, session as int);
        match res {
            Received::Rerouted { session: next } => marked.first_candidate(k, next as int) && after
                == marked.with_owner(k, next),
            Received::Unavailable => marked.exhausted(k) && after == marked,
            _ => false,
        }
    }
}

} // verus!
