//! The file store: the manifests that a peer holds, by file id, and where
//! their bodies and pieces lie on disk.

use vstd::prelude::*;
use vstd::string::StringExecFns;
use crate::domain::config::FSConfig;
use crate::domain::config::FSConfigView;
use crate::domain::files::body_matches;
use crate::domain::files::piece_of;
use crate::domain::files::verify_body;
use crate::domain::files::read_piece;
use crate::domain::files::RFSFile;
use crate::domain::files::RFSFileView;
use crate::domain::models::clone_texts;
use crate::domain::models::texts_equal;
use crate::error::RfsError;
use crate::peer::allocation::any_reachable;
use crate::peer::download::Download;
use crate::peer::enums::FileStatus;
use crate::peer::connection::lemma_piece_id_injective;
use crate::peer::connection::piece_id;
use crate::peer::connection::FilePieceResponseFrame;
use crate::text::join;
use crate::text::same_text;

verus! {

/// No two of the files have the same id.
pub open spec fn unique_ids(files: Seq<RFSFile>) -> bool {
    forall|i: int, j: int| 0 <= i < j < files.len() ==> files[i]@.data.id != files[j]@.data.id
}

spec fn has_id(files: Seq<RFSFile>, id: Seq<char>) -> bool {
    exists|i: int| 0 <= i < files.len() && files[i]@.data.id == id
}

spec fn index_of(files: Seq<RFSFile>, id: Seq<char>) -> int {
    choose|i: int| 0 <= i < files.len() && files[i]@.data.id == id
}

spec fn as_map(files: Seq<RFSFile>) -> Map<Seq<char>, RFSFileView> {
    Map::new(|id: Seq<char>| has_id(files, id), |id: Seq<char>| files[index_of(files, id)]@)
}

proof fn lemma_index_of(files: Seq<RFSFile>, i: int)
    requires
        unique_ids(files),
        0 <= i < files.len(),
    ensures
        has_id(files, files[i]@.data.id),
        index_of(files, files[i]@.data.id) == i,
        as_map(files).dom().contains(files[i]@.data.id),
        as_map(files)[files[i]@.data.id] == files[i]@,
{
    let id = files[i]@.data.id;
    let k = index_of(files, id);
    if k < i {
        assert(files[k]@.data.id != files[i]@.data.id);
    } else if i < k {
        assert(files[i]@.data.id != files[k]@.data.id);
    }
}

proof fn lemma_push_fresh(files: Seq<RFSFile>, file: RFSFile)
    requires
        unique_ids(files),
        !has_id(files, file@.data.id),
    ensures
        unique_ids(files.push(file)),
        as_map(files.push(file)) == as_map(files).insert(file@.data.id, file@),
{
    let grown = files.push(file);
    assert(unique_ids(grown)) by {
        assert forall|i: int, j: int| 0 <= i < j < grown.len() implies grown[i]@.data.id
            != grown[j]@.data.id by {
            if j == files.len() {
                assert(files[i]@.data.id == grown[i]@.data.id);
            }
        }
    }
    let target = as_map(files).insert(file@.data.id, file@);
    assert forall|id: Seq<char>| as_map(grown).dom().contains(id) <==> target.dom().contains(
        id,
    ) by {
        if has_id(grown, id) {
            let k = index_of(grown, id);
            if k < files.len() {
                assert(files[k]@.data.id == id);
            }
        }
        if has_id(files, id) {
            let k = index_of(files, id);
            assert(grown[k]@.data.id == id);
        }
        if id == file@.data.id {
            assert(grown[files.len() as int]@.data.id == id);
        }
    }
    assert forall|id: Seq<char>| as_map(grown).dom().contains(id) implies as_map(grown)[id]
        == target[id] by {
        let k = index_of(grown, id);
        if k < files.len() {
            lemma_index_of(files, k);
        }
    }
    assert(as_map(grown) =~= target);
}

proof fn lemma_replace(files: Seq<RFSFile>, i: int, file: RFSFile)
    requires
        unique_ids(files),
        0 <= i < files.len(),
        files[i]@.data.id == file@.data.id,
    ensures
        unique_ids(files.update(i, file)),
        as_map(files.update(i, file)) == as_map(files).insert(file@.data.id, file@),
{
    let changed = files.update(i, file);
    assert(unique_ids(changed)) by {
        assert forall|a: int, b: int| 0 <= a < b < changed.len() implies changed[a]@.data.id
            != changed[b]@.data.id by {
            assert(files[a]@.data.id != files[b]@.data.id);
        }
    }
    let target = as_map(files).insert(file@.data.id, file@);
    assert forall|id: Seq<char>| as_map(changed).dom().contains(id) <==> target.dom().contains(
        id,
    ) by {
        if has_id(changed, id) {
            let k = index_of(changed, id);
            assert(files[k]@.data.id == id);
        }
        if has_id(files, id) {
            let k = index_of(files, id);
            assert(changed[k]@.data.id == id);
        }
        if id == file@.data.id {
            assert(changed[i]@.data.id == id);
        }
    }
    assert forall|id: Seq<char>| as_map(changed).dom().contains(id) implies as_map(changed)[id]
        == target[id] by {
        let k = index_of(changed, id);
        lemma_index_of(changed, k);
        if k != i {
            lemma_index_of(files, k);
        }
    }
    assert(as_map(changed) =~= target);
}

/// Whether a manifest may take the place of a stored one with the same id:
/// the name and the hashes of all pieces must be the same.
pub open spec fn compatible(stored: RFSFileView, file: RFSFileView) -> bool {
    stored.data.name == file.data.name && stored.data.hashes == file.data.hashes
}

/// The store after `file` has been added; `None` where the store holds
/// another manifest under the same id.
pub open spec fn added(store: Map<Seq<char>, RFSFileView>, file: RFSFileView) -> Option<
    Map<Seq<char>, RFSFileView>,
> {
    if store.dom().contains(file.data.id) && !compatible(store[file.data.id], file) {
        None
    } else {
        Some(store.insert(file.data.id, file))
    }
}

/// Adding a file a second time changes nothing.
pub proof fn lemma_add_file_twice(store: Map<Seq<char>, RFSFileView>, file: RFSFileView)
    requires
        added(store, file) is Some,
    ensures
        added(added(store, file)->Some_0, file) == added(store, file),
{
    let once = store.insert(file.data.id, file);
    assert(once.insert(file.data.id, file) =~= once);
}

/// The stored file with another status.
pub open spec fn with_file_status(file: RFSFileView, status: FileStatus) -> RFSFileView {
    RFSFileView { data: file.data, status: Some(status) }
}

/// Where a staged piece lies: below `file_parts_dir`, under its staged name.
pub open spec fn staged_path(file_parts_dir: Seq<char>, name: Seq<char>) -> Seq<char> {
    file_parts_dir + seq!['/'] + name
}

/// Where the pieces of a file of `count` pieces are staged, in the order of
/// the pieces.
pub open spec fn staged_paths(file_parts_dir: Seq<char>, file_id: Seq<char>, count: nat) -> Seq<
    Seq<char>,
> {
    Seq::new(count, |k: int| staged_path(file_parts_dir, piece_id(file_id, k as u64)))
}

/// The staged pieces that a plan names for a file are the pieces of that
/// file and no others: a piece of any file lies at one of these paths
/// exactly if it is a piece of this file. So removing what the plan names
/// leaves no piece of the file staged, and touches no piece of another file.
pub proof fn lemma_plan_names_the_pieces_of_its_file(
    file_parts_dir: Seq<char>,
    file_id: Seq<char>,
    count: nat,
    other_id: Seq<char>,
    piece: u64,
)
    requires
        count <= u64::MAX,
    ensures
        staged_paths(file_parts_dir, file_id, count).contains(
            staged_path(file_parts_dir, piece_id(other_id, piece)),
        ) <==> (other_id == file_id && piece < count),
{
    let paths = staged_paths(file_parts_dir, file_id, count);
    let path = staged_path(file_parts_dir, piece_id(other_id, piece));
    if other_id == file_id && piece < count {
        assert(paths[piece as int] == path);
    }
    if paths.contains(path) {
        let k = choose|k: int| 0 <= k < paths.len() && paths[k] == path;
        let mine = piece_id(file_id, k as u64);
        let theirs = piece_id(other_id, piece);
        let skip = file_parts_dir.len() + 1;
        assert(staged_path(file_parts_dir, mine).skip(skip as int) =~= mine);
        assert(staged_path(file_parts_dir, theirs).skip(skip as int) =~= theirs);
        lemma_piece_id_injective(file_id, k as u64, other_id, piece);
    }
}

/// A piece on its way to disk.
#[derive(Debug)]
pub struct StagedPiece {
    /// The file that the bytes are written to.
    pub path: String,
    /// The bytes of the piece.
    pub content: Vec<u8>,
}

/// What assembling a file takes: the staged pieces to read, in the order in
/// which their bytes are written to `target`, and where the finished body
/// goes once it has been checked.
#[derive(Debug)]
pub struct AssemblyPlan {
    /// The file that the pieces are written to.
    pub target: String,
    /// Where the body belongs when it is complete.
    pub destination: String,
    /// The staged pieces, in the order of the pieces of the file. They are
    /// removed when their bytes have been written.
    pub parts: Vec<String>,
}

impl AssemblyPlan {
    /// What is to be removed once the assembled body has been checked: the
    /// staged pieces where the body is good, so that nothing of the file is
    /// left in the parts directory; the target alone where it is not, so
    /// that the staged pieces are there for another attempt.
    pub fn leftovers(&self, body_is_good: bool) -> (res: Vec<String>)
        ensures
            body_is_good ==> res.deep_view() == self.parts.deep_view(),
            !body_is_good ==> res.deep_view() == seq![self.target@],
    {
        if body_is_good {
            clone_texts(&self.parts)
        } else {
            let mut res: Vec<String> = Vec::new();
            res.push(self.target.clone());
            proof {
                assert(res.deep_view() =~= seq![self.target@]);
            }
            res
        }
    }
}

/// The manifests of a peer, by file id.
#[derive(Debug)]
pub struct FileManager {
    files: Vec<RFSFile>,
    fs_config: FSConfig,
}

impl View for FileManager {
    type V = Map<Seq<char>, RFSFileView>;

    closed spec fn view(&self) -> Map<Seq<char>, RFSFileView> {
        as_map(self.files@)
    }
}

impl FileManager {
    #[verifier::type_invariant]
    spec fn well_formed(self) -> bool {
        unique_ids(self.files@)
    }

    /// The directories of the peer.
    pub closed spec fn config(&self) -> FSConfigView {
        self.fs_config@
    }

    /// An empty store for a peer with the given directories.
    pub fn new(fs_config: FSConfig) -> (res: Self)
        ensures
            res@ == Map::<Seq<char>, RFSFileView>::empty(),
            res.config() == fs_config@,
    {
        let res = Self { files: Vec::new(), fs_config };
        proof {
            assert(as_map(res.files@) =~= Map::<Seq<char>, RFSFileView>::empty());
        }
        res
    }

    fn find(&self, file_id: &str) -> (res: Option<usize>)
        ensures
            match res {
                Some(i) => i < self.files@.len() && self.files@[i as int]@.data.id == file_id@,
                None => !has_id(self.files@, file_id@),
            },
    {
        let mut i: usize = 0;
        while i < self.files.len()
            invariant
                0 <= i <= self.files@.len(),
                forall|j: int| 0 <= j < i ==> self.files@[j]@.data.id != file_id@,
            decreases self.files@.len() - i,
        {
            if same_text(self.files[i].data.id.as_str(), file_id) {
                return Some(i);
            }
            i = i + 1;
        }
        None
    }

    /// Every file is stored under its own id.
    pub proof fn lemma_stored_under_own_id(&self, id: Seq<char>)
        requires
            self@.dom().contains(id),
        ensures
            self@[id].data.id == id,
    {
    }

    /// The stored file with the given id.
    pub fn get_file(&self, file_id: &str) -> (res: Result<RFSFile, RfsError>)
        ensures
            self@.dom().contains(file_id@) ==> (res matches Ok(file) && file@ == self@[file_id@]
                && file@.data.id == file_id@),
            !self@.dom().contains(file_id@) ==> res == Err::<RFSFile, RfsError>(
                RfsError::UnknownFile,
            ),
    {
        proof {
            use_type_invariant(&*self);
        }
        match self.find(file_id) {
            Some(i) => {
                proof {
                    lemma_index_of(self.files@, i as int);
                }
                Ok(self.files[i].clone())
            },
            None => Err(RfsError::UnknownFile),
        }
    }

    /// Every stored file, each once, in no particular order.
    pub fn get_files(&self) -> (res: Vec<RFSFile>)
        ensures
            unique_ids(res@),
            forall|j: int|
                0 <= j < res@.len() ==> self@.dom().contains(#[trigger] res@[j]@.data.id)
                    && self@[res@[j]@.data.id] == res@[j]@,
            forall|id: Seq<char>|
                self@.dom().contains(id) ==> exists|j: int|
                    0 <= j < res@.len() && res@[j]@.data.id == id,
    {
        proof {
            use_type_invariant(&*self);
        }
        let mut res: Vec<RFSFile> = Vec::new();
        let mut i: usize = 0;
        while i < self.files.len()
            invariant
                0 <= i <= self.files@.len(),
                res@.len() == i,
                forall|j: int| 0 <= j < i ==> res@[j]@ == self.files@[j]@,
            decreases self.files@.len() - i,
        {
            res.push(self.files[i].clone());
            i = i + 1;
        }
        proof {
            assert forall|j: int| 0 <= j < res@.len() implies self@.dom().contains(
                #[trigger] res@[j]@.data.id,
            ) && self@[res@[j]@.data.id] == res@[j]@ by {
                lemma_index_of(self.files@, j);
            }
            assert forall|id: Seq<char>| self@.dom().contains(id) implies exists|j: int|
                0 <= j < res@.len() && res@[j]@.data.id == id by {
                let k = index_of(self.files@, id);
                assert(res@[k]@.data.id == id);
            }
        }
        res
    }

    /// The id of every stored file, each once, in no particular order.
    pub fn get_file_ids(&self) -> (res: Vec<String>)
        ensures
            res.deep_view().no_duplicates(),
            forall|id: Seq<char>| self@.dom().contains(id) <==> res.deep_view().contains(id),
    {
        proof {
            use_type_invariant(&*self);
        }
        let mut res: Vec<String> = Vec::new();
        let mut i: usize = 0;
        while i < self.files.len()
            invariant
                0 <= i <= self.files@.len(),
                res@.len() == i,
                forall|j: int| 0 <= j < i ==> res@[j]@ == self.files@[j]@.data.id,
            decreases self.files@.len() - i,
        {
            res.push(self.files[i].data.id.clone());
            i = i + 1;
        }
        proof {
            let ids = res.deep_view();
            assert forall|a: int, b: int| 0 <= a < ids.len() && 0 <= b < ids.len() && a
                != b implies ids[a] != ids[b] by {
                assert(ids[a] == self.files@[a]@.data.id);
                assert(ids[b] == self.files@[b]@.data.id);
            }
            assert forall|id: Seq<char>| self@.dom().contains(id) <==> ids.contains(id) by {
                if self@.dom().contains(id) {
                    let k = index_of(self.files@, id);
                    assert(ids[k] == id);
                }
                if ids.contains(id) {
                    let k = choose|k: int| 0 <= k < ids.len() && ids[k] == id;
                    assert(self.files@[k]@.data.id == id);
                }
            }
        }
        res
    }

    /// Stores a file under its id.
    ///
    /// A file whose id is new is added. One whose id is stored already takes
    /// the place of the stored file where both have the same name and the
    /// same piece hashes; otherwise the store stays as it is and the call
    /// fails with `ConflictingManifest`.
    pub fn add_file(&mut self, file: RFSFile) -> (res: Result<(), RfsError>)
        ensures
            final(self).config() == old(self).config(),
            match added(old(self)@, file@) {
                Some(store) => res is Ok && final(self)@ == store,
                None => res == Err::<(), RfsError>(RfsError::ConflictingManifest) && final(self)@
                    == old(self)@,
            },
    {
        proof {
            use_type_invariant(&*self);
        }
        let found = self.find(file.data.id.as_str());
        match found {
            Some(i) => {
                proof {
                    lemma_index_of(self.files@, i as int);
                }
                let stored = &self.files[i];
                let same_name = stored.data.name == file.data.name;
                if same_name && texts_equal(&stored.data.hashes, &file.data.hashes) {
                    let mut files: Vec<RFSFile> = Vec::new();
                    std::mem::swap(&mut files, &mut self.files);
                    proof {
                        lemma_replace(files@, i as int, file);
                    }
                    files.set(i, file);
                    self.files = files;
                    Ok(())
                } else {
                    Err(RfsError::ConflictingManifest)
                }
            },
            None => {
                let mut files: Vec<RFSFile> = Vec::new();
                std::mem::swap(&mut files, &mut self.files);
                proof {
                    lemma_push_fresh(files@, file);
                }
                files.push(file);
                self.files = files;
                Ok(())
            },
        }
    }

    /// Where the body of a stored file lies.
    pub fn body_path(&self, file_id: &str) -> (res: Result<String, RfsError>)
        ensures
            self@.dom().contains(file_id@) ==> (res matches Ok(path) && path@
                == self.config().files_dir + "/"@ + self@[file_id@].data.name),
            !self@.dom().contains(file_id@) ==> res == Err::<String, RfsError>(
                RfsError::UnknownFile,
            ),
    {
        proof {
            use_type_invariant(&*self);
        }
        match self.find(file_id) {
            Some(i) => {
                proof {
                    lemma_index_of(self.files@, i as int);
                }
                Ok(self.files[i].get_path(self.fs_config.files_dir.as_str()))
            },
            None => Err(RfsError::UnknownFile),
        }
    }

    /// The bytes of one piece of a stored file whose body is `contents`.
    pub fn get_file_piece(&self, file_id: &str, piece: u64, contents: &[u8]) -> (res: Result<
        Vec<u8>,
        RfsError,
    >)
        ensures
            self@.dom().contains(file_id@) ==> (res matches Ok(bytes) && bytes@ == piece_of(
                contents@,
                self@[file_id@].data.piece_size as nat,
                piece as nat,
            )),
            !self@.dom().contains(file_id@) ==> res == Err::<Vec<u8>, RfsError>(
                RfsError::UnknownFile,
            ),
    {
        proof {
            use_type_invariant(&*self);
        }
        match self.find(file_id) {
            Some(i) => {
                proof {
                    lemma_index_of(self.files@, i as int);
                }
                Ok(read_piece(contents, self.files[i].data.piece_size, piece))
            },
            None => Err(RfsError::UnknownFile),
        }
    }

    /// What staging a piece that has arrived takes: its bytes, and the place
    /// below the parts directory, under the staged name of the piece, where
    /// they go. Staging the same piece again writes the same bytes to the
    /// same place.
    pub fn save_file_piece(&self, frame: FilePieceResponseFrame) -> (staged: StagedPiece)
        ensures
            staged.path@ == staged_path(
                self.config().file_parts_dir,
                piece_id(frame.file_id@, frame.piece),
            ),
            staged.content@ == frame.content@,
    {
        proof {
            reveal_strlit("/");
        }
        let mut path = join(self.fs_config.file_parts_dir.as_str(), "/");
        let name = frame.get_piece_id();
        path.append(name.as_str());
        proof {
            assert("/"@ =~= seq!['/']);
        }
        StagedPiece { path, content: frame.content }
    }

    /// The plan for assembling the file `file_name` from the staged pieces
    /// `piece_ids`, given in the order of the pieces of the file.
    pub fn assemble_file(&self, file_name: &str, piece_ids: &Vec<String>) -> (plan: AssemblyPlan)
        ensures
            plan.target@ == self.config().files_dir + "/new-"@ + file_name@,
            plan.destination@ == self.config().files_dir + "/"@ + file_name@,
            plan.parts@.len() == piece_ids@.len(),
            forall|k: int|
                0 <= k < piece_ids@.len() ==> (#[trigger] plan.parts@[k])@ == staged_path(
                    self.config().file_parts_dir,
                    piece_ids@[k]@,
                ),
    {
        proof {
            reveal_strlit("/");
            assert("/"@ =~= seq!['/']);
        }
        let mut target = join(self.fs_config.files_dir.as_str(), "/new-");
        target.append(file_name);
        let mut destination = join(self.fs_config.files_dir.as_str(), "/");
        destination.append(file_name);
        let mut parts: Vec<String> = Vec::new();
        let mut k: usize = 0;
        while k < piece_ids.len()
            invariant
                0 <= k <= piece_ids@.len(),
                "/"@ == seq!['/'],
                parts@.len() == k,
                forall|j: int|
                    0 <= j < k ==> (#[trigger] parts@[j])@ == staged_path(
                        self.fs_config@.file_parts_dir,
                        piece_ids@[j]@,
                    ),
            decreases piece_ids@.len() - k,
        {
            let mut path = join(self.fs_config.file_parts_dir.as_str(), "/");
            path.append(piece_ids[k].as_str());
            parts.push(path);
            k = k + 1;
        }
        AssemblyPlan { target, destination, parts }
    }

    fn set_status(&mut self, i: usize, status: FileStatus)
        requires
            i < old(self).files@.len(),
        ensures
            final(self).config() == old(self).config(),
            final(self)@ == old(self)@.insert(
                old(self).files@[i as int]@.data.id,
                with_file_status(old(self).files@[i as int]@, status),
            ),
    {
        proof {
            use_type_invariant(&*self);
        }
        let changed = RFSFile { data: self.files[i].data.clone(), status: Some(status) };
        let mut files: Vec<RFSFile> = Vec::new();
        std::mem::swap(&mut files, &mut self.files);
        proof {
            lemma_replace(files@, i as int, changed);
        }
        files.set(i, changed);
        self.files = files;
    }

    /// Plans the download of a stored file over sessions with the given
    /// pings, and marks the file as being downloaded.
    ///
    /// Fails with `UnknownFile` where the store does not hold the file, and
    /// with `NoReachablePeers` where no session has a usable ping; the store
    /// then stays as it is.
    pub fn download_file(&mut self, file_id: &str, pings: &Vec<u128>) -> (res: Result<
        Download,
        RfsError,
    >)
        ensures
            final(self).config() == old(self).config(),
            !old(self)@.dom().contains(file_id@) ==> (res matches Err(e) && e
                == RfsError::UnknownFile) && final(self)@ == old(self)@,
            old(self)@.dom().contains(file_id@) && !any_reachable(pings@) ==> (res matches Err(e)
                && e == RfsError::NoReachablePeers) && final(self)@ == old(self)@,
            old(self)@.dom().contains(file_id@) && any_reachable(pings@) ==> (res matches Ok(d)
                && d@.fresh(old(self)@[file_id@].data, pings@) && d@.file.id == file_id@)
                && final(self)@
                == old(self)@.insert(
                file_id@,
                with_file_status(old(self)@[file_id@], FileStatus::Downloading),
            ),
    {
        proof {
            use_type_invariant(&*self);
        }
        match self.find(file_id) {
            None => Err(RfsError::UnknownFile),
            Some(i) => {
                proof {
                    lemma_index_of(self.files@, i as int);
                }
                match Download::start(self.files[i].data.clone(), pings) {
                    Err(e) => Err(e),
                    Ok(download) => {
                        self.set_status(i, FileStatus::Downloading);
                        Ok(download)
                    },
                }
            },
        }
    }

    /// Ends the download of a stored file with the assembled body `body`.
    ///
    /// A body that has the length and the hash of the manifest makes the
    /// file `Downloaded`. Any other body makes it `NotDownloaded`, and the
    /// call fails with `PieceHashMismatch`. Where the store does not hold the
    /// file, it fails with `UnknownFile`.
    pub fn complete_download(&mut self, file_id: &str, body: &[u8]) -> (res: Result<(), RfsError>)
        ensures
            final(self).config() == old(self).config(),
            !old(self)@.dom().contains(file_id@) ==> (res matches Err(e) && e
                == RfsError::UnknownFile) && final(self)@ == old(self)@,
            old(self)@.dom().contains(file_id@) && body_matches(body@, old(self)@[file_id@].data)
                ==> res is Ok && final(self)@ == old(self)@.insert(
                file_id@,
                with_file_status(old(self)@[file_id@], FileStatus::Downloaded),
            ),
            old(self)@.dom().contains(file_id@) && !body_matches(body@, old(self)@[file_id@].data)
                ==> (res matches Err(e) && e == RfsError::PieceHashMismatch) && final(self)@
                == old(self)@.insert(
                file_id@,
                with_file_status(old(self)@[file_id@], FileStatus::NotDownloaded),
            ),
    {
        proof {
            use_type_invariant(&*self);
        }
        match self.find(file_id) {
            None => Err(RfsError::UnknownFile),
            Some(i) => {
                proof {
                    lemma_index_of(self.files@, i as int);
                }
                match verify_body(body, &self.files[i].data) {
                    Ok(_) => {
                        self.set_status(i, FileStatus::Downloaded);
                        Ok(())
                    },
                    Err(e) => {
                        self.set_status(i, FileStatus::NotDownloaded);
                        Err(e)
                    },
                }
            },
        }
    }
}

} // verus!
