//! Building a manifest from a file body, and checking bodies and pieces
//! against a manifest.

use vstd::prelude::*;
use vstd::arithmetic::div_mod::lemma_fundamental_div_mod;
use vstd::arithmetic::div_mod::lemma_mod_bound;
use vstd::slice::slice_subrange;
use vstd::string::StringExecFns;
use crate::domain::digest::content_hash;
use crate::domain::digest::fresh_file_id;
use crate::domain::digest::hash_matches;
use crate::domain::digest::hash_text;
use crate::domain::digest::is_file_id;
use crate::domain::models::File;
use crate::domain::models::texts_equal;
use crate::domain::models::FileView;
use crate::error::RfsError;
use crate::peer::enums::FileStatus;
use crate::text::first_segment;
use crate::text::first_segment_of;
use crate::text::join;
use crate::text::last_segment;
use crate::text::last_segment_of;
use crate::values::DEFAULT_PIECE_SIZE;

verus! {

/// A manifest together with what the peer knows of the file's body on disk.
#[derive(Debug)]
pub struct RFSFile {
    pub data: File,
    /// `None` until the disk has been looked at.
    pub status: Option<FileStatus>,
}

/// An `RFSFile` as plain mathematical values.
pub struct RFSFileView {
    pub data: FileView,
    pub status: Option<FileStatus>,
}

impl View for RFSFile {
    type V = RFSFileView;

    open spec fn view(&self) -> RFSFileView {
        RFSFileView { data: self.data@, status: self.status }
    }
}

impl Clone for RFSFile {
    fn clone(&self) -> (res: Self)
        ensures
            res@ == self@,
    {
        RFSFile { data: self.data.clone(), status: self.status }
    }
}

/// What a look at the place of a file's body on disk has found.
#[derive(Debug)]
pub enum FileProbe {
    /// The file is there, with these bytes.
    Found(Vec<u8>),
    /// There is no such file.
    Missing,
    /// The file system failed in some other way.
    Failed,
}

/// The number of pieces of a body of `length` bytes: `length / piece_size`,
/// rounded up.
pub open spec fn piece_count(length: nat, piece_size: nat) -> nat {
    if piece_size == 0 {
        0
    } else {
        ((length + piece_size - 1) / (piece_size as int)) as nat
    }
}

/// Where piece `i` starts in a body of `length` bytes.
pub open spec fn piece_start(length: nat, piece_size: nat, i: nat) -> nat {
    if i * piece_size < length {
        i * piece_size
    } else {
        length
    }
}

/// Where piece `i` ends in a body of `length` bytes.
pub open spec fn piece_end(length: nat, piece_size: nat, i: nat) -> nat {
    piece_start(length, piece_size, i + 1)
}

/// The bytes of piece `i` of `body`: those from `i * piece_size` up to
/// `(i + 1) * piece_size`, or up to the end of the body where it ends earlier.
pub open spec fn piece_of(body: Seq<u8>, piece_size: nat, i: nat) -> Seq<u8> {
    body.subrange(
        piece_start(body.len(), piece_size, i) as int,
        piece_end(body.len(), piece_size, i) as int,
    )
}

/// The pieces of `body`, in order.
pub open spec fn pieces_of(body: Seq<u8>, piece_size: nat) -> Seq<Seq<u8>> {
    Seq::new(piece_count(body.len(), piece_size), |i: int| piece_of(body, piece_size, i as nat))
}

/// The hashes of the pieces of `body`, in order.
pub open spec fn piece_hashes(body: Seq<u8>, piece_size: nat) -> Seq<Seq<char>> {
    Seq::new(
        piece_count(body.len(), piece_size),
        |i: int| hash_text(piece_of(body, piece_size, i as nat)),
    )
}

/// The pieces put one behind the other.
pub open spec fn concat_pieces(pieces: Seq<Seq<u8>>) -> Seq<u8>
    decreases pieces.len(),
{
    if pieces.len() == 0 {
        Seq::<u8>::empty()
    } else {
        concat_pieces(pieces.drop_last()) + pieces.last()
    }
}

/// The sum of the lengths of the pieces.
pub open spec fn total_len(pieces: Seq<Seq<u8>>) -> nat
    decreases pieces.len(),
{
    if pieces.len() == 0 {
        0
    } else {
        total_len(pieces.drop_last()) + pieces.last().len()
    }
}

/// `m` is the manifest that describes `body`, published under `name` by the
/// peer at `host`, with pieces of the default size. Only the id is left open.
pub open spec fn is_manifest_of(
    m: FileView,
    body: Seq<u8>,
    host: Seq<char>,
    name: Seq<char>,
) -> bool {
    &&& m.hash == hash_text(body)
    &&& m.name == name
    &&& m.length == body.len()
    &&& m.peers == seq![host]
    &&& m.piece_size == DEFAULT_PIECE_SIZE
    &&& m.hashes == piece_hashes(body, DEFAULT_PIECE_SIZE as nat)
}

/// `m` records exactly the hashes `hashes` for its pieces, and has pieces at
/// all.
pub open spec fn records_piece_hashes(m: FileView, hashes: Seq<Seq<char>>) -> bool {
    &&& m.piece_size > 0
    &&& m.hashes == hashes
}

/// Every piece of `body` hashes to the value that `m` records for it, and `m`
/// records no other piece.
pub open spec fn pieces_match(body: Seq<u8>, m: FileView) -> bool {
    records_piece_hashes(m, piece_hashes(body, m.piece_size as nat))
}

/// `m` records the hash `hash` for piece `piece`.
pub open spec fn records_piece_hash(m: FileView, piece: u64, hash: Seq<char>) -> bool {
    &&& piece < m.hashes.len()
    &&& m.hashes[piece as int] == hash
}

/// `m` records the length `length` and the hash `hash` for the whole file.
pub open spec fn records_body_hash(m: FileView, length: nat, hash: Seq<char>) -> bool {
    &&& m.length == length
    &&& m.hash == hash
}

/// `body` has the length and the hash that `m` records for the whole file.
pub open spec fn body_matches(body: Seq<u8>, m: FileView) -> bool {
    records_body_hash(m, body.len(), hash_text(body))
}

/// `content` hashes to the value that `m` records for piece `piece`.
pub open spec fn piece_matches(content: Seq<u8>, m: FileView, piece: u64) -> bool {
    records_piece_hash(m, piece, hash_text(content))
}

proof fn lemma_piece_count_bounds(length: nat, piece_size: nat)
    requires
        piece_size > 0,
    ensures
        piece_count(length, piece_size) * piece_size >= length,
        length > 0 ==> (piece_count(length, piece_size) - 1) * piece_size < length,
        length == 0 ==> piece_count(length, piece_size) == 0,
        piece_count(length, piece_size) <= length,
{
    let p = piece_size as int;
    let x = length + p - 1;
    let c = x / p;
    lemma_fundamental_div_mod(x, p);
    lemma_mod_bound(x, p);
    assert(p * c == c * p) by (nonlinear_arith);
    assert((c - 1) * p == c * p - p) by (nonlinear_arith);
    if length == 0 {
        assert(c == 0) by (nonlinear_arith)
            requires
                x == p * c + x % p,
                0 <= x % p < p,
                x == p - 1,
                p > 0,
        ;
    }
    assert(0 <= c <= length) by (nonlinear_arith)
        requires
            x == p * c + x % p,
            0 <= x % p < p,
            x == length + p - 1,
            p > 0,
            length >= 0,
    ;
}

/// The final piece of a non-empty body is a full piece where the length is a
/// multiple of the piece size, and holds the `length % piece_size` bytes that
/// are left where it is not.
pub proof fn lemma_final_piece_len(body: Seq<u8>, piece_size: nat)
    requires
        piece_size > 0,
        body.len() > 0,
    ensures
        piece_count(body.len(), piece_size) > 0,
        body.len() % piece_size == 0 ==> piece_of(
            body,
            piece_size,
            (piece_count(body.len(), piece_size) - 1) as nat,
        ).len() == piece_size,
        body.len() % piece_size != 0 ==> piece_of(
            body,
            piece_size,
            (piece_count(body.len(), piece_size) - 1) as nat,
        ).len() == body.len() % piece_size,
{
    let len = body.len() as int;
    let p = piece_size as int;
    let c = piece_count(body.len(), piece_size) as int;
    lemma_piece_count_bounds(body.len(), piece_size);
    lemma_fundamental_div_mod(len, p);
    lemma_mod_bound(len, p);
    let q = len / p;
    assert(p * q == q * p) by (nonlinear_arith);
    assert((c - 1) * p == c * p - p) by (nonlinear_arith);
    if len % p == 0 {
        assert(c == q) by (nonlinear_arith)
            requires
                len == q * p,
                c * p >= len,
                c * p - p < len,
                p > 0,
        ;
    } else {
        assert(c == q + 1) by (nonlinear_arith)
            requires
                len == q * p + len % p,
                0 < len % p < p,
                c * p >= len,
                c * p - p < len,
                p > 0,
        ;
        assert((q + 1) * p == q * p + p) by (nonlinear_arith);
    }
    assert(((c - 1) + 1) * p == c * p);
}

proof fn lemma_concat_prefix(body: Seq<u8>, piece_size: nat, k: nat)
    requires
        piece_size > 0,
        k <= piece_count(body.len(), piece_size),
    ensures
        concat_pieces(pieces_of(body, piece_size).take(k as int)) == body.take(
            piece_start(body.len(), piece_size, k) as int,
        ),
    decreases k,
{
    let pieces = pieces_of(body, piece_size);
    if k == 0 {
        assert(0 * piece_size == 0) by (nonlinear_arith);
        assert(pieces.take(0) =~= Seq::<Seq<u8>>::empty());
        assert(body.take(0) =~= Seq::<u8>::empty());
    } else {
        lemma_concat_prefix(body, piece_size, (k - 1) as nat);
        assert(pieces.take(k as int).drop_last() =~= pieces.take(k - 1));
        assert(pieces.take(k as int).last() == piece_of(body, piece_size, (k - 1) as nat));
        assert((k - 1) * piece_size <= k * piece_size) by (nonlinear_arith)
            requires
                piece_size > 0,
        ;
        assert(((k - 1) + 1) as nat == k);
        assert(body.take(piece_start(body.len(), piece_size, (k - 1) as nat) as int) + piece_of(
            body,
            piece_size,
            (k - 1) as nat,
        ) =~= body.take(piece_start(body.len(), piece_size, k) as int));
    }
}

/// The pieces of a body, put one behind the other, are the body.
pub proof fn lemma_pieces_rebuild_body(body: Seq<u8>, piece_size: nat)
    requires
        piece_size > 0,
    ensures
        concat_pieces(pieces_of(body, piece_size)) == body,
{
    let count = piece_count(body.len(), piece_size);
    lemma_piece_count_bounds(body.len(), piece_size);
    lemma_concat_prefix(body, piece_size, count);
    assert(pieces_of(body, piece_size).take(count as int) =~= pieces_of(body, piece_size));
    assert(body.take(body.len() as int) =~= body);
}

/// Pieces put one behind the other are as long as the pieces together.
pub proof fn lemma_concat_len(pieces: Seq<Seq<u8>>)
    ensures
        concat_pieces(pieces).len() == total_len(pieces),
    decreases pieces.len(),
{
    if pieces.len() > 0 {
        lemma_concat_len(pieces.drop_last());
    }
}

/// An empty body has no piece, and its pieces rebuild the empty body.
pub proof fn lemma_empty_body(piece_size: nat)
    requires
        piece_size > 0,
    ensures
        piece_count(0, piece_size) == 0,
        piece_hashes(Seq::<u8>::empty(), piece_size) == Seq::<Seq<char>>::empty(),
        concat_pieces(pieces_of(Seq::<u8>::empty(), piece_size)) == Seq::<u8>::empty(),
{
    lemma_piece_count_bounds(0, piece_size);
    lemma_pieces_rebuild_body(Seq::<u8>::empty(), piece_size);
    assert(piece_hashes(Seq::<u8>::empty(), piece_size) =~= Seq::<Seq<char>>::empty());
}

/// A manifest built from a body passes the check of all pieces and the check
/// of the whole body against it.
pub proof fn lemma_built_manifest_verifies(
    m: FileView,
    body: Seq<u8>,
    host: Seq<char>,
    name: Seq<char>,
)
    requires
        is_manifest_of(m, body, host, name),
    ensures
        pieces_match(body, m),
        body_matches(body, m),
{
}

/// The bytes of piece `piece` of `contents`.
pub fn read_piece(contents: &[u8], piece_size: u64, piece: u64) -> (res: Vec<u8>)
    ensures
        res@ == piece_of(contents@, piece_size as nat, piece as nat),
{
    let len = contents.len();
    proof {
        assert(piece * piece_size <= 0xFFFF_FFFF_FFFF_FFFF * 0xFFFF_FFFF_FFFF_FFFF)
            by (nonlinear_arith)
            requires
                0 <= piece <= 0xFFFF_FFFF_FFFF_FFFF,
                0 <= piece_size <= 0xFFFF_FFFF_FFFF_FFFF,
        ;
        assert((piece + 1) * piece_size <= 0x1_0000_0000_0000_0000 * 0xFFFF_FFFF_FFFF_FFFF)
            by (nonlinear_arith)
            requires
                0 <= piece <= 0xFFFF_FFFF_FFFF_FFFF,
                0 <= piece_size <= 0xFFFF_FFFF_FFFF_FFFF,
        ;
        assert(piece * piece_size <= (piece + 1) * piece_size) by (nonlinear_arith)
            requires
                0 <= piece,
                0 <= piece_size,
        ;
    }
    let first: u128 = (piece as u128) * (piece_size as u128);
    let behind: u128 = (piece as u128 + 1) * (piece_size as u128);
    let start: usize = if first < len as u128 {
        first as usize
    } else {
        len
    };
    let end: usize = if behind < len as u128 {
        behind as usize
    } else {
        len
    };
    vstd::slice::slice_to_vec(slice_subrange(contents, start, end))
}

/// The body that the pieces make up: their bytes, one piece behind the
/// other, in the order of the list.
pub fn assemble_body(pieces: &Vec<Vec<u8>>) -> (body: Vec<u8>)
    ensures
        body@ == concat_pieces(pieces.deep_view()),
{
    let mut body: Vec<u8> = Vec::new();
    let mut k: usize = 0;
    proof {
        assert(pieces.deep_view().take(0) =~= Seq::<Seq<u8>>::empty());
    }
    while k < pieces.len()
        invariant
            0 <= k <= pieces@.len(),
            body@ == concat_pieces(pieces.deep_view().take(k as int)),
        decreases pieces@.len() - k,
    {
        let piece = &pieces[k];
        let ghost before = body@;
        let mut i: usize = 0;
        while i < piece.len()
            invariant
                0 <= i <= piece@.len(),
                body@ == before + piece@.take(i as int),
            decreases piece@.len() - i,
        {
            body.push(piece[i]);
            proof {
                assert(piece@.take(i as int).push(piece@[i as int]) =~= piece@.take(i + 1));
                assert(body@ =~= before + piece@.take(i + 1));
            }
            i = i + 1;
        }
        proof {
            assert(piece@.take(i as int) =~= piece@);
            let views = pieces.deep_view();
            assert(views.take(k + 1).drop_last() =~= views.take(k as int));
            assert(views.take(k + 1).last() =~= piece@);
        }
        k = k + 1;
    }
    proof {
        assert(pieces.deep_view().take(k as int) =~= pieces.deep_view());
    }
    body
}

/// The hash of every piece of `contents`, in order.
pub fn hash_pieces(contents: &[u8], piece_size: u64) -> (hashes: Vec<String>)
    ensures
        hashes.deep_view() == piece_hashes(contents@, piece_size as nat),
{
    let len = contents.len();
    let mut hashes: Vec<String> = Vec::new();
    if piece_size == 0 {
        proof {
            assert(hashes.deep_view() =~= piece_hashes(contents@, piece_size as nat));
        }
        return hashes;
    }
    let mut start: usize = 0;
    let ghost mut i: nat = 0;
    proof {
        assert(0 * piece_size == 0) by (nonlinear_arith);
    }
    while start < len
        invariant
            piece_size > 0,
            len == contents@.len(),
            start <= len,
            start == piece_start(len as nat, piece_size as nat, i),
            start < len ==> start == i * piece_size,
            i > 0 ==> (i - 1) * piece_size < len,
            hashes@.len() == i,
            forall|j: int|
                0 <= j < i ==> hashes@[j]@ == hash_text(
                    piece_of(contents@, piece_size as nat, j as nat),
                ),
        decreases len - start,
    {
        let room = len - start;
        let end: usize = if room as u64 <= piece_size {
            len
        } else {
            start + piece_size as usize
        };
        proof {
            assert((i + 1) * piece_size == i * piece_size + piece_size) by (nonlinear_arith);
            assert(((i + 1) - 1) as nat == i);
        }
        let piece = slice_subrange(contents, start, end);
        hashes.push(content_hash(piece));
        start = end;
        proof {
            i = i + 1;
        }
    }
    proof {
        let c = piece_count(len as nat, piece_size as nat);
        lemma_piece_count_bounds(len as nat, piece_size as nat);
        if i > 0 {
            assert(i == c) by (nonlinear_arith)
                requires
                    (i - 1) * piece_size < len,
                    i * piece_size >= len,
                    c * piece_size >= len,
                    (c - 1) * piece_size < len,
                    piece_size > 0,
                    len > 0,
            ;
        }
        assert(hashes.deep_view() =~= piece_hashes(contents@, piece_size as nat));
    }
    hashes
}

/// The manifest of `contents`, published under `name` by the peer at
/// `host_address`, with the given id and pieces of the default size. The
/// status of the new file is not yet known.
pub fn build_manifest(file_id: String, host_address: String, name: String, contents: &[u8]) -> (res:
    RFSFile)
    ensures
        res@.data.id == file_id@,
        is_manifest_of(res@.data, contents@, host_address@, name@),
        res@.status is None,
{
    let hash = content_hash(contents);
    let hashes = hash_pieces(contents, DEFAULT_PIECE_SIZE);
    let ghost host = host_address@;
    let mut peers: Vec<String> = Vec::new();
    peers.push(host_address);
    proof {
        assert(peers.deep_view() =~= seq![host]);
    }
    RFSFile {
        data: File {
            id: file_id,
            hash,
            name,
            length: contents.len() as u64,
            peers,
            piece_size: DEFAULT_PIECE_SIZE,
            hashes,
        },
        status: None,
    }
}

/// The manifest of the file at `path` with the body `contents`, published by
/// the peer at `host_address` under a freshly drawn id. The file's name is the
/// part of `path` after its last `/`.
pub fn generate_meta_file(host_address: String, path: &str, contents: &[u8]) -> (res: RFSFile)
    ensures
        is_file_id(res@.data.id),
        is_manifest_of(res@.data, contents@, host_address@, last_segment(path@, '/')),
        res@.status is None,
{
    let name = last_segment_of(path, '/');
    let file_id = fresh_file_id();
    build_manifest(file_id, host_address, name, contents)
}

/// Checks the hash of the bytes received for piece `piece` against the
/// manifest: it must be the hash that the manifest records for that piece.
pub fn check_piece_hash(file: &File, piece: u64, hash: &String) -> (res: Result<(), RfsError>)
    ensures
        res is Ok <==> records_piece_hash(file@, piece, hash@),
        res is Err ==> res == Err::<(), RfsError>(RfsError::PieceHashMismatch),
{
    if piece >= file.hashes.len() as u64 {
        return Err(RfsError::PieceHashMismatch);
    }
    let same = file.hashes[piece as usize] == *hash;
    proof {
        assert(file@.hashes[piece as int] == file.hashes@[piece as int]@);
    }
    if same {
        Ok(())
    } else {
        Err(RfsError::PieceHashMismatch)
    }
}

/// Checks the bytes received for piece `piece` against the manifest.
pub fn verify_piece(file: &File, piece: u64, content: &[u8]) -> (res: Result<(), RfsError>)
    ensures
        res is Ok <==> piece_matches(content@, file@, piece),
        res is Err ==> res == Err::<(), RfsError>(RfsError::PieceHashMismatch),
{
    let hash = content_hash(content);
    check_piece_hash(file, piece, &hash)
}

/// Checks the hashes of all pieces of a body against the manifest: they
/// must be the hashes that the manifest records, one for one.
pub fn check_piece_hashes(file: &File, hashes: &Vec<String>) -> (res: Result<(), RfsError>)
    ensures
        res is Ok <==> records_piece_hashes(file@, hashes.deep_view()),
        res is Err ==> res == Err::<(), RfsError>(RfsError::PieceHashMismatch),
{
    if file.piece_size > 0 && texts_equal(&file.hashes, hashes) {
        Ok(())
    } else {
        Err(RfsError::PieceHashMismatch)
    }
}

/// Checks every piece of `contents` against the manifest.
pub fn verify_all_pieces(contents: &[u8], file: &File) -> (res: Result<(), RfsError>)
    ensures
        res is Ok <==> pieces_match(contents@, file@),
        res is Err ==> res == Err::<(), RfsError>(RfsError::PieceHashMismatch),
{
    let hashes = hash_pieces(contents, file.piece_size);
    check_piece_hashes(file, &hashes)
}

/// Checks the length and the hash of a whole body against the manifest.
pub fn check_body_hash(file: &File, length: u64, hash: &String) -> (res: Result<(), RfsError>)
    ensures
        res is Ok <==> records_body_hash(file@, length as nat, hash@),
        res is Err ==> res == Err::<(), RfsError>(RfsError::PieceHashMismatch),
{
    let same = file.hash == *hash;
    if length == file.length && same {
        Ok(())
    } else {
        Err(RfsError::PieceHashMismatch)
    }
}

/// Checks a whole body against the length and the hash that the manifest
/// records.
pub fn verify_body(contents: &[u8], file: &File) -> (res: Result<(), RfsError>)
    ensures
        res is Ok <==> body_matches(contents@, file@),
        res is Err ==> res == Err::<(), RfsError>(RfsError::PieceHashMismatch),
{
    let hash = content_hash(contents);
    check_body_hash(file, contents.len() as u64, &hash)
}

/// The status of a file after a look at the disk, given its status before.
///
/// A body that is there and has the hash that the manifest records for the
/// whole file makes the file `Downloaded`. Where the body is missing, or is
/// there with another hash, a file that is being downloaded stays so and any
/// other becomes `NotDownloaded`. A failure of the file system changes
/// nothing.
pub open spec fn refreshed_status(
    before: Option<FileStatus>,
    m: FileView,
    probe: FileProbe,
) -> Option<FileStatus> {
    match probe {
        FileProbe::Found(body) => if m.hash == hash_text(body@) {
            Some(FileStatus::Downloaded)
        } else if before == Some(FileStatus::Downloading) {
            before
        } else {
            Some(FileStatus::NotDownloaded)
        },
        FileProbe::Missing => if before == Some(FileStatus::Downloading) {
            before
        } else {
            Some(FileStatus::NotDownloaded)
        },
        FileProbe::Failed => before,
    }
}

/// Brings the status of `file` up to date with what was found on disk.
pub fn refresh_file_status(file: &mut RFSFile, probe: &FileProbe)
    ensures
        final(file)@.data == old(file)@.data,
        final(file)@.status == refreshed_status(old(file)@.status, old(file)@.data, *probe),
{
    let downloading = match file.status {
        Some(FileStatus::Downloading) => true,
        _ => false,
    };
    match probe {
        FileProbe::Found(body) => {
            if hash_matches(body.as_slice(), &file.data.hash) {
                file.status = Some(FileStatus::Downloaded);
            } else if !downloading {
                file.status = Some(FileStatus::NotDownloaded);
            }
        },
        FileProbe::Missing => {
            if !downloading {
                file.status = Some(FileStatus::NotDownloaded);
            }
        },
        FileProbe::Failed => {},
    }
}

impl RFSFile {
    /// Where the body of the file lies: below the files directory `files_dir`,
    /// under the name of the file.
    pub fn get_path(&self, files_dir: &str) -> (path: String)
        ensures
            path@ == files_dir@ + "/"@ + self@.data.name,
    {
        let mut path = join(files_dir, "/");
        path.append(self.data.name.as_str());
        path
    }

    /// Where the manifest is kept below `metafiles_dir`: under the part of the
    /// file's name before its first `.`, with the extension `.rfs`.
    pub fn metafile_path(&self, metafiles_dir: &str) -> (path: String)
        ensures
            path@ == metafiles_dir@ + "/"@ + first_segment(self@.data.name, '.') + ".rfs"@,
    {
        let stem = first_segment_of(self.data.name.as_str(), '.');
        let mut path = join(metafiles_dir, "/");
        path.append(stem.as_str());
        path.append(".rfs");
        path
    }
}

/// Whether `path` names a manifest: whether the part after its last `.` is
/// `rfs`.
pub fn is_metafile_path(path: &str) -> (res: bool)
    ensures
        res == (last_segment(path@, '.') == "rfs"@),
{
    let extension = last_segment_of(path, '.');
    let wanted = String::from_str("rfs");
    extension == wanted
}

} // verus!
