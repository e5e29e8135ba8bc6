//! The manifest of a published file.

use vstd::prelude::*;

verus! {

/// The manifest ("meta-file") of a published file: what a downloader needs to
/// fetch the file piece by piece and to check what it got.
#[derive(Debug)]
pub struct File {
    /// Identifier of the publication.
    pub id: String,
    /// Hash of the whole body.
    pub hash: String,
    /// Base name of the file, with its extension.
    pub name: String,
    /// Length of the body in bytes.
    pub length: u64,
    /// Addresses of the peers that seed the file.
    pub peers: Vec<String>,
    /// Length of every piece but possibly the last.
    pub piece_size: u64,
    /// Hash of every piece, in order.
    pub hashes: Vec<String>,
}

/// A manifest as plain mathematical values.
pub struct FileView {
    pub id: Seq<char>,
    pub hash: Seq<char>,
    pub name: Seq<char>,
    pub length: u64,
    pub peers: Seq<Seq<char>>,
    pub piece_size: u64,
    pub hashes: Seq<Seq<char>>,
}

impl View for File {
    type V = FileView;

    open spec fn view(&self) -> FileView {
        FileView {
            id: self.id@,
            hash: self.hash@,
            name: self.name@,
            length: self.length,
            peers: self.peers.deep_view(),
            piece_size: self.piece_size,
            hashes: self.hashes.deep_view(),
        }
    }
}

/// A copy of a list of texts.
pub fn clone_texts(texts: &Vec<String>) -> (res: Vec<String>)
    ensures
        res.deep_view() == texts.deep_view(),
{
    let mut res: Vec<String> = Vec::new();
    let mut i: usize = 0;
    while i < texts.len()
        invariant
            0 <= i <= texts.len(),
            res@.len() == i,
            forall|j: int| 0 <= j < i ==> res@[j]@ == texts@[j]@,
        decreases texts.len() - i,
    {
        res.push(texts[i].clone());
        i = i + 1;
    }
    proof {
        assert(res.deep_view() =~= texts.deep_view());
    }
    res
}

impl Clone for File {
    fn clone(&self) -> (res: Self)
        ensures
            res@ == self@,
    {
        File {
            id: self.id.clone(),
            hash: self.hash.clone(),
            name: self.name.clone(),
            length: self.length,
            peers: clone_texts(&self.peers),
            piece_size: self.piece_size,
            hashes: clone_texts(&self.hashes),
        }
    }
}

/// Whether two lists of texts hold the same texts in the same order.
pub fn texts_equal(a: &Vec<String>, b: &Vec<String>) -> (res: bool)
    ensures
        res == (a.deep_view() == b.deep_view()),
{
    if a.len() != b.len() {
        proof {
            assert(a.deep_view().len() == a@.len());
            assert(b.deep_view().len() == b@.len());
        }
        return false;
    }
    let mut i: usize = 0;
    while i < a.len()
        invariant
            0 <= i <= a@.len(),
            a@.len() == b@.len(),
            forall|j: int| 0 <= j < i ==> a@[j]@ == b@[j]@,
        decreases a@.len() - i,
    {
        let same = a[i] == b[i];
        if !same {
            proof {
                assert(a.deep_view()[i as int] == a@[i as int]@);
                assert(b.deep_view()[i as int] == b@[i as int]@);
            }
            return false;
        }
        i = i + 1;
    }
    proof {
        assert(a.deep_view() =~= b.deep_view());
    }
    true
}

} // verus!
