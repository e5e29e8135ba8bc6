//! Where a peer keeps its files.

use vstd::prelude::*;
use vstd::string::StringExecFns;
use crate::text::join;
use crate::values::DEFAULT_RFS_DIR;

verus! {

/// The directories of a peer.
#[derive(Debug)]
pub struct FSConfig {
    /// The user's home directory.
    pub home_dir: String,
    /// The peer's own directory, below the home directory.
    pub rfs_dir: String,
    /// Manifests, one file each.
    pub metafiles_dir: String,
    /// Pieces that have arrived and wait to be assembled.
    pub file_parts_dir: String,
    /// Bodies of seeded and of assembled files.
    pub files_dir: String,
}

/// An `FSConfig` as plain mathematical values.
pub struct FSConfigView {
    pub home_dir: Seq<char>,
    pub rfs_dir: Seq<char>,
    pub metafiles_dir: Seq<char>,
    pub file_parts_dir: Seq<char>,
    pub files_dir: Seq<char>,
}

impl View for FSConfig {
    type V = FSConfigView;

    open spec fn view(&self) -> FSConfigView {
        FSConfigView {
            home_dir: self.home_dir@,
            rfs_dir: self.rfs_dir@,
            metafiles_dir: self.metafiles_dir@,
            file_parts_dir: self.file_parts_dir@,
            files_dir: self.files_dir@,
        }
    }
}

impl Clone for FSConfig {
    fn clone(&self) -> (res: Self)
        ensures
            res@ == self@,
    {
        FSConfig {
            home_dir: self.home_dir.clone(),
            rfs_dir: self.rfs_dir.clone(),
            metafiles_dir: self.metafiles_dir.clone(),
            file_parts_dir: self.file_parts_dir.clone(),
            files_dir: self.files_dir.clone(),
        }
    }
}

impl Default for FSConfig {
    fn default() -> (res: Self)
        ensures
            res@.home_dir.len() == 0,
            res@.rfs_dir.len() == 0,
            res@.metafiles_dir.len() == 0,
            res@.file_parts_dir.len() == 0,
            res@.files_dir.len() == 0,
    {
        FSConfig {
            home_dir: String::new(),
            rfs_dir: String::new(),
            metafiles_dir: String::new(),
            file_parts_dir: String::new(),
            files_dir: String::new(),
        }
    }
}

/// The layout below `home_dir` for a peer directory named `rfs_dir`.
pub open spec fn layout(home_dir: Seq<char>, rfs_dir: Seq<char>) -> FSConfigView {
    let root = home_dir + "/"@ + rfs_dir;
    FSConfigView {
        home_dir,
        rfs_dir: root,
        metafiles_dir: root + "/metafiles"@,
        file_parts_dir: root + "/file_parts"@,
        files_dir: root + "/files"@,
    }
}

impl FSConfig {
    /// The directories of a peer whose directory is `rfs_dir`, or the default
    /// one where none is given, below the home directory `home_dir`.
    pub fn new(rfs_dir: Option<String>, home_dir: String) -> (res: Self)
        ensures
            res@ == layout(
                home_dir@,
                match rfs_dir {
                    Some(dir) => dir@,
                    None => DEFAULT_RFS_DIR@,
                },
            ),
    {
        let mut root = join(home_dir.as_str(), "/");
        match &rfs_dir {
            Some(dir) => {
                root.append(dir.as_str());
            },
            None => {
                root.append(DEFAULT_RFS_DIR);
            },
        }
        let metafiles_dir = join(root.as_str(), "/metafiles");
        let file_parts_dir = join(root.as_str(), "/file_parts");
        let files_dir = join(root.as_str(), "/files");
        FSConfig { home_dir, rfs_dir: root, metafiles_dir, file_parts_dir, files_dir }
    }
}

} // verus!
