//! A scratch directory whose deletion can be called off.

use vstd::prelude::*;

verus! {

/// A scratch directory that is removed at the end unless it is to be kept.
pub struct MaybeTempDir {
    path: String,
    keep: bool,
}

impl MaybeTempDir {
    pub closed spec fn path(&self) -> Seq<char> {
        self.path@
    }

    pub closed spec fn keep(&self) -> bool {
        self.keep
    }

    /// A directory, and whether it is to be kept.
    pub fn new(path: String, keep_on_drop: bool) -> (dir: MaybeTempDir)
        ensures
            dir.path() == path@,
            dir.keep() == keep_on_drop,
    {
        MaybeTempDir { path, keep: keep_on_drop }
    }

    /// Where the directory is.
    pub fn as_path(&self) -> (path: &str)
        ensures
            path@ == self.path(),
    {
        self.path.as_str()
    }

    /// The directory to remove now that it is no longer used, if it is not to be kept.
    pub fn into_removed(self) -> (path: Option<String>)
        ensures
            path is None == self.keep(),
            path matches Some(p) ==> p@ == self.path(),
    {
        if self.keep {
            None
        } else {
            Some(self.path)
        }
    }
}

} // verus!
