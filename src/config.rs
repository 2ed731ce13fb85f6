//! Which directory is served, and whether directories are listed.

use vstd::prelude::*;

verus! {

/// The served root: the given directory, or the working directory when none is given.
#[derive(Clone, Debug)]
pub struct DirectoryConfig {
    dir: Option<Vec<u8>>,
}

impl DirectoryConfig {
    /// The directory given on the command line, if any.
    pub closed spec fn dir_view(&self) -> Option<Seq<u8>> {
        match self.dir {
            Some(d) => Some(d@),
            None => None,
        }
    }

    pub fn new(dir: Option<Vec<u8>>) -> (r: Self)
        ensures
            r.dir_view() == (match dir {
                Some(d) => Some(d@),
                None => None,
            }),
    {
        DirectoryConfig { dir }
    }

    /// The directory to serve: the one given, else `.`.
    pub fn serve_dir(&self) -> (r: &[u8])
        ensures
            r@ == (match self.dir_view() {
                Some(d) => d,
                None => seq![46u8],
            }),
    {
        match &self.dir {
            Some(d) => d.as_slice(),
            None => &[46u8],
        }
    }

    /// Whether a directory request is answered with a listing: always.
    pub fn handle_directory(&self, _path: &[u8]) -> (r: bool)
        ensures
            r,
    {
        true
    }
}

} // verus!
