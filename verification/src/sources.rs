//! Where pictures come from.

use std::path::PathBuf;
use vstd::prelude::*;

verus! {

/// `std::path::PathBuf`: a path, handed on unread.
#[verifier::external_type_specification]
#[verifier::external_body]
pub struct ExPathBuf(PathBuf);

/// A picture file on disk.
pub struct FilenameSource {
    filename: PathBuf,
}

impl FilenameSource {
    /// The path of the file.
    pub closed spec fn path(&self) -> PathBuf {
        self.filename
    }

    /// A source that reads the file at `filename`.
    pub fn new(filename: PathBuf) -> (out: FilenameSource)
        ensures
            out.path() == filename,
    {
        FilenameSource { filename }
    }

    /// The path of the file.
    pub fn filename(&self) -> (out: &PathBuf)
        ensures
            *out == self.path(),
    {
        &self.filename
    }
}

} // verus!
