//! What was found in a directory.

use crate::file_helpers::FilePath;
use vstd::prelude::*;

verus! {

/// One thing found in a directory, with what was read of it. A failure of the file system stands
/// where it was met, in its own words.
#[derive(Debug)]
pub enum Entry {
    /// Something of which the file system gave an error alone.
    Failed(String),
    /// A file, and its text or why that could not be read.
    File(FilePath, Result<String, String>),
    /// A directory, and its entries in the order in which they were listed or why they could not
    /// be.
    Dir(FilePath, Result<Vec<Entry>, String>),
    /// Something that is neither a file nor a directory, and what reading it as a file gave.
    Other(FilePath, Result<String, String>),
}

} // verus!
