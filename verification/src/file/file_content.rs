//! The content of one file together with the path it was read from.

use vstd::prelude::*;

verus! {

/// The content of a file along with its path.
#[derive(Debug)]
pub struct FileContent {
    /// The file path, as text.
    pub path: String,
    /// The contents of the file.
    pub content: String,
}

impl FileContent {
    /// A copy of this file content.
    pub fn duplicate(&self) -> (r: FileContent)
        ensures
            r.path@ == self.path@,
            r.content@ == self.content@,
    {
        FileContent { path: self.path.clone(), content: self.content.clone() }
    }
}

} // verus!
