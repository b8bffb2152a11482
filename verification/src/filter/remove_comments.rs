//! Line filtering for comment removal; the filter itself is a stub that
//! leaves the content unchanged.

use crate::file::file_content::FileContent;
use vstd::prelude::*;

verus! {

/// Removes single-line comments from the file content (stub: returns the
/// content unchanged).
pub fn remove_comments_from_file(file_content: FileContent) -> (r: String)
    ensures
        r@ == file_content.content@,
{
    file_content.content
}

} // verus!
