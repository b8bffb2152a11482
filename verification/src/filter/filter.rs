//! Applies the line filters the command line asks for to file contents.

use crate::cli::Cli;
use crate::file::file_content::FileContent;
use crate::filter::remove_comments::remove_comments_from_file;
use vstd::prelude::*;

verus! {

/// Filters lines in a single file according to the command-line options; with
/// the comment filter a stub, the content always comes back unchanged.
pub fn filter_lines_in_single_file(file_content: FileContent, cli: &Cli) -> (r: FileContent)
    ensures
        r.path@ == file_content.path@,
        r.content@ == file_content.content@,
{
    if cli.no_comments {
        let copy = file_content.duplicate();
        let filtered_content = remove_comments_from_file(copy);
        FileContent { path: file_content.path, content: filtered_content }
    } else {
        file_content
    }
}

/// Filters lines in each of the provided files according to the command-line
/// options.
pub fn filter_lines_in_files(file_contents: &Vec<FileContent>, cli: &Cli) -> (r: Vec<FileContent>)
    ensures
        r@.len() == file_contents@.len(),
        forall|i: int|
            0 <= i < r@.len() ==> (#[trigger] r@[i]).path@ == file_contents@[i].path@
                && r@[i].content@ == file_contents@[i].content@,
{
    let mut out: Vec<FileContent> = Vec::new();
    let mut i: usize = 0;
    while i < file_contents.len()
        invariant
            i <= file_contents@.len(),
            out@.len() == i as int,
            forall|k: int|
                0 <= k < i ==> (#[trigger] out@[k]).path@ == file_contents@[k].path@
                    && out@[k].content@ == file_contents@[k].content@,
        decreases file_contents@.len() - i,
    {
        let copy = file_contents[i].duplicate();
        let filtered = filter_lines_in_single_file(copy, cli);
        out.push(filtered);
        i = i + 1;
    }
    out
}

} // verus!
