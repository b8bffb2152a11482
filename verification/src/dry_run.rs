//! The dry run: lists the file paths that would be combined, without reading
//! any of them.

use crate::text::{joined_lines, string_views};
use crate::info::show_paths::spec_sort;
use vstd::prelude::*;

verus! {

/// Concatenates file paths for a dry run: one path per line, sorted.
pub fn concatenate_file_paths(file_paths: Vec<String>) -> (r: String)
    ensures
        r@ == joined_lines(spec_sort(string_views(file_paths@))),
{
    format_file_paths(file_paths)
}

/// Converts a list of file paths to one string: the paths sorted and joined
/// by newlines.
pub fn format_file_paths(file_paths: Vec<String>) -> (r: String)
    ensures
        r@ == joined_lines(spec_sort(string_views(file_paths@))),
{
    crate::info::show_paths::format_file_paths(file_paths)
}

} // verus!
