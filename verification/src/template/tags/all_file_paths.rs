//! Replaces the tag listing all file paths in a header or footer.

use crate::info::show_paths::{format_file_paths, spec_sort};
use crate::text::{
    contains_match, has_match, joined_lines, replace_chars, replaced, str_chars, string_views,
};
use vstd::prelude::*;

verus! {

/// `text` with every occurrence of the all-file-paths tag replaced by the
/// sorted, newline-joined paths; unchanged when the tag does not occur.
pub open spec fn spec_replace_all_file_paths(text: Seq<char>, paths: Seq<Seq<char>>) -> Seq<
    char,
> {
    if has_match(text, "<all-file-paths>"@) {
        replaced(text, "<all-file-paths>"@, joined_lines(spec_sort(paths)))
    } else {
        text
    }
}

/// Replaces the `<all-file-paths>` tag in the given text with the sorted file
/// paths, one per line; text without the tag is returned unchanged.
pub fn replace_all_file_paths_tag(text: &str, file_paths: Vec<String>) -> (r: String)
    ensures
        r@ == spec_replace_all_file_paths(text@, string_views(file_paths@)),
{
    proof {
        reveal_strlit("<all-file-paths>");
    }
    let tv = str_chars(text);
    let tag = str_chars("<all-file-paths>");
    if contains_match(&tv, &tag) {
        let formatted = format_file_paths(file_paths);
        let fv = str_chars(formatted.as_str());
        let out = replace_chars(&tv, &tag, &fv);
        crate::text::chars_string(&out)
    } else {
        crate::text::chars_string(&tv)
    }
}

} // verus!
