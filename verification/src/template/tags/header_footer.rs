//! Resolves every tag a header or footer may carry: the file-path listing,
//! the ASCII tree, and the total file size.

use crate::template::tags::all_file_paths::{
    replace_all_file_paths_tag, spec_replace_all_file_paths,
};
use crate::template::tags::total_file_size::{
    replace_total_file_size_tag, spec_replace_total_file_size,
};
use crate::template::tags::tree::{replace_tree_tag, tree_tag_text};
use crate::text::{has_match, replaced, string_views};
use vstd::prelude::*;

verus! {

/// The header or footer after all three tag replacements: the file listing,
/// then the tree of the paths under the root, then the total size.
pub open spec fn spec_processed(
    text: Seq<char>,
    paths: Seq<Seq<char>>,
    root: Seq<char>,
    total: Option<u64>,
) -> Seq<char> {
    let a = spec_replace_all_file_paths(text, paths);
    let b = if has_match(a, "{{TREE}}"@) {
        replaced(a, "{{TREE}}"@, tree_tag_text(paths, root))
    } else {
        a
    };
    spec_replace_total_file_size(b, total)
}

/// Replaces the file-path listing, tree and total-size tags in a header or
/// footer with their values.
pub fn process_header_footer(
    text: &str,
    file_paths: &Vec<String>,
    root: &String,
    total_size: Option<u64>,
) -> (r: String)
    ensures
        r@ == spec_processed(text@, string_views(file_paths@), root@, total_size),
{
    let paths_copy = crate::text::clone_strings(file_paths);
    let paths_copy2 = crate::text::clone_strings(file_paths);
    let a = replace_all_file_paths_tag(text, paths_copy);
    let b = replace_tree_tag(a.as_str(), paths_copy2, root.clone());
    let c = replace_total_file_size_tag(b.as_str(), total_size);
    c
}

} // verus!
