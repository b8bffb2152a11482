//! Replaces the total-file-size tag in a header or footer.

use crate::file::size::{human_readable_size, human_size_spec};
use crate::text::{contains_match, has_match, replace_chars, replaced, str_chars};
use vstd::prelude::*;

verus! {

/// `text` with every occurrence of the total-file-size tag replaced by the
/// human-readable total; unchanged when the tag does not occur or the total
/// is not known.
pub open spec fn spec_replace_total_file_size(text: Seq<char>, total: Option<u64>) -> Seq<char> {
    if has_match(text, "<total-file-size>"@) {
        match total {
            Some(t) => replaced(text, "<total-file-size>"@, human_size_spec(t as nat)),
            None => text,
        }
    } else {
        text
    }
}

/// Replaces the `<total-file-size>` tag in the given text with the total size
/// of the files in human-readable form; when the total is unavailable, or the
/// tag does not occur, the text is returned unchanged.
pub fn replace_total_file_size_tag(text: &str, total_size: Option<u64>) -> (r: String)
    ensures
        r@ == spec_replace_total_file_size(text@, total_size),
{
    proof {
        reveal_strlit("<total-file-size>");
    }
    let tv = str_chars(text);
    let tag = str_chars("<total-file-size>");
    if contains_match(&tv, &tag) {
        match total_size {
            Some(t) => {
                let readable = human_readable_size(t);
                let rv = str_chars(readable.as_str());
                let out = replace_chars(&tv, &tag, &rv);
                crate::text::chars_string(&out)
            },
            None => crate::text::chars_string(&tv),
        }
    } else {
        crate::text::chars_string(&tv)
    }
}

} // verus!
