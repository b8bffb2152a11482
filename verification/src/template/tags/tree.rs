//! Replaces the tree tag in a header or footer with the ASCII file tree.

use crate::text::{contains_match, has_match, replace_chars, replaced, str_chars, string_views};
use crate::tree::{file_paths_to_tree, spec_build, spec_render_from};
use vstd::prelude::*;

verus! {

/// The text the tree tag is replaced by: the rendered tree of the paths under
/// the root, with its trailing newline stripped.
pub open spec fn tree_tag_text(paths: Seq<Seq<char>>, root: Seq<char>) -> Seq<char> {
    let t = spec_render_from(spec_build(paths, Some(root)), 0, Seq::empty(), true);
    if t.len() > 0 && t.last() == '\n' {
        t.drop_last()
    } else {
        t
    }
}

/// Replaces the `{{TREE}}` tag in the given text with the ASCII tree of the
/// file paths under the given root; text without the tag is unchanged.
pub fn replace_tree_tag(text: &str, file_paths: Vec<String>, root: String) -> (r: String)
    ensures
        !has_match(text@, "{{TREE}}"@) ==> r@ == text@,
        has_match(text@, "{{TREE}}"@) ==> r@ == replaced(
            text@,
            "{{TREE}}"@,
            tree_tag_text(string_views(file_paths@), root@),
        ),
{
    proof {
        reveal_strlit("{{TREE}}");
    }
    let ghost pv = string_views(file_paths@);
    let ghost rootv = root@;
    let tv = str_chars(text);
    let tag = str_chars("{{TREE}}");
    if contains_match(&tv, &tag) {
        let tree = file_paths_to_tree(file_paths, Some(root));
        let mut trv = str_chars(tree.as_str());
        if trv.len() > 0 && trv[trv.len() - 1] == '\n' {
            let shorter = crate::text::subvec(&trv, 0, trv.len() - 1);
            proof {
                assert(shorter@ =~= trv@.drop_last());
            }
            trv = shorter;
        }
        proof {
            assert(trv@ == tree_tag_text(pv, rootv));
        }
        let out = replace_chars(&tv, &tag, &trv);
        crate::text::chars_string(&out)
    } else {
        crate::text::chars_string(&tv)
    }
}

} // verus!
