//! Substring containment filtering: whether a file's content holds any of the
//! requested texts.

use crate::text::{contains_match, has_match, str_chars};
use vstd::prelude::*;

verus! {

/// Whether the content holds at least one of the given texts; an empty text
/// is held by any content.
pub fn file_contains_text(content: &str, texts: &Vec<String>) -> (r: bool)
    ensures
        r == exists|i: int|
            0 <= i < texts@.len() && has_match(content@, (#[trigger] texts@[i])@),
{
    let cv = str_chars(content);
    let mut i: usize = 0;
    while i < texts.len()
        invariant
            i <= texts@.len(),
            cv@ == content@,
            forall|k: int| 0 <= k < i ==> !has_match(content@, (#[trigger] texts@[k])@),
        decreases texts@.len() - i,
    {
        let t = str_chars(texts[i].as_str());
        if t.len() == 0 {
            proof {
                assert(texts@[i as int]@.len() == 0);
                assert(crate::text::first_match(content@, texts@[i as int]@) == Some(0int));
                assert(has_match(content@, texts@[i as int]@));
            }
            return true;
        }
        if contains_match(&cv, &t) {
            proof {
                assert(has_match(content@, texts@[i as int]@));
            }
            return true;
        }
        proof {
            assert(!has_match(content@, texts@[i as int]@));
        }
        i = i + 1;
    }
    false
}

} // verus!
