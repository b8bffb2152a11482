//! Validates a template against the legacy tag convention: exactly one
//! header tag and exactly one footer tag must be present.

use crate::text::{count_matches, match_count, str_chars};
use vstd::prelude::*;

verus! {

/// The verdict on a template text: valid exactly when it holds one header tag
/// and one footer tag, and otherwise the message naming the first rule broken,
/// in the order missing header, repeated header, missing footer, repeated
/// footer.
pub open spec fn spec_validate(t: Seq<char>) -> Result<(), Seq<char>> {
    let hc = match_count(t, "{{HEADER}}"@);
    let fc = match_count(t, "{{FOOTER}}"@);
    if hc == 0 {
        Err("Template is invalid: Missing {{HEADER}} tag."@)
    } else if hc > 1 {
        Err("Template is invalid: Multiple {{HEADER}} tags found."@)
    } else if fc == 0 {
        Err("Template is invalid: Missing {{FOOTER}} tag."@)
    } else if fc > 1 {
        Err("Template is invalid: Multiple {{FOOTER}} tags found."@)
    } else {
        Ok(())
    }
}

/// Checks that the template holds exactly one header tag and exactly one
/// footer tag, reporting the first rule broken otherwise.
pub fn validate(template_content: &str) -> (r: Result<(), String>)
    ensures
        (match r {
            Ok(_) => spec_validate(template_content@) is Ok,
            Err(e) => spec_validate(template_content@) == Err::<(), Seq<char>>(e@),
        }),
        r is Ok <==> (match_count(template_content@, "{{HEADER}}"@) == 1 && match_count(
            template_content@,
            "{{FOOTER}}"@,
        ) == 1),
{
    proof {
        reveal_strlit("{{HEADER}}");
        reveal_strlit("{{FOOTER}}");
    }
    let tv = str_chars(template_content);
    let header_tag = str_chars("{{HEADER}}");
    let footer_tag = str_chars("{{FOOTER}}");
    let header_count = count_matches(&tv, &header_tag);
    let footer_count = count_matches(&tv, &footer_tag);
    if header_count == 0 {
        Err("Template is invalid: Missing {{HEADER}} tag.".to_owned())
    } else if header_count > 1 {
        Err("Template is invalid: Multiple {{HEADER}} tags found.".to_owned())
    } else if footer_count == 0 {
        Err("Template is invalid: Missing {{FOOTER}} tag.".to_owned())
    } else if footer_count > 1 {
        Err("Template is invalid: Multiple {{FOOTER}} tags found.".to_owned())
    } else {
        Ok(())
    }
}

} // verus!
