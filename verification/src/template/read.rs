//! Parses a template from provided text, falling back to the default
//! template built into the library; reading template files from disk is the
//! caller's work.

use crate::template::parse::{parse_template, spec_parse_template, ParsedTemplate};
use crate::template::template::Template;
use crate::text::{chars_string, replace_chars, replaced, str_chars};
use vstd::prelude::*;

verus! {

/// The default template: a plain header and footer around each file's path
/// and content, and part wrappers that number the parts and announce how many
/// are still to come.
pub const DEFAULT_TEMPLATE: &'static str = "<template>\n  <prompt>\n    <header>Project files:</header>\n    <file>File: <file-path>\n<file-content></file>\n    <footer>End of project files.</footer>\n  </prompt>\n  <part>\n    <header>== Part <part-number> of <total-parts> ==</header>\n    <footer>== End of part <part-number> ==</footer>\n    <pending>Wait for <parts-remaining> more part(s) before replying.</pending>\n  </part>\n</template>\n";

/// The template text with Windows line endings normalized away.
pub open spec fn normalized(text: Seq<char>) -> Seq<char> {
    replaced(text, "\r\n"@, "\n"@)
}

/// Parses the given template text, or the default template when none is
/// given, after normalizing line endings.
pub fn read_and_parse_template(template_content: Option<String>) -> (r: Result<Template, String>)
    ensures
        ({
            let source = match template_content {
                Some(c) => c@,
                None => DEFAULT_TEMPLATE@,
            };
            match r {
                Ok(t) => {
                    &&& spec_parse_template(normalized(source)) is Ok
                    &&& t.prompt.header@ == spec_parse_template(normalized(source))->Ok_0.prompt_header
                    &&& t.prompt.file@ == spec_parse_template(normalized(source))->Ok_0.prompt_file
                    &&& t.prompt.footer@ == spec_parse_template(normalized(source))->Ok_0.prompt_footer
                    &&& t.part.header@ == spec_parse_template(normalized(source))->Ok_0.part_header
                    &&& t.part.footer@ == spec_parse_template(normalized(source))->Ok_0.part_footer
                    &&& t.part.pending@ == spec_parse_template(normalized(source))->Ok_0.part_pending
                },
                Err(e) => spec_parse_template(normalized(source)) == Err::<
                    ParsedTemplate,
                    Seq<char>,
                >(e@),
            }
        }),
{
    proof {
        reveal_strlit("\r\n");
    }
    let content: String = match template_content {
        Some(c) => c,
        None => DEFAULT_TEMPLATE.to_owned(),
    };
    let cv = str_chars(content.as_str());
    let crlf = str_chars("\r\n");
    let lf = str_chars("\n");
    let nv = replace_chars(&cv, &crlf, &lf);
    let normalized_content = chars_string(&nv);
    parse_template(normalized_content.as_str())
}

} // verus!
