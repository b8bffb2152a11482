//! Parses a template file into its prompt and part sections: each section is
//! the text between the first opening and the last closing occurrence of its
//! tag, with the common leading indentation removed.

use crate::template::template::{PartTemplate, PromptTemplate, Template};
use crate::text::{
    append_chars, chars_string, charvec_views, first_match, joined_lines, last_match,
    lemma_first_match_bounds, lemma_joined_snoc, lemma_last_match_bounds, nl_split, split_all,
    str_chars, subvec,
};
use vstd::prelude::*;

verus! {

/// A whitespace character, as indentation trimming counts them.
pub open spec fn ws_char(c: char) -> bool {
    c == ' ' || c == '\t' || c == '\r' || c == '\u{b}' || c == '\u{c}'
}

/// The number of leading whitespace characters of a line.
pub open spec fn lead_ws(line: Seq<char>) -> nat
    decreases line.len(),
{
    if line.len() == 0 {
        0
    } else if !ws_char(line[0]) {
        0
    } else {
        1 + lead_ws(line.skip(1))
    }
}

/// A line holding nothing but whitespace.
pub open spec fn blank_line(line: Seq<char>) -> bool {
    lead_ws(line) == line.len()
}

/// The least leading-whitespace count among the non-blank lines, if any line
/// is non-blank.
pub open spec fn min_indent_opt(lines: Seq<Seq<char>>) -> Option<nat>
    decreases lines.len(),
{
    if lines.len() == 0 {
        None
    } else {
        let rest = min_indent_opt(lines.skip(1));
        if blank_line(lines[0]) {
            rest
        } else {
            match rest {
                None => Some(lead_ws(lines[0])),
                Some(m) => if lead_ws(lines[0]) <= m {
                    Some(lead_ws(lines[0]))
                } else {
                    Some(m)
                },
            }
        }
    }
}

/// One line with the common indentation removed: a line long enough loses its
/// first `m` characters; a shorter blank line becomes empty; a shorter
/// non-blank line is kept whole.
pub open spec fn trim_line(line: Seq<char>, m: nat) -> Seq<char> {
    if line.len() >= m {
        line.skip(m as int)
    } else if blank_line(line) {
        Seq::empty()
    } else {
        line
    }
}

/// The text with the common leading whitespace removed from every line.
pub open spec fn spec_trim_indentation(content: Seq<char>) -> Seq<char> {
    let lines = nl_split(content);
    let m: nat = match min_indent_opt(lines) {
        None => 0,
        Some(m) => m,
    };
    joined_lines(lines.map(|i: int, l: Seq<char>| trim_line(l, m)))
}

/// The opening form of a tag.
pub open spec fn tag_open(tag: Seq<char>) -> Seq<char> {
    seq!['<'] + tag + seq!['>']
}

/// The closing form of a tag.
pub open spec fn tag_close(tag: Seq<char>) -> Seq<char> {
    seq!['<', '/'] + tag + seq!['>']
}

/// The message reported when a tag's opening form is missing.
pub open spec fn msg_opening_missing(tag: Seq<char>) -> Seq<char> {
    "Opening tag "@ + tag_open(tag) + " not found in the provided text."@
}

/// The message reported when a tag's closing form is missing.
pub open spec fn msg_closing_missing(tag: Seq<char>) -> Seq<char> {
    "Closing tag "@ + tag_close(tag) + " not found in the provided text."@
}

/// The message reported when the last closing form stands before the end of
/// the first opening form.
pub open spec fn msg_closing_before_opening(tag: Seq<char>) -> Seq<char> {
    "Closing tag "@ + tag_close(tag) + " found before opening tag "@ + tag_open(tag) + "."@
}

/// The text between the first opening and the last closing occurrence of the
/// tag, trimmed of common indentation; or the error naming what was missing.
pub open spec fn spec_text_inside_tag(text: Seq<char>, tag: Seq<char>) -> Result<
    Seq<char>,
    Seq<char>,
> {
    let open = tag_open(tag);
    let close = tag_close(tag);
    match first_match(text, open) {
        None => Err(msg_opening_missing(tag)),
        Some(s) => match last_match(text, close) {
            None => Err(msg_closing_missing(tag)),
            Some(e) => if e < s + open.len() {
                Err(msg_closing_before_opening(tag))
            } else {
                Ok(spec_trim_indentation(text.subrange(s + open.len(), e)))
            },
        },
    }
}

/// The three fragments of the prompt section, in tag order.
pub open spec fn spec_parse_prompt(pc: Seq<char>) -> Result<
    (Seq<char>, Seq<char>, Seq<char>),
    Seq<char>,
> {
    match spec_text_inside_tag(pc, "header"@) {
        Err(e) => Err(e),
        Ok(h) => match spec_text_inside_tag(pc, "file"@) {
            Err(e) => Err(e),
            Ok(fi) => match spec_text_inside_tag(pc, "footer"@) {
                Err(e) => Err(e),
                Ok(f) => Ok((h, fi, f)),
            },
        },
    }
}

/// The three fragments of the part section, in tag order.
pub open spec fn spec_parse_part(pc: Seq<char>) -> Result<
    (Seq<char>, Seq<char>, Seq<char>),
    Seq<char>,
> {
    match spec_text_inside_tag(pc, "header"@) {
        Err(e) => Err(e),
        Ok(h) => match spec_text_inside_tag(pc, "footer"@) {
            Err(e) => Err(e),
            Ok(f) => match spec_text_inside_tag(pc, "pending"@) {
                Err(e) => Err(e),
                Ok(p) => Ok((h, f, p)),
            },
        },
    }
}

/// The six template fragments as parsing yields them.
pub struct ParsedTemplate {
    pub prompt_header: Seq<char>,
    pub prompt_file: Seq<char>,
    pub prompt_footer: Seq<char>,
    pub part_header: Seq<char>,
    pub part_footer: Seq<char>,
    pub part_pending: Seq<char>,
}

/// The whole template parsed: the template section is extracted first, then
/// the prompt and part sections within it, then their fragments.
pub open spec fn spec_parse_template(text: Seq<char>) -> Result<ParsedTemplate, Seq<char>> {
    match spec_text_inside_tag(text, "template"@) {
        Err(e) => Err(e),
        Ok(tc) => match spec_text_inside_tag(tc, "prompt"@) {
            Err(e) => Err(e),
            Ok(pc) => match spec_text_inside_tag(tc, "part"@) {
                Err(e) => Err(e),
                Ok(partc) => match spec_parse_prompt(pc) {
                    Err(e) => Err(e),
                    Ok(p) => match spec_parse_part(partc) {
                        Err(e) => Err(e),
                        Ok(q) => Ok(
                            ParsedTemplate {
                                prompt_header: p.0,
                                prompt_file: p.1,
                                prompt_footer: p.2,
                                part_header: q.0,
                                part_footer: q.1,
                                part_pending: q.2,
                            },
                        ),
                    },
                },
            },
        },
    }
}

/// Whether `c` counts as whitespace for indentation trimming.
fn ws_check(c: char) -> (r: bool)
    ensures
        r == ws_char(c),
{
    c == ' ' || c == '\t' || c == '\r' || c == '\u{b}' || c == '\u{c}'
}

/// The number of leading whitespace characters of a line.
fn lead_ws_count(line: &Vec<char>) -> (r: usize)
    ensures
        r as nat == lead_ws(line@),
{
    let n: usize = line.len();
    let mut i: usize = 0;
    proof {
        assert(line@.skip(0) =~= line@);
    }
    while i < n && ws_check(line[i])
        invariant
            i <= n,
            n == line@.len(),
            lead_ws(line@) == i + lead_ws(line@.skip(i as int)),
            forall|k: int| 0 <= k < i ==> ws_char(line@[k]),
        decreases n - i,
    {
        proof {
            assert(line@.skip(i as int)[0] == line@[i as int]);
            assert(line@.skip(i as int).skip(1) =~= line@.skip(i + 1));
        }
        i = i + 1;
    }
    proof {
        if i < n {
            assert(line@.skip(i as int)[0] == line@[i as int]);
            assert(lead_ws(line@.skip(i as int)) == 0);
        } else {
            assert(line@.skip(i as int).len() == 0);
        }
    }
    i
}

/// Removes the common leading whitespace of the non-blank lines from every
/// line; a blank line shorter than that indentation becomes empty, and a
/// non-blank line shorter than it is kept whole.
pub fn trim_indentation(content: &str) -> (r: String)
    ensures
        r@ == spec_trim_indentation(content@),
{
    let cv = str_chars(content);
    let tv = trim_indentation_chars(&cv);
    chars_string(&tv)
}

/// The character-level body of indentation trimming.
fn trim_indentation_chars(content: &Vec<char>) -> (r: Vec<char>)
    ensures
        r@ == spec_trim_indentation(content@),
{
    let lines = split_all(content);
    let ghost lv = nl_split(content@);
    let n: usize = lines.len();
    proof {
        assert(charvec_views(lines@) == lv);
        assert(n == lv.len());
    }
    let mut have: bool = false;
    let mut m: usize = 0;
    let mut i: usize = n;
    proof {
        assert(lv.skip(n as int).len() == 0);
        assert(lv.skip(n as int) =~= Seq::<Seq<char>>::empty());
    }
    while i > 0
        invariant
            i <= n,
            n == lv.len(),
            lv == charvec_views(lines@),
            min_indent_opt(lv.skip(i as int)) == (if have {
                Some(m as nat)
            } else {
                None::<nat>
            }),
        decreases i,
    {
        i = i - 1;
        proof {
            assert(lv.skip(i as int)[0] == lines@[i as int]@);
            assert(lv.skip(i as int).skip(1) =~= lv.skip(i + 1));
        }
        let lw = lead_ws_count(&lines[i]);
        let is_blank = lw == lines[i].len();
        if !is_blank {
            if !have {
                have = true;
                m = lw;
            } else if lw <= m {
                m = lw;
            }
        }
    }
    proof {
        assert(lv.skip(0) =~= lv);
    }
    let mm: usize = if have {
        m
    } else {
        0
    };
    let ghost mapped = lv.map(|j: int, l: Seq<char>| trim_line(l, mm as nat));
    let mut out: Vec<char> = Vec::new();
    let mut t: usize = 0;
    proof {
        assert(mapped.take(0) =~= Seq::<Seq<char>>::empty());
        assert(out@ =~= joined_lines(mapped.take(0)));
    }
    while t < n
        invariant
            t <= n,
            n == lv.len(),
            lv == charvec_views(lines@),
            mapped == lv.map(|j: int, l: Seq<char>| trim_line(l, mm as nat)),
            mapped.len() == n,
            out@ == joined_lines(mapped.take(t as int)),
        decreases n - t,
    {
        proof {
            lemma_joined_snoc(mapped.take(t as int), mapped[t as int]);
            assert(mapped.take(t as int).push(mapped[t as int]) =~= mapped.take(t + 1));
            assert(mapped[t as int] == trim_line(lines@[t as int]@, mm as nat));
        }
        if t > 0 {
            out.push('\n');
        }
        let line = &lines[t];
        if line.len() >= mm {
            let piece = subvec(line, mm, line.len());
            proof {
                assert(piece@ =~= line@.skip(mm as int));
            }
            append_chars(&mut out, &piece);
        } else {
            let lw = lead_ws_count(line);
            if lw == line.len() {
            } else {
                let piece = subvec(line, 0, line.len());
                proof {
                    assert(piece@ =~= line@);
                }
                append_chars(&mut out, &piece);
            }
        }
        t = t + 1;
    }
    proof {
        assert(mapped.take(n as int) =~= mapped);
    }
    out
}

/// Extracts the content enclosed between the first opening and the last
/// closing occurrence of the tag, trimmed of common indentation; reports
/// which form was missing otherwise.
pub fn text_inside_tag(text: &str, tag: &str) -> (r: Result<String, String>)
    ensures
        (match r {
            Ok(v) => spec_text_inside_tag(text@, tag@) == Ok::<Seq<char>, Seq<char>>(v@),
            Err(e) => spec_text_inside_tag(text@, tag@) == Err::<Seq<char>, Seq<char>>(e@),
        }),
{
    let tv = str_chars(text);
    let tagv = str_chars(tag);
    let mut opening: Vec<char> = Vec::new();
    opening.push('<');
    append_chars(&mut opening, &tagv);
    opening.push('>');
    let mut closing: Vec<char> = Vec::new();
    closing.push('<');
    closing.push('/');
    append_chars(&mut closing, &tagv);
    closing.push('>');
    proof {
        assert(opening@ =~= tag_open(tag@));
        assert(closing@ =~= tag_close(tag@));
    }
    let start = match find_match_pub(&tv, &opening) {
        None => {
            let mut msg = str_chars("Opening tag ");
            append_chars(&mut msg, &opening);
            let tail = str_chars(" not found in the provided text.");
            append_chars(&mut msg, &tail);
            proof {
                assert(msg@ =~= msg_opening_missing(tag@));
            }
            return Err(chars_string(&msg));
        },
        Some(s) => s,
    };
    let end = match rfind_match_pub(&tv, &closing) {
        None => {
            let mut msg = str_chars("Closing tag ");
            append_chars(&mut msg, &closing);
            let tail = str_chars(" not found in the provided text.");
            append_chars(&mut msg, &tail);
            proof {
                assert(msg@ =~= msg_closing_missing(tag@));
            }
            return Err(chars_string(&msg));
        },
        Some(e) => e,
    };
    let text_len = tv.len();
    proof {
        lemma_first_match_bounds(tv@, opening@);
        lemma_last_match_bounds(tv@, closing@);
        assert(start + opening@.len() <= text_len);
    }
    if end < start + opening.len() {
        let mut msg = str_chars("Closing tag ");
        append_chars(&mut msg, &closing);
        let mid = str_chars(" found before opening tag ");
        append_chars(&mut msg, &mid);
        append_chars(&mut msg, &opening);
        let dot = str_chars(".");
        append_chars(&mut msg, &dot);
        proof {
            assert(msg@ =~= msg_closing_before_opening(tag@));
        }
        return Err(chars_string(&msg));
    }
    let content = subvec(&tv, start + opening.len(), end);
    let trimmed = trim_indentation_chars(&content);
    Ok(chars_string(&trimmed))
}

/// The position of the first occurrence of `pat` in `s`, if any.
fn find_match_pub(s: &Vec<char>, pat: &Vec<char>) -> (r: Option<usize>)
    requires
        pat@.len() > 0,
    ensures
        (match r {
            None => first_match(s@, pat@) is None,
            Some(i) => first_match(s@, pat@) == Some(i as int),
        }),
{
    crate::text::find_match(s, pat)
}

/// The position of the last occurrence of `pat` in `s`, if any.
fn rfind_match_pub(s: &Vec<char>, pat: &Vec<char>) -> (r: Option<usize>)
    requires
        pat@.len() > 0,
    ensures
        (match r {
            None => last_match(s@, pat@) is None,
            Some(i) => last_match(s@, pat@) == Some(i as int),
        }),
{
    crate::text::rfind_match(s, pat)
}

/// Parses the part section: its header, footer and pending fragments.
fn parse_part_section(part_content: &str) -> (r: Result<PartTemplate, String>)
    ensures
        (match r {
            Ok(t) => spec_parse_part(part_content@) == Ok::<(Seq<char>, Seq<char>, Seq<char>), Seq<char>>(
                (t.header@, t.footer@, t.pending@),
            ),
            Err(e) => spec_parse_part(part_content@) == Err::<(Seq<char>, Seq<char>, Seq<char>), Seq<char>>(
                e@,
            ),
        }),
{
    let header = match text_inside_tag(part_content, "header") {
        Ok(v) => v,
        Err(e) => {
            return Err(e);
        },
    };
    let footer = match text_inside_tag(part_content, "footer") {
        Ok(v) => v,
        Err(e) => {
            return Err(e);
        },
    };
    let pending = match text_inside_tag(part_content, "pending") {
        Ok(v) => v,
        Err(e) => {
            return Err(e);
        },
    };
    Ok(PartTemplate { header, footer, pending })
}

/// Parses the prompt section: its header, file and footer fragments.
fn parse_prompt_section(prompt_content: &str) -> (r: Result<PromptTemplate, String>)
    ensures
        (match r {
            Ok(t) => spec_parse_prompt(prompt_content@) == Ok::<
                (Seq<char>, Seq<char>, Seq<char>),
                Seq<char>,
            >((t.header@, t.file@, t.footer@)),
            Err(e) => spec_parse_prompt(prompt_content@) == Err::<
                (Seq<char>, Seq<char>, Seq<char>),
                Seq<char>,
            >(e@),
        }),
{
    let header = match text_inside_tag(prompt_content, "header") {
        Ok(v) => v,
        Err(e) => {
            return Err(e);
        },
    };
    let file = match text_inside_tag(prompt_content, "file") {
        Ok(v) => v,
        Err(e) => {
            return Err(e);
        },
    };
    let footer = match text_inside_tag(prompt_content, "footer") {
        Ok(v) => v,
        Err(e) => {
            return Err(e);
        },
    };
    Ok(PromptTemplate { header, file, footer })
}

/// Parses the entire template text into its prompt and part sections.
pub fn parse_template(text: &str) -> (r: Result<Template, String>)
    ensures
        (match r {
            Ok(t) => {
                &&& spec_parse_template(text@) is Ok
                &&& t.prompt.header@ == spec_parse_template(text@)->Ok_0.prompt_header
                &&& t.prompt.file@ == spec_parse_template(text@)->Ok_0.prompt_file
                &&& t.prompt.footer@ == spec_parse_template(text@)->Ok_0.prompt_footer
                &&& t.part.header@ == spec_parse_template(text@)->Ok_0.part_header
                &&& t.part.footer@ == spec_parse_template(text@)->Ok_0.part_footer
                &&& t.part.pending@ == spec_parse_template(text@)->Ok_0.part_pending
            },
            Err(e) => spec_parse_template(text@) == Err::<ParsedTemplate, Seq<char>>(e@),
        }),
{
    let template_content = match text_inside_tag(text, "template") {
        Ok(v) => v,
        Err(e) => {
            return Err(e);
        },
    };
    let prompt_content = match text_inside_tag(template_content.as_str(), "prompt") {
        Ok(v) => v,
        Err(e) => {
            return Err(e);
        },
    };
    let part_content = match text_inside_tag(template_content.as_str(), "part") {
        Ok(v) => v,
        Err(e) => {
            return Err(e);
        },
    };
    let prompt = match parse_prompt_section(prompt_content.as_str()) {
        Ok(v) => v,
        Err(e) => {
            return Err(e);
        },
    };
    let part = match parse_part_section(part_content.as_str()) {
        Ok(v) => v,
        Err(e) => {
            return Err(e);
        },
    };
    Ok(Template { prompt, part })
}

} // verus!
