//! The template structure: a prompt section wrapping the whole output and a
//! part section wrapping each delivery part.

use vstd::prelude::*;

verus! {

/// The entire template: prompt fragments and part fragments.
#[derive(Debug)]
pub struct Template {
    pub prompt: PromptTemplate,
    pub part: PartTemplate,
}

/// The prompt section: global header, per-file template, global footer.
#[derive(Debug)]
pub struct PromptTemplate {
    pub header: String,
    pub file: String,
    pub footer: String,
}

/// The part section for multi-part outputs: part header, part footer and the
/// notice shown while parts are pending.
#[derive(Debug)]
pub struct PartTemplate {
    pub header: String,
    pub footer: String,
    pub pending: String,
}

impl Default for Template {
    /// A template whose sections are all empty.
    fn default() -> (r: Self)
        ensures
            r.prompt.header@ == Seq::<char>::empty(),
            r.prompt.file@ == Seq::<char>::empty(),
            r.prompt.footer@ == Seq::<char>::empty(),
            r.part.header@ == Seq::<char>::empty(),
            r.part.footer@ == Seq::<char>::empty(),
            r.part.pending@ == Seq::<char>::empty(),
    {
        Template { prompt: PromptTemplate::default(), part: PartTemplate::default() }
    }
}

impl Default for PromptTemplate {
    /// A prompt section whose fragments are all empty.
    fn default() -> (r: Self)
        ensures
            r.header@ == Seq::<char>::empty(),
            r.file@ == Seq::<char>::empty(),
            r.footer@ == Seq::<char>::empty(),
    {
        PromptTemplate { header: String::new(), footer: String::new(), file: String::new() }
    }
}

impl Default for PartTemplate {
    /// A part section whose fragments are all empty.
    fn default() -> (r: Self)
        ensures
            r.header@ == Seq::<char>::empty(),
            r.footer@ == Seq::<char>::empty(),
            r.pending@ == Seq::<char>::empty(),
    {
        PartTemplate { header: String::new(), pending: String::new(), footer: String::new() }
    }
}

} // verus!
