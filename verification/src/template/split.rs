//! The content-partitioning engine: decides whether the output fits in one
//! part and, when it does not, distributes the rendered file blocks across a
//! sequence of parts under a character budget, splitting oversized blocks at
//! line boundaries and stamping each part with its position metadata.

use crate::template::template::PartTemplate;
use crate::text::{
    append_chars, charvec_views, chars_string, dec_digits, digit_char, joined_lines,
    lemma_joined_snoc, lines_of, replace_chars, replaced, str_chars, string_views, text_lines,
};
use vstd::prelude::*;
use vstd::string::StrSliceExecFns;

verus! {

/// The `part-number` placeholder.
pub open spec fn ph_number() -> Seq<char> {
    "<part-number>"@
}

/// The `total-parts` placeholder.
pub open spec fn ph_total() -> Seq<char> {
    "<total-parts>"@
}

/// The `parts-remaining` placeholder.
pub open spec fn ph_remaining() -> Seq<char> {
    "<parts-remaining>"@
}

/// A template fragment with every placeholder replaced by the three-digit
/// sentinel used to estimate wrapper overhead before the part count is known.
pub open spec fn sentinel_rendered(t: Seq<char>) -> Seq<char> {
    replaced(replaced(replaced(t, ph_number(), "999"@), ph_total(), "999"@), ph_remaining(), "999"@)
}

/// The character overhead one part's wrapper text contributes: the sentinel
/// rendering of the part header and footer, the pending notice when present,
/// and one newline after each fragment taken.
pub open spec fn spec_overhead(pt: PartTemplate) -> nat {
    sentinel_rendered(pt.header@).len() + 1 + sentinel_rendered(pt.footer@).len() + 1 + (
    if pt.pending@.len() > 0 {
        sentinel_rendered(pt.pending@).len() + 1
    } else {
        0
    })
}

/// A template fragment with the position placeholders replaced by the actual
/// part number, total part count, and parts remaining (saturating at zero).
pub open spec fn rendered(t: Seq<char>, num: nat, total: nat) -> Seq<char> {
    let rem: nat = if total >= num {
        (total - num) as nat
    } else {
        0
    };
    replaced(
        replaced(replaced(t, ph_number(), dec_digits(num)), ph_total(), dec_digits(total)),
        ph_remaining(),
        dec_digits(rem),
    )
}

/// The summed weight of the blocks: each block's length plus one for the
/// newline that follows it.
pub open spec fn files_weight(files: Seq<Seq<char>>) -> nat
    decreases files.len(),
{
    if files.len() == 0 {
        0
    } else {
        files[0].len() + 1 + files_weight(files.skip(1))
    }
}

/// The size of the whole output when rendered as a single part.
pub open spec fn single_part_total(h: Seq<char>, files: Seq<Seq<char>>, f: Seq<char>) -> nat {
    files_weight(files) + (if h.len() > 0 {
        h.len() + 1
    } else {
        0
    }) + f.len()
}

/// Whether the whole output fits within the budget as a single part.
pub open spec fn spec_fits_single(
    h: Seq<char>,
    files: Seq<Seq<char>>,
    f: Seq<char>,
    max: nat,
) -> bool {
    single_part_total(h, files, f) <= max
}

/// Each block followed by a newline, concatenated.
pub open spec fn files_concat(files: Seq<Seq<char>>) -> Seq<char>
    decreases files.len(),
{
    if files.len() == 0 {
        Seq::empty()
    } else {
        files[0].push('\n') + files_concat(files.skip(1))
    }
}

/// The single part produced on the fast path: header, blocks, footer, with no
/// wrapper text at all.
pub open spec fn spec_single_part(h: Seq<char>, files: Seq<Seq<char>>, f: Seq<char>) -> Seq<char> {
    (if h.len() > 0 {
        h.push('\n')
    } else {
        Seq::empty()
    }) + files_concat(files) + f
}

/// How many leading lines the greedy chunker takes within `budget`, counting
/// each line's length plus one for its newline.
pub open spec fn run_len(ls: Seq<Seq<char>>, budget: int) -> nat
    decreases ls.len(),
{
    if ls.len() == 0 {
        0
    } else if ls[0].len() + 1 > budget {
        0
    } else {
        1 + run_len(ls.skip(1), budget - (ls[0].len() + 1))
    }
}

/// The lines grouped greedily into runs of weight at most `max`, a run never
/// being empty: a line too long for any budget still makes a run of its own.
pub open spec fn line_runs(ls: Seq<Seq<char>>, max: nat) -> Seq<Seq<Seq<char>>>
    decreases ls.len(),
{
    if ls.len() == 0 {
        Seq::empty()
    } else {
        let k0 = run_len(ls, max as int);
        let k: nat = if k0 < 1 {
            1
        } else if k0 > ls.len() {
            ls.len()
        } else {
            k0
        };
        seq![ls.take(k as int)] + line_runs(ls.skip(k as int), max)
    }
}

/// An oversized block divided at line boundaries into chunks of weight at
/// most `budget`, lines longer than the budget standing alone.
pub open spec fn chunks_of_block(b: Seq<char>, budget: nat) -> Seq<Seq<char>> {
    line_runs(text_lines(b), budget).map(|i: int, run: Seq<Seq<char>>| joined_lines(run))
}

/// The planner's running state: closed parts, the part being filled, and the
/// character weight of the part being filled.
pub struct PlanState {
    pub parts: Seq<Seq<Seq<char>>>,
    pub cur: Seq<Seq<char>>,
    pub size: nat,
}

/// The planner state assembled from its three components.
pub open spec fn st_of(parts: Seq<Seq<Seq<char>>>, cur: Seq<Seq<char>>, size: nat) -> PlanState {
    PlanState { parts, cur, size }
}

/// Closes the current part if it holds anything.
pub open spec fn flush_if_nonempty(st: PlanState) -> PlanState {
    if st.cur.len() > 0 {
        PlanState { parts: st.parts.push(st.cur), cur: Seq::empty(), size: 0 }
    } else {
        st
    }
}

/// Appends one text entry, with its trailing newline, to the current part,
/// adding `w` to the running weight.
pub open spec fn add_entry(st: PlanState, text: Seq<char>, w: nat) -> PlanState {
    PlanState { parts: st.parts, cur: st.cur.push(text.push('\n')), size: st.size + w }
}

/// Appends the chunks of an oversized block, each chunk opening a part of its
/// own: anything already in the current part is closed first.
pub open spec fn push_chunks(st: PlanState, chunks: Seq<Seq<char>>) -> PlanState
    decreases chunks.len(),
{
    if chunks.len() == 0 {
        st
    } else {
        push_chunks(
            add_entry(flush_if_nonempty(st), chunks[0], chunks[0].len() + 1),
            chunks.skip(1),
        )
    }
}

/// The contribution length of block `i`: its own length plus one, plus the
/// global header when it is the first block and the header is non-empty, plus
/// the global footer when it is the last block and the footer is non-empty.
pub open spec fn file_len(
    h: Seq<char>,
    f: Seq<char>,
    count: nat,
    i: nat,
    file: Seq<char>,
) -> nat {
    (if i == 0 && h.len() > 0 {
        h.len() + 1
    } else {
        0
    }) + (if i + 1 == count && f.len() > 0 {
        f.len() + 1
    } else {
        0
    }) + file.len() + 1
}

/// The budget left for one chunk of an oversized block once the wrapper
/// overhead and the global header and footer are set aside (never below zero).
pub open spec fn chunk_budget(max: nat, oh: nat, hlen: nat, flen: nat) -> nat {
    if max >= oh + hlen + flen {
        (max - (oh + hlen + flen)) as nat
    } else {
        0
    }
}

/// One planning step: block `i` joins the current part when it fits, opens a
/// fresh part when it fits alone, and is chunked at line boundaries when it
/// cannot fit in any part even alone. After a chunked block the part holding
/// its final chunk is closed, so a line-level chunk is never mixed with an
/// unrelated block.
pub open spec fn plan_step(
    st: PlanState,
    h: Seq<char>,
    f: Seq<char>,
    files: Seq<Seq<char>>,
    i: nat,
    oh: nat,
    max: nat,
) -> PlanState {
    let file = files[i as int];
    let fl = file_len(h, f, files.len(), i, file);
    if st.size + fl + oh > max {
        if file.len() + oh > max {
            flush_if_nonempty(
                push_chunks(st, chunks_of_block(file, chunk_budget(max, oh, h.len(), f.len()))),
            )
        } else {
            add_entry(flush_if_nonempty(st), file, file.len() + 1)
        }
    } else {
        add_entry(st, file, fl)
    }
}

/// The planner state after the first `k` blocks have been placed.
pub open spec fn plan_state(
    h: Seq<char>,
    files: Seq<Seq<char>>,
    f: Seq<char>,
    oh: nat,
    max: nat,
    k: nat,
) -> PlanState
    decreases k,
{
    if k == 0 {
        PlanState { parts: Seq::empty(), cur: Seq::empty(), size: 0 }
    } else {
        plan_step(plan_state(h, files, f, oh, max, (k - 1) as nat), h, f, files, (k - 1) as nat, oh, max)
    }
}

/// The full split plan: every block placed and the final part closed. The
/// plan is never empty: with no blocks (or nothing but empty chunked blocks)
/// it still holds exactly one part, carrying only the header and footer, so
/// the engine never returns zero parts.
pub open spec fn spec_plan(
    h: Seq<char>,
    files: Seq<Seq<char>>,
    f: Seq<char>,
    pt: PartTemplate,
    max: nat,
) -> Seq<Seq<Seq<char>>> {
    let p = flush_if_nonempty(plan_state(h, files, f, spec_overhead(pt), max, files.len())).parts;
    if p.len() == 0 {
        seq![Seq::<Seq<char>>::empty()]
    } else {
        p
    }
}

/// The entries of one planned part, concatenated.
pub open spec fn entries_concat(entries: Seq<Seq<char>>) -> Seq<char>
    decreases entries.len(),
{
    if entries.len() == 0 {
        Seq::empty()
    } else {
        entries[0] + entries_concat(entries.skip(1))
    }
}

/// The rendered text of part `i` (zero-based) of `total`, its fragments
/// joined by single newlines with no trailing newline: the rendered part
/// header first, then the global header on the first part only, the part's
/// chunks, the global footer on the last part only, the rendered part footer,
/// and the rendered pending notice last on every part but the last.
pub open spec fn spec_part_text(
    entries: Seq<Seq<char>>,
    i: nat,
    total: nat,
    pt: PartTemplate,
    h: Seq<char>,
    f: Seq<char>,
) -> Seq<char> {
    rendered(pt.header@, i + 1, total).push('\n') + (if i == 0 && h.len() > 0 {
        h.push('\n')
    } else {
        Seq::empty()
    }) + entries_concat(entries) + (if i + 1 == total && f.len() > 0 {
        f.push('\n')
    } else {
        Seq::empty()
    }) + rendered(pt.footer@, i + 1, total) + (if i + 1 < total && pt.pending@.len() > 0 {
        seq!['\n'] + rendered(pt.pending@, i + 1, total)
    } else {
        Seq::empty()
    })
}

/// Every planned part rendered, with `total-parts` standing for the length of
/// the plan sequence itself.
pub open spec fn spec_assemble(
    plans: Seq<Seq<Seq<char>>>,
    pt: PartTemplate,
    h: Seq<char>,
    f: Seq<char>,
) -> Seq<Seq<char>> {
    Seq::new(plans.len(), |i: int| spec_part_text(plans[i], i as nat, plans.len(), pt, h, f))
}

/// What the partition engine returns: the single joined part on the fast
/// path, and the planned, rendered parts otherwise.
pub open spec fn spec_split_into_parts(
    h: Seq<char>,
    files: Seq<Seq<char>>,
    f: Seq<char>,
    pt: PartTemplate,
    max: nat,
) -> Seq<Seq<char>> {
    if spec_fits_single(h, files, f, max) {
        seq![spec_single_part(h, files, f)]
    } else {
        spec_assemble(spec_plan(h, files, f, pt, max), pt, h, f)
    }
}

/// The input weight the planner's arithmetic must accommodate; keeping it
/// within half the machine word rules out overflow in every running sum.
pub open spec fn plan_weight(
    h: Seq<char>,
    files: Seq<Seq<char>>,
    f: Seq<char>,
    pt: PartTemplate,
) -> nat {
    h.len() + f.len() + files_weight(files) + pt.header@.len() + pt.footer@.len()
        + pt.pending@.len() + 8
}

/// Replacing a pattern by text no longer than it never lengthens a sequence.
proof fn lemma_replaced_len_shrinks(s: Seq<char>, pat: Seq<char>, rep: Seq<char>)
    requires
        rep.len() <= pat.len(),
    ensures
        replaced(s, pat, rep).len() <= s.len(),
    decreases s.len(),
{
    if pat.len() == 0 || s.len() < pat.len() {
    } else if s.take(pat.len() as int) == pat {
        lemma_replaced_len_shrinks(s.skip(pat.len() as int), pat, rep);
    } else {
        lemma_replaced_len_shrinks(s.skip(1), pat, rep);
    }
}

/// The weight of a block sequence splits at any boundary.
pub proof fn lemma_weight_split(files: Seq<Seq<char>>, i: int)
    requires
        0 <= i <= files.len(),
    ensures
        files_weight(files) == files_weight(files.take(i)) + files_weight(files.skip(i)),
    decreases i,
{
    if i == 0 {
        assert(files.take(0) =~= Seq::<Seq<char>>::empty());
        assert(files.skip(0) =~= files);
    } else {
        lemma_weight_split(files.skip(1), i - 1);
        assert(files.skip(1).take(i - 1) =~= files.take(i).skip(1));
        assert(files.skip(1).skip(i - 1) =~= files.skip(i));
        assert(files.take(i)[0] == files[0]);
    }
}

/// Extending a prefix by one block adds that block's weight.
pub proof fn lemma_weight_take_succ(files: Seq<Seq<char>>, i: int)
    requires
        0 <= i < files.len(),
    ensures
        files_weight(files.take(i + 1)) == files_weight(files.take(i)) + files[i].len() + 1,
    decreases i,
{
    if i == 0 {
        assert(files.take(1)[0] == files[0]);
        assert(files.take(1).skip(1) =~= Seq::<Seq<char>>::empty());
        assert(files.take(0) =~= Seq::<Seq<char>>::empty());
    } else {
        lemma_weight_take_succ(files.skip(1), i - 1);
        assert(files.skip(1).take(i) =~= files.take(i + 1).skip(1));
        assert(files.skip(1).take(i - 1) =~= files.take(i).skip(1));
        assert(files.take(i + 1)[0] == files[0]);
        assert(files.take(i)[0] == files[0]);
        assert(files.skip(1)[i - 1] == files[i]);
    }
}

/// Extending a prefix by one block appends that block and a newline to the
/// concatenation.
proof fn lemma_concat_take_succ(files: Seq<Seq<char>>, i: int)
    requires
        0 <= i < files.len(),
    ensures
        files_concat(files.take(i + 1)) == files_concat(files.take(i)) + files[i].push('\n'),
    decreases i,
{
    if i == 0 {
        assert(files.take(1)[0] == files[0]);
        assert(files.take(1).skip(1) =~= Seq::<Seq<char>>::empty());
        assert(files.take(0) =~= Seq::<Seq<char>>::empty());
        assert(files_concat(Seq::<Seq<char>>::empty()) == Seq::<char>::empty());
        assert(files_concat(files.take(1)) == files.take(1)[0].push('\n') + files_concat(
            files.take(1).skip(1),
        ));
        assert(files_concat(files.take(1)) =~= files[0].push('\n'));
        assert(files_concat(files.take(0)) + files[0].push('\n') =~= files[0].push('\n'));
    } else {
        lemma_concat_take_succ(files.skip(1), i - 1);
        assert(files.skip(1).take(i) =~= files.take(i + 1).skip(1));
        assert(files.skip(1).take(i - 1) =~= files.take(i).skip(1));
        assert(files.take(i + 1)[0] == files[0]);
        assert(files.take(i)[0] == files[0]);
        assert(files.skip(1)[i - 1] == files[i]);
        assert(files_concat(files.take(i + 1)) =~= files_concat(files.take(i)) + files[i].push(
            '\n',
        ));
    }
}

/// The character count of `n` in decimal.
pub fn usize_chars(n: usize) -> (r: Vec<char>)
    ensures
        r@ == dec_digits(n as nat),
    decreases n,
{
    if n < 10 {
        let mut r: Vec<char> = Vec::new();
        r.push(crate::text::digit_of((n as u64) % 10));
        proof {
            assert(r@ =~= dec_digits(n as nat));
        }
        r
    } else {
        let mut r = usize_chars(n / 10);
        r.push(crate::text::digit_of((n % 10) as u64));
        proof {
            assert(r@ =~= dec_digits(n as nat));
        }
        r
    }
}

/// Replaces the position placeholders in `text` by the given part number,
/// total part count, and the difference between them.
pub fn replace_placeholders(text: &str, part_number: usize, total_parts: usize) -> (r: String)
    ensures
        r@ == rendered(text@, part_number as nat, total_parts as nat),
{
    proof {
        reveal_strlit("<part-number>");
        reveal_strlit("<total-parts>");
        reveal_strlit("<parts-remaining>");
    }
    let parts_remaining: usize = if total_parts >= part_number {
        total_parts - part_number
    } else {
        0
    };
    let t = str_chars(text);
    let p_num = str_chars("<part-number>");
    let p_tot = str_chars("<total-parts>");
    let p_rem = str_chars("<parts-remaining>");
    let d_num = usize_chars(part_number);
    let d_tot = usize_chars(total_parts);
    let d_rem = usize_chars(parts_remaining);
    let s1 = replace_chars(&t, &p_num, &d_num);
    let s2 = replace_chars(&s1, &p_tot, &d_tot);
    let s3 = replace_chars(&s2, &p_rem, &d_rem);
    chars_string(&s3)
}

/// Estimates the wrapper overhead of one part by substituting a three-digit
/// sentinel for every placeholder and summing the fragment lengths, with one
/// newline after each fragment taken.
pub fn calculate_part_overhead(part_template: &PartTemplate) -> (r: usize)
    requires
        part_template.header@.len() + part_template.footer@.len() + part_template.pending@.len()
            + 3 <= usize::MAX,
    ensures
        r == spec_overhead(*part_template),
{
    proof {
        reveal_strlit("<part-number>");
        reveal_strlit("<total-parts>");
        reveal_strlit("<parts-remaining>");
        reveal_strlit("999");
    }
    let p_num = str_chars("<part-number>");
    let p_tot = str_chars("<total-parts>");
    let p_rem = str_chars("<parts-remaining>");
    let sentinel = str_chars("999");
    let h = str_chars(part_template.header.as_str());
    let f = str_chars(part_template.footer.as_str());
    let p = str_chars(part_template.pending.as_str());
    proof {
        lemma_sentinel_len(h@);
        lemma_sentinel_len(f@);
        lemma_sentinel_len(p@);
    }
    let rh = replace_chars(&replace_chars(&replace_chars(&h, &p_num, &sentinel), &p_tot, &sentinel), &p_rem, &sentinel);
    let rf = replace_chars(&replace_chars(&replace_chars(&f, &p_num, &sentinel), &p_tot, &sentinel), &p_rem, &sentinel);
    let mut overhead: usize = rh.len() + 1 + rf.len() + 1;
    if p.len() > 0 {
        let rp = replace_chars(&replace_chars(&replace_chars(&p, &p_num, &sentinel), &p_tot, &sentinel), &p_rem, &sentinel);
        overhead = overhead + rp.len() + 1;
    }
    overhead
}

/// The sentinel rendering of a fragment is no longer than the fragment.
proof fn lemma_sentinel_len(t: Seq<char>)
    ensures
        sentinel_rendered(t).len() <= t.len(),
{
    reveal_strlit("<part-number>");
    reveal_strlit("<total-parts>");
    reveal_strlit("<parts-remaining>");
    reveal_strlit("999");
    lemma_replaced_len_shrinks(t, ph_number(), "999"@);
    lemma_replaced_len_shrinks(replaced(t, ph_number(), "999"@), ph_total(), "999"@);
    lemma_replaced_len_shrinks(
        replaced(replaced(t, ph_number(), "999"@), ph_total(), "999"@),
        ph_remaining(),
        "999"@,
    );
}

/// Whether the header, the blocks and the footer all fit within the budget as
/// a single part, with a newline after the header (when present) and after
/// every block.
pub fn fits_in_single_part(
    header: &str,
    files: &Vec<String>,
    footer: &str,
    max_part_chars: usize,
) -> (r: bool)
    requires
        single_part_total(header@, string_views(files@), footer@) <= usize::MAX,
    ensures
        r == spec_fits_single(header@, string_views(files@), footer@, max_part_chars as nat),
{
    let ghost fv = string_views(files@);
    let mut total_length: usize = 0;
    let mut i: usize = 0;
    proof {
        assert(fv.take(0) =~= Seq::<Seq<char>>::empty());
    }
    while i < files.len()
        invariant
            i <= files@.len(),
            fv == string_views(files@),
            fv.len() == files@.len(),
            total_length == files_weight(fv.take(i as int)),
            single_part_total(header@, fv, footer@) <= usize::MAX,
        decreases files@.len() - i,
    {
        proof {
            lemma_weight_take_succ(fv, i as int);
            lemma_weight_split(fv, i + 1);
            assert(fv[i as int] == files@[i as int]@);
        }
        let n = files[i].as_str().unicode_len();
        total_length = total_length + n + 1;
        i = i + 1;
    }
    proof {
        assert(fv.take(fv.len() as int) =~= fv);
    }
    if !header.is_empty() {
        let hn = header.unicode_len();
        total_length = total_length + hn + 1;
    }
    let fn_len = footer.unicode_len();
    total_length = total_length + fn_len;
    total_length <= max_part_chars
}

/// Renders the whole output as one part: header, each block on its own, and
/// the footer, each followed by a newline except the footer.
pub fn assemble_single_part(header: &str, files: &Vec<String>, footer: &str) -> (r: Vec<String>)
    ensures
        string_views(r@) == seq![spec_single_part(header@, string_views(files@), footer@)],
{
    let ghost fv = string_views(files@);
    let mut part: Vec<char> = Vec::new();
    if !header.is_empty() {
        let hc = str_chars(header);
        append_chars(&mut part, &hc);
        part.push('\n');
        proof {
            assert(part@ =~= header@.push('\n'));
        }
    }
    let ghost head = part@;
    let mut i: usize = 0;
    proof {
        assert(fv.take(0) =~= Seq::<Seq<char>>::empty());
        assert(part@ =~= head + files_concat(fv.take(0)));
    }
    while i < files.len()
        invariant
            i <= files@.len(),
            fv == string_views(files@),
            fv.len() == files@.len(),
            part@ == head + files_concat(fv.take(i as int)),
        decreases files@.len() - i,
    {
        proof {
            lemma_concat_take_succ(fv, i as int);
            assert(fv[i as int] == files@[i as int]@);
        }
        let fc = str_chars(files[i].as_str());
        append_chars(&mut part, &fc);
        part.push('\n');
        i = i + 1;
        proof {
            assert(part@ =~= head + files_concat(fv.take(i as int)));
        }
    }
    proof {
        assert(fv.take(fv.len() as int) =~= fv);
    }
    let fc = str_chars(footer);
    append_chars(&mut part, &fc);
    let s = chars_string(&part);
    let mut r: Vec<String> = Vec::new();
    r.push(s);
    proof {
        assert(string_views(r@) =~= seq![spec_single_part(header@, fv, footer@)]);
    }
    r
}

/// The runs of lines, each joined into one chunk.
pub open spec fn runs_joined(ls: Seq<Seq<char>>, max: nat) -> Seq<Seq<char>> {
    line_runs(ls, max).map(|i: int, run: Seq<Seq<char>>| joined_lines(run))
}

/// A non-empty run's joined text is one character shorter than its weight.
pub proof fn lemma_joined_weight(run: Seq<Seq<char>>)
    requires
        run.len() >= 1,
    ensures
        joined_lines(run).len() + 1 == files_weight(run),
    decreases run.len(),
{
    if run.len() == 1 {
        assert(run.skip(1) =~= Seq::<Seq<char>>::empty());
        assert(joined_lines(run) == run[0]);
        assert(files_weight(run) == run[0].len() + 1 + files_weight(run.skip(1)));
    } else {
        lemma_joined_weight(run.skip(1));
        assert(joined_lines(run) == run[0] + seq!['\n'] + joined_lines(run.skip(1)));
        assert(files_weight(run) == run[0].len() + 1 + files_weight(run.skip(1)));
        assert(joined_lines(run).len() == run[0].len() + 1 + joined_lines(run.skip(1)).len());
    }
}

/// Splitting at newlines weighs one more than the text itself: each piece
/// costs its length plus one, and the pieces lose one newline each but one.
proof fn lemma_nl_split_weight(s: Seq<char>)
    ensures
        files_weight(crate::text::nl_split(s)) == s.len() + 1,
    decreases s.len(),
{
    let r0 = crate::text::nl_split(s);
    if s.len() == 0 {
        assert(r0 == seq![s]);
        assert(r0[0] == s);
        assert(r0.skip(1) =~= Seq::<Seq<char>>::empty());
        assert(files_weight(r0) == r0[0].len() + 1 + files_weight(r0.skip(1)));
    } else if s[0] == '\n' {
        lemma_nl_split_weight(s.skip(1));
        assert(r0[0] == Seq::<char>::empty());
        assert(r0.skip(1) =~= crate::text::nl_split(s.skip(1)));
        assert(files_weight(r0) == r0[0].len() + 1 + files_weight(r0.skip(1)));
    } else {
        lemma_nl_split_weight(s.skip(1));
        crate::text::lemma_split_nonempty(s.skip(1));
        let r = crate::text::nl_split(s.skip(1));
        assert(r0 == r.update(0, seq![s[0]] + r[0]));
        assert(r0[0] == seq![s[0]] + r[0]);
        assert(r0.skip(1) =~= r.skip(1));
        assert(files_weight(r) == r[0].len() + 1 + files_weight(r.skip(1)));
        assert(files_weight(r0) == r0[0].len() + 1 + files_weight(r0.skip(1)));
    }
}

/// The lines of a text weigh at most one more than the text itself.
proof fn lemma_lines_weight(s: Seq<char>)
    ensures
        files_weight(text_lines(s)) <= s.len() + 1,
{
    if s.len() == 0 {
    } else if s.last() == '\n' {
        lemma_nl_split_weight(s.take(s.len() - 1));
    } else {
        lemma_nl_split_weight(s);
    }
}

/// Every greedy run is non-empty and weighs no more than all the lines.
proof fn lemma_runs_each(ls: Seq<Seq<char>>, max: nat, j: int)
    requires
        0 <= j < line_runs(ls, max).len(),
    ensures
        line_runs(ls, max)[j].len() >= 1,
        files_weight(line_runs(ls, max)[j]) <= files_weight(ls),
    decreases ls.len(),
{
    let k0 = run_len(ls, max as int);
    let k: int = if k0 < 1 {
        1
    } else if k0 > ls.len() {
        ls.len() as int
    } else {
        k0 as int
    };
    if j == 0 {
        lemma_weight_split(ls, k);
    } else {
        lemma_runs_each(ls.skip(k), max, j - 1);
        lemma_weight_split(ls, k);
    }
}

/// The greedy runs partition the lines: flattened back, they give the lines.
pub proof fn lemma_line_runs_flatten(ls: Seq<Seq<char>>, max: nat)
    ensures
        line_runs(ls, max).flatten() == ls,
    decreases ls.len(),
{
    if ls.len() == 0 {
        assert(line_runs(ls, max).flatten() =~= ls);
    } else {
        let k0 = run_len(ls, max as int);
        let k: int = if k0 < 1 {
            1
        } else if k0 > ls.len() {
            ls.len() as int
        } else {
            k0 as int
        };
        lemma_line_runs_flatten(ls.skip(k), max);
        vstd::seq_lib::lemma_flatten_concat(
            seq![ls.take(k)],
            line_runs(ls.skip(k), max),
        );
        assert(seq![ls.take(k)].first() == ls.take(k));
        assert(seq![ls.take(k)].drop_first() =~= Seq::<Seq<Seq<char>>>::empty());
        assert(Seq::<Seq<Seq<char>>>::empty().flatten() =~= Seq::<Seq<char>>::empty());
        assert(seq![ls.take(k)].flatten() =~= ls.take(k));
        assert(ls.take(k) + ls.skip(k) =~= ls);
    }
}

/// Every chunk of an oversized block fits the block's own length.
proof fn lemma_chunk_len(b: Seq<char>, budget: nat, j: int)
    requires
        0 <= j < chunks_of_block(b, budget).len(),
    ensures
        chunks_of_block(b, budget)[j].len() <= b.len(),
{
    let runs = line_runs(text_lines(b), budget);
    lemma_runs_each(text_lines(b), budget, j);
    lemma_joined_weight(runs[j]);
    lemma_lines_weight(b);
}

/// Divides a block too large for any part into chunks at line boundaries,
/// each chunk weighing at most `max_chunk_size` unless a single line alone
/// exceeds it, in which case that line stands whole in its own chunk.
pub fn split_file_by_lines(file_content: &str, max_chunk_size: usize) -> (r: Vec<String>)
    ensures
        string_views(r@) == chunks_of_block(file_content@, max_chunk_size as nat),
{
    let chars = str_chars(file_content);
    let lines = lines_of(&chars);
    let ghost ls = text_lines(file_content@);
    let ghost maxn = max_chunk_size as nat;
    let n: usize = lines.len();
    proof {
        assert(charvec_views(lines@) == ls);
        assert(n == ls.len());
    }
    let mut chunks: Vec<String> = Vec::new();
    let mut p: usize = 0;
    proof {
        assert(ls.skip(0) =~= ls);
        assert(runs_joined(ls, maxn) =~= string_views(chunks@) + runs_joined(ls.skip(0), maxn));
    }
    while p < n
        invariant
            p <= n,
            n == ls.len(),
            ls == charvec_views(lines@),
            maxn == max_chunk_size as nat,
            runs_joined(ls, maxn) == string_views(chunks@) + runs_joined(ls.skip(p as int), maxn),
        decreases n - p,
    {
        let ghost lsp = ls.skip(p as int);
        let mut j: usize = 0;
        let mut b: usize = max_chunk_size;
        proof {
            assert(lsp.skip(0) =~= lsp);
        }
        while p + j < n && lines[p + j].len() < b
            invariant
                p < n,
                j <= n - p,
                n == ls.len(),
                ls == charvec_views(lines@),
                lsp == ls.skip(p as int),
                b <= max_chunk_size,
                run_len(lsp, max_chunk_size as int) == j + run_len(lsp.skip(j as int), b as int),
            decreases n - p - j,
        {
            proof {
                assert(lsp.skip(j as int)[0] == lines@[p + j]@);
                assert(lsp.skip(j as int).skip(1) =~= lsp.skip(j + 1));
            }
            b = b - (lines[p + j].len() + 1);
            j = j + 1;
        }
        proof {
            if p + j < n {
                assert(lsp.skip(j as int)[0] == lines@[p + j]@);
                assert(run_len(lsp.skip(j as int), b as int) == 0);
            } else {
                assert(lsp.skip(j as int).len() == 0);
            }
            assert(run_len(lsp, max_chunk_size as int) == j);
        }
        let k: usize = if j == 0 {
            1
        } else {
            j
        };
        let ghost run = lsp.take(k as int);
        proof {
            assert(line_runs(lsp, maxn) == seq![run] + line_runs(lsp.skip(k as int), maxn));
        }
        let mut cv: Vec<char> = Vec::new();
        let mut t: usize = 0;
        proof {
            assert(run.take(0) =~= Seq::<Seq<char>>::empty());
            assert(cv@ =~= joined_lines(run.take(0)));
        }
        while t < k
            invariant
                t <= k,
                p + k <= n,
                k >= 1,
                n == ls.len(),
                ls == charvec_views(lines@),
                lsp == ls.skip(p as int),
                run == lsp.take(k as int),
                cv@ == joined_lines(run.take(t as int)),
            decreases k - t,
        {
            proof {
                lemma_joined_snoc(run.take(t as int), run[t as int]);
                assert(run.take(t as int).push(run[t as int]) =~= run.take(t + 1));
                assert(run[t as int] == lines@[p + t]@);
            }
            if t > 0 {
                cv.push('\n');
            }
            append_chars(&mut cv, &lines[p + t]);
            t = t + 1;
        }
        proof {
            assert(run.take(k as int) =~= run);
        }
        let cs = chars_string(&cv);
        chunks.push(cs);
        proof {
            assert(runs_joined(lsp, maxn) =~= seq![joined_lines(run)] + runs_joined(
                lsp.skip(k as int),
                maxn,
            ));
            assert(lsp.skip(k as int) =~= ls.skip(p + k));
            assert(string_views(chunks@) =~= string_views(chunks@.drop_last()) + seq![cv@]);
            assert(string_views(chunks@.drop_last()) + (seq![joined_lines(run)] + runs_joined(
                ls.skip(p + k),
                maxn,
            )) =~= (string_views(chunks@.drop_last()) + seq![joined_lines(run)]) + runs_joined(
                ls.skip(p + k),
                maxn,
            ));
        }
        p = p + k;
    }
    proof {
        assert(ls.skip(p as int).len() == 0);
        assert(ls.skip(p as int) =~= Seq::<Seq<char>>::empty());
        assert(line_runs(ls.skip(p as int), maxn).len() == 0);
        assert(runs_joined(ls.skip(p as int), maxn) =~= Seq::<Seq<char>>::empty());
        assert(string_views(chunks@) =~= runs_joined(ls, maxn));
    }
    chunks
}

/// The content of a single part: the rendered text of each file, or of each
/// line-bounded fragment of an oversized file, assigned to the part.
pub struct PartContent {
    /// Each entry is one file's content, or one fragment of a file too large
    /// to fit in a single part, with its trailing newline.
    pub file_chunks: Vec<String>,
}

impl View for PartContent {
    type V = Seq<Seq<char>>;

    open spec fn view(&self) -> Seq<Seq<char>> {
        string_views(self.file_chunks@)
    }
}

/// View of a sequence of part contents as a sequence of entry sequences.
pub open spec fn part_views(v: Seq<PartContent>) -> Seq<Seq<Seq<char>>> {
    v.map(|i: int, p: PartContent| p@)
}

/// A part holding the same entries as the given one.
fn clone_part(p: &PartContent) -> (r: PartContent)
    ensures
        r@ == p@,
{
    let mut file_chunks: Vec<String> = Vec::new();
    let mut i: usize = 0;
    while i < p.file_chunks.len()
        invariant
            i <= p.file_chunks@.len(),
            file_chunks@ == p.file_chunks@.take(i as int),
        decreases p.file_chunks@.len() - i,
    {
        file_chunks.push(p.file_chunks[i].clone());
        i = i + 1;
        proof {
            assert(file_chunks@ =~= p.file_chunks@.take(i as int));
        }
    }
    proof {
        assert(file_chunks@ =~= p.file_chunks@);
    }
    PartContent { file_chunks }
}

/// Closes the current part into the plan if it holds anything, and resets the
/// running size.
fn start_new_part_if_needed(
    parts: &mut Vec<PartContent>,
    current_part: &mut PartContent,
    current_size: &mut usize,
)
    ensures
        part_views(final(parts)@) == flush_if_nonempty(
            st_of(part_views(old(parts)@), old(current_part)@, *old(current_size) as nat),
        ).parts,
        final(current_part)@ == flush_if_nonempty(
            st_of(part_views(old(parts)@), old(current_part)@, *old(current_size) as nat),
        ).cur,
        *final(current_size) as nat == flush_if_nonempty(
            st_of(part_views(old(parts)@), old(current_part)@, *old(current_size) as nat),
        ).size,
{
    if current_part.file_chunks.len() > 0 {
        let closed = clone_part(current_part);
        parts.push(closed);
        current_part.file_chunks = Vec::new();
        *current_size = 0;
        proof {
            assert(part_views(parts@) =~= part_views(old(parts)@).push(old(current_part)@));
            assert(final(current_part)@ =~= Seq::<Seq<char>>::empty());
        }
    }
}

/// Adds a whole file's text, with a trailing newline, to the current part,
/// growing the running size by the given contribution length.
fn add_file_to_part(
    current_part: &mut PartContent,
    file: &str,
    current_size: &mut usize,
    file_length: usize,
)
    requires
        *old(current_size) + file_length <= usize::MAX,
    ensures
        final(current_part)@ == old(current_part)@.push(file@.push('\n')),
        *final(current_size) == *old(current_size) + file_length,
{
    let mut v = str_chars(file);
    v.push('\n');
    let s = chars_string(&v);
    current_part.file_chunks.push(s);
    *current_size = *current_size + file_length;
    proof {
        assert(final(current_part)@ =~= old(current_part)@.push(file@.push('\n')));
    }
}

/// Adds one fragment of an oversized file, with a trailing newline, to the
/// current part, growing the running size by the fragment's weight.
fn add_chunk_to_part(current_part: &mut PartContent, chunk: &str, current_size: &mut usize)
    requires
        *old(current_size) + chunk@.len() + 1 <= usize::MAX,
    ensures
        final(current_part)@ == old(current_part)@.push(chunk@.push('\n')),
        *final(current_size) == *old(current_size) + chunk@.len() + 1,
{
    let n = chunk.unicode_len();
    let mut v = str_chars(chunk);
    v.push('\n');
    let s = chars_string(&v);
    current_part.file_chunks.push(s);
    *current_size = *current_size + n + 1;
    proof {
        assert(final(current_part)@ =~= old(current_part)@.push(chunk@.push('\n')));
    }
}

/// Pushing one more chunk closes the part the previous chunks left open.
proof fn lemma_push_chunks_snoc(st: PlanState, s: Seq<Seq<char>>, x: Seq<char>)
    ensures
        push_chunks(st, s.push(x)) == add_entry(
            flush_if_nonempty(push_chunks(st, s)),
            x,
            x.len() + 1,
        ),
    decreases s.len(),
{
    if s.len() == 0 {
        assert(s.push(x)[0] == x);
        assert(s.push(x).skip(1) =~= Seq::<Seq<char>>::empty());
        let st1 = add_entry(flush_if_nonempty(st), x, x.len() + 1);
        assert(push_chunks(st, s.push(x)) == push_chunks(st1, s.push(x).skip(1)));
        assert(push_chunks(st1, s.push(x).skip(1)) == st1);
        assert(push_chunks(st, s) == st);
    } else {
        assert(s.push(x)[0] == s[0]);
        assert(s.push(x).skip(1) =~= s.skip(1).push(x));
        let st1 = add_entry(flush_if_nonempty(st), s[0], s[0].len() + 1);
        lemma_push_chunks_snoc(st1, s.skip(1), x);
        assert(push_chunks(st, s.push(x)) == push_chunks(st1, s.skip(1).push(x)));
        assert(push_chunks(st, s) == push_chunks(st1, s.skip(1)));
    }
}

/// Pushing at least one chunk leaves the current part non-empty.
proof fn lemma_push_chunks_cur_nonempty(st: PlanState, chunks: Seq<Seq<char>>)
    requires
        chunks.len() >= 1,
    ensures
        push_chunks(st, chunks).cur.len() > 0,
    decreases chunks.len(),
{
    let st1 = add_entry(flush_if_nonempty(st), chunks[0], chunks[0].len() + 1);
    if chunks.len() == 1 {
        assert(chunks.skip(1) =~= Seq::<Seq<char>>::empty());
        assert(push_chunks(st1, chunks.skip(1)) == st1);
    } else {
        lemma_push_chunks_cur_nonempty(st1, chunks.skip(1));
    }
}

/// Splits a file that cannot fit in any part into line-bounded chunks and
/// appends each chunk to the plan, every chunk opening a part of its own.
fn handle_large_file(
    parts: &mut Vec<PartContent>,
    current_part: &mut PartContent,
    current_size: &mut usize,
    file: &str,
    part_overhead: usize,
    footer_len: usize,
    header_len: usize,
    max_size: usize,
)
    requires
        *old(current_size) + file@.len() + 2 <= usize::MAX,
        part_overhead + footer_len + header_len <= usize::MAX,
    ensures
        st_of(part_views(final(parts)@), final(current_part)@, *final(current_size) as nat)
            == flush_if_nonempty(
            push_chunks(
                st_of(part_views(old(parts)@), old(current_part)@, *old(current_size) as nat),
                chunks_of_block(
                    file@,
                    chunk_budget(
                        max_size as nat,
                        part_overhead as nat,
                        header_len as nat,
                        footer_len as nat,
                    ),
                ),
            ),
        ),
{
    let ghost st0 = st_of(part_views(old(parts)@), old(current_part)@, *old(current_size) as nat);
    let denom = part_overhead + footer_len + header_len;
    let max_chunk_size: usize = if max_size >= denom {
        max_size - denom
    } else {
        0
    };
    let ghost budget = chunk_budget(
        max_size as nat,
        part_overhead as nat,
        header_len as nat,
        footer_len as nat,
    );
    proof {
        assert(max_chunk_size as nat == budget);
    }
    let chunks = split_file_by_lines(file, max_chunk_size);
    let ghost cviews = chunks_of_block(file@, budget);
    let ghost size0 = *current_size as nat;
    let ghost flen = file@.len();
    let mut ci: usize = 0;
    proof {
        assert(cviews.take(0) =~= Seq::<Seq<char>>::empty());
        assert(push_chunks(st0, cviews.take(0)) == st0);
    }
    while ci < chunks.len()
        invariant
            ci <= chunks@.len(),
            string_views(chunks@) == cviews,
            cviews == chunks_of_block(file@, budget),
            flen == file@.len(),
            size0 == st0.size,
            size0 + flen + 2 <= usize::MAX,
            *current_size as nat <= size0 + flen + 1,
            st_of(part_views(parts@), current_part@, *current_size as nat) == push_chunks(
                st0,
                cviews.take(ci as int),
            ),
        decreases chunks@.len() - ci,
    {
        proof {
            lemma_chunk_len(file@, budget, ci as int);
            lemma_push_chunks_snoc(st0, cviews.take(ci as int), cviews[ci as int]);
            assert(cviews.take(ci as int).push(cviews[ci as int]) =~= cviews.take(ci + 1));
            assert(cviews[ci as int] == chunks@[ci as int]@);
            if ci == 0 {
                assert(cviews.take(0) =~= Seq::<Seq<char>>::empty());
                assert(push_chunks(st0, cviews.take(0)) == st0);
                assert(*current_size as nat == st0.size);
            } else {
                lemma_push_chunks_cur_nonempty(st0, cviews.take(ci as int));
                assert(current_part@.len() > 0);
            }
        }
        start_new_part_if_needed(parts, current_part, current_size);
        proof {
            assert(*current_size as nat <= size0);
            assert(chunks@[ci as int]@.len() <= flen);
        }
        add_chunk_to_part(current_part, chunks[ci].as_str(), current_size);
        proof {
            assert(st_of(part_views(parts@), current_part@, *current_size as nat) == push_chunks(
                st0,
                cviews.take(ci + 1),
            ));
        }
        ci = ci + 1;
    }
    proof {
        assert(cviews.take(ci as int) =~= cviews);
    }
    start_new_part_if_needed(parts, current_part, current_size);
}

/// Handles a file that does not fit in the current part: a file too large for
/// any part is chunked at line boundaries, any other file opens a fresh part.
fn handle_exceeding_size(
    parts: &mut Vec<PartContent>,
    current_part: &mut PartContent,
    current_size: &mut usize,
    file: &str,
    part_overhead: usize,
    footer_len: usize,
    header_len: usize,
    max_size: usize,
)
    requires
        *old(current_size) + file@.len() + 2 <= usize::MAX,
        file@.len() + part_overhead <= usize::MAX,
        part_overhead + footer_len + header_len <= usize::MAX,
    ensures
        st_of(part_views(final(parts)@), final(current_part)@, *final(current_size) as nat) == (
        if file@.len() + part_overhead > max_size {
            flush_if_nonempty(
                push_chunks(
                    st_of(part_views(old(parts)@), old(current_part)@, *old(current_size) as nat),
                    chunks_of_block(
                        file@,
                        chunk_budget(
                            max_size as nat,
                            part_overhead as nat,
                            header_len as nat,
                            footer_len as nat,
                        ),
                    ),
                ),
            )
        } else {
            add_entry(
                flush_if_nonempty(
                    st_of(part_views(old(parts)@), old(current_part)@, *old(current_size) as nat),
                ),
                file@,
                file@.len() + 1,
            )
        }),
{
    let fc = file.unicode_len();
    if fc + part_overhead > max_size {
        handle_large_file(
            parts,
            current_part,
            current_size,
            file,
            part_overhead,
            footer_len,
            header_len,
            max_size,
        );
    } else {
        start_new_part_if_needed(parts, current_part, current_size);
        add_file_to_part(current_part, file, current_size, fc + 1);
    }
}

/// The contribution length of the file at `index`: its character count plus
/// one, plus the global header when it is the first file and the header is
/// non-empty, plus the global footer when it is the last file and the footer
/// is non-empty.
pub fn calculate_file_length(
    header: &str,
    footer: &str,
    files: &Vec<String>,
    index: usize,
    file: &str,
) -> (r: usize)
    requires
        index < files@.len(),
        header@.len() + footer@.len() + file@.len() + 3 <= usize::MAX,
    ensures
        r as nat == file_len(header@, footer@, files@.len() as nat, index as nat, file@),
{
    let is_first = index == 0 && !header.is_empty();
    let is_last = index == files.len() - 1 && !footer.is_empty();
    let header_len: usize = if is_first {
        header.unicode_len() + 1
    } else {
        0
    };
    let footer_len: usize = if is_last {
        footer.unicode_len() + 1
    } else {
        0
    };
    header_len + file.unicode_len() + 1 + footer_len
}

/// Along the plan, an empty current part always has zero running size, and
/// the running size never outgrows the inputs' weight.
proof fn lemma_plan_size_bound(
    h: Seq<char>,
    files: Seq<Seq<char>>,
    f: Seq<char>,
    oh: nat,
    max: nat,
    k: nat,
)
    requires
        k <= files.len(),
    ensures
        plan_state(h, files, f, oh, max, k).cur.len() == 0 ==> plan_state(
            h,
            files,
            f,
            oh,
            max,
            k,
        ).size == 0,
        plan_state(h, files, f, oh, max, k).size <= h.len() + 1 + files_weight(
            files.take(k as int),
        ) + (if k == files.len() {
            f.len() + 1
        } else {
            0
        }),
    decreases k,
{
    if k == 0 {
    } else {
        let i = (k - 1) as nat;
        lemma_plan_size_bound(h, files, f, oh, max, i);
        let st = plan_state(h, files, f, oh, max, i);
        let file = files[i as int];
        let fl = file_len(h, f, files.len(), i, file);
        lemma_weight_take_succ(files, i as int);
        if st.size + fl + oh > max {
            if file.len() + oh > max {
                let budget = chunk_budget(max, oh, h.len(), f.len());
                let chunks = chunks_of_block(file, budget);
                if chunks.len() == 0 {
                    assert(push_chunks(st, chunks) == st);
                } else {
                    lemma_push_chunks_cur_nonempty(st, chunks);
                }
            } else {
            }
        } else {
            if i == 0 {
                assert(st.size == 0);
            }
        }
    }
}

/// Plans how the files divide into parts: a single forward pass that appends
/// each file to the current part when it fits, opens a fresh part when it
/// fits only alone, and chunks it at line boundaries when it cannot fit in
/// any part even alone.
pub fn create_split_plan(
    header: &str,
    files: &Vec<String>,
    footer: &str,
    part_template: &PartTemplate,
    max_part_chars: usize,
) -> (r: Vec<PartContent>)
    requires
        plan_weight(header@, string_views(files@), footer@, *part_template) <= usize::MAX / 2,
    ensures
        part_views(r@) == spec_plan(
            header@,
            string_views(files@),
            footer@,
            *part_template,
            max_part_chars as nat,
        ),
{
    let ghost fv = string_views(files@);
    let ghost oh = spec_overhead(*part_template);
    let ghost maxn = max_part_chars as nat;
    let part_overhead = calculate_part_overhead(part_template);
    let header_len = header.unicode_len();
    let footer_len = footer.unicode_len();
    proof {
        lemma_sentinel_len(part_template.header@);
        lemma_sentinel_len(part_template.footer@);
        lemma_sentinel_len(part_template.pending@);
    }
    let mut parts: Vec<PartContent> = Vec::new();
    let mut current_part_size: usize = 0;
    let mut current_part = PartContent { file_chunks: Vec::new() };
    let mut i: usize = 0;
    proof {
        assert(part_views(parts@) =~= Seq::<Seq<Seq<char>>>::empty());
        assert(current_part@ =~= Seq::<Seq<char>>::empty());
    }
    while i < files.len()
        invariant
            i <= files@.len(),
            fv == string_views(files@),
            fv.len() == files@.len(),
            oh == spec_overhead(*part_template),
            part_overhead == oh,
            oh <= part_template.header@.len() + part_template.footer@.len()
                + part_template.pending@.len() + 3,
            maxn == max_part_chars as nat,
            header_len == header@.len(),
            footer_len == footer@.len(),
            plan_weight(header@, fv, footer@, *part_template) <= usize::MAX / 2,
            st_of(part_views(parts@), current_part@, current_part_size as nat) == plan_state(
                header@,
                fv,
                footer@,
                oh,
                maxn,
                i as nat,
            ),
        decreases files@.len() - i,
    {
        proof {
            lemma_plan_size_bound(header@, fv, footer@, oh, maxn, i as nat);
            lemma_weight_split(fv, i as int);
            lemma_weight_take_succ(fv, i as int);
            lemma_weight_split(fv.skip(i as int), 1);
            assert(fv[i as int] == files@[i as int]@);
            assert(fv.skip(i as int)[0] == fv[i as int]);
            assert(fv.skip(i as int).skip(1) =~= fv.skip(i + 1));
            assert(files_weight(fv.take(i as int)) + files_weight(fv.skip(i as int))
                == files_weight(fv));
        }
        let file_length = calculate_file_length(header, footer, files, i, files[i].as_str());
        if current_part_size + file_length + part_overhead > max_part_chars {
            handle_exceeding_size(
                &mut parts,
                &mut current_part,
                &mut current_part_size,
                files[i].as_str(),
                part_overhead,
                footer_len,
                header_len,
                max_part_chars,
            );
        } else {
            add_file_to_part(
                &mut current_part,
                files[i].as_str(),
                &mut current_part_size,
                file_length,
            );
        }
        i = i + 1;
    }
    if current_part.file_chunks.len() > 0 {
        proof {
            assert(part_views(parts@.push(current_part)) =~= part_views(parts@).push(
                current_part@,
            ));
        }
        parts.push(current_part);
    }
    if parts.len() == 0 {
        let empty_part = PartContent { file_chunks: Vec::new() };
        proof {
            assert(empty_part@ =~= Seq::<Seq<char>>::empty());
            assert(part_views(parts@.push(empty_part)) =~= part_views(parts@).push(empty_part@));
        }
        parts.push(empty_part);
    }
    parts
}

/// Extending a prefix of entries by one appends that entry's text.
proof fn lemma_entries_take_succ(entries: Seq<Seq<char>>, j: int)
    requires
        0 <= j < entries.len(),
    ensures
        entries_concat(entries.take(j + 1)) == entries_concat(entries.take(j)) + entries[j],
    decreases j,
{
    if j == 0 {
        assert(entries.take(1)[0] == entries[0]);
        assert(entries.take(1).skip(1) =~= Seq::<Seq<char>>::empty());
        assert(entries.take(0) =~= Seq::<Seq<char>>::empty());
        assert(entries_concat(Seq::<Seq<char>>::empty()) == Seq::<char>::empty());
        assert(entries_concat(entries.take(1)) =~= entries[0]);
        assert(entries_concat(entries.take(0)) + entries[0] =~= entries[0]);
    } else {
        lemma_entries_take_succ(entries.skip(1), j - 1);
        assert(entries.skip(1).take(j) =~= entries.take(j + 1).skip(1));
        assert(entries.skip(1).take(j - 1) =~= entries.take(j).skip(1));
        assert(entries.take(j + 1)[0] == entries[0]);
        assert(entries.take(j)[0] == entries[0]);
        assert(entries.skip(1)[j - 1] == entries[j]);
        assert(entries_concat(entries.take(j + 1)) =~= entries_concat(entries.take(j))
            + entries[j]);
    }
}

/// Renders every planned part: the global header opens the first part, the
/// global footer closes the last, each part is wrapped in its rendered part
/// header and footer, and every part but the last carries the rendered
/// pending notice.
pub fn assemble_multiple_parts(
    parts: Vec<PartContent>,
    part_template: &PartTemplate,
    header: &str,
    footer: &str,
) -> (r: Vec<String>)
    ensures
        string_views(r@) == spec_assemble(part_views(parts@), *part_template, header@, footer@),
{
    let ghost pviews = part_views(parts@);
    let total_parts = parts.len();
    let mut assembled_parts: Vec<String> = Vec::new();
    let mut i: usize = 0;
    while i < total_parts
        invariant
            i <= total_parts,
            total_parts == parts@.len(),
            pviews == part_views(parts@),
            pviews.len() == parts@.len(),
            string_views(assembled_parts@).len() == i as int,
            forall|j: int|
                0 <= j < i ==> string_views(assembled_parts@)[j] == spec_part_text(
                    pviews[j],
                    j as nat,
                    total_parts as nat,
                    *part_template,
                    header@,
                    footer@,
                ),
        decreases total_parts - i,
    {
        let mut part_content: Vec<char> = Vec::new();
        let part_header = replace_placeholders(part_template.header.as_str(), i + 1, total_parts);
        let phc = str_chars(part_header.as_str());
        append_chars(&mut part_content, &phc);
        part_content.push('\n');
        proof {
            assert(part_content@ =~= rendered(
                part_template.header@,
                (i + 1) as nat,
                total_parts as nat,
            ).push('\n'));
        }
        let ghost seg_a = part_content@;
        if i == 0 && !header.is_empty() {
            let hc = str_chars(header);
            append_chars(&mut part_content, &hc);
            part_content.push('\n');
            proof {
                assert(part_content@ =~= seg_a + header@.push('\n'));
            }
        }
        let ghost seg_b = part_content@;
        let part = &parts[i];
        let ghost entries = pviews[i as int];
        proof {
            assert(entries == string_views(part.file_chunks@));
            assert(entries.take(0) =~= Seq::<Seq<char>>::empty());
            assert(seg_b + entries_concat(entries.take(0)) =~= seg_b);
        }
        let mut j: usize = 0;
        while j < part.file_chunks.len()
            invariant
                j <= part.file_chunks@.len(),
                entries == string_views(part.file_chunks@),
                entries.len() == part.file_chunks@.len(),
                part_content@ == seg_b + entries_concat(entries.take(j as int)),
            decreases part.file_chunks@.len() - j,
        {
            proof {
                lemma_entries_take_succ(entries, j as int);
                assert(entries[j as int] == part.file_chunks@[j as int]@);
            }
            let cc = str_chars(part.file_chunks[j].as_str());
            append_chars(&mut part_content, &cc);
            j = j + 1;
            proof {
                assert(part_content@ =~= seg_b + entries_concat(entries.take(j as int)));
            }
        }
        proof {
            assert(entries.take(entries.len() as int) =~= entries);
        }
        let ghost seg_c = part_content@;
        if i == total_parts - 1 && !footer.is_empty() {
            let fc = str_chars(footer);
            append_chars(&mut part_content, &fc);
            part_content.push('\n');
            proof {
                assert(part_content@ =~= seg_c + footer@.push('\n'));
            }
        }
        let ghost seg_d = part_content@;
        let part_footer = replace_placeholders(part_template.footer.as_str(), i + 1, total_parts);
        let pfc = str_chars(part_footer.as_str());
        append_chars(&mut part_content, &pfc);
        let ghost seg_e = part_content@;
        proof {
            assert(seg_e =~= seg_d + rendered(
                part_template.footer@,
                (i + 1) as nat,
                total_parts as nat,
            ));
        }
        if i < total_parts - 1 && !part_template.pending.as_str().is_empty() {
            let pending_text = replace_placeholders(
                part_template.pending.as_str(),
                i + 1,
                total_parts,
            );
            let ptc = str_chars(pending_text.as_str());
            part_content.push('\n');
            append_chars(&mut part_content, &ptc);
            proof {
                assert(part_content@ =~= seg_e + (seq!['\n'] + rendered(
                    part_template.pending@,
                    (i + 1) as nat,
                    total_parts as nat,
                )));
            }
        }
        let s = chars_string(&part_content);
        let ghost pre = assembled_parts@;
        assembled_parts.push(s);
        proof {
            assert(part_content@ =~= spec_part_text(
                pviews[i as int],
                i as nat,
                total_parts as nat,
                *part_template,
                header@,
                footer@,
            ));
            assert(string_views(assembled_parts@) =~= string_views(pre).push(part_content@));
        }
        i = i + 1;
    }
    proof {
        assert(string_views(assembled_parts@) =~= spec_assemble(
            pviews,
            *part_template,
            header@,
            footer@,
        ));
    }
    assembled_parts
}

/// Splits the rendered content into delivery parts: one plain part when
/// header, files and footer fit the budget together, and otherwise a planned
/// sequence of parts, each wrapped in rendered part metadata.
pub fn split_into_parts(
    header: String,
    files: Vec<String>,
    footer: String,
    part_template: PartTemplate,
    max_part_chars: usize,
) -> (r: Vec<String>)
    requires
        plan_weight(header@, string_views(files@), footer@, part_template) <= usize::MAX / 2,
    ensures
        string_views(r@) == spec_split_into_parts(
            header@,
            string_views(files@),
            footer@,
            part_template,
            max_part_chars as nat,
        ),
{
    if fits_in_single_part(header.as_str(), &files, footer.as_str(), max_part_chars) {
        return assemble_single_part(header.as_str(), &files, footer.as_str());
    }
    let parts = create_split_plan(
        header.as_str(),
        &files,
        footer.as_str(),
        &part_template,
        max_part_chars,
    );
    assemble_multiple_parts(parts, &part_template, header.as_str(), footer.as_str())
}

} // verus!
