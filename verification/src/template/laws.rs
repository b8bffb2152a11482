//! Laws of the partitioning engine, stated over its specification and proved
//! once for all inputs: content preservation, the single-part fast path, part
//! count consistency, pending-text placement, line atomicity, and the
//! determinism of assembly.

use crate::template::split::{
    add_entry, chunk_budget, chunks_of_block, entries_concat, file_len, files_concat,
    files_weight, flush_if_nonempty, lemma_joined_weight, lemma_line_runs_flatten, line_runs,
    plan_state, push_chunks, rendered, run_len, spec_assemble, spec_fits_single, spec_overhead,
    spec_part_text, spec_plan, spec_single_part, spec_split_into_parts, PlanState,
};
use crate::template::template::PartTemplate;
use crate::text::{
    dec_digits, has_match, joined_lines, lemma_match_at, lemma_split_nonempty, nl_split,
    text_lines,
};
use vstd::prelude::*;

verus! {

/// What the planner emits for block `i`: the block followed by one newline
/// when it is kept whole, and its line-bounded chunks, each followed by one
/// newline, when it is too large to fit in any part alone.
pub open spec fn block_emission(
    h: Seq<char>,
    files: Seq<Seq<char>>,
    f: Seq<char>,
    oh: nat,
    max: nat,
    i: nat,
) -> Seq<char> {
    let st = plan_state(h, files, f, oh, max, i);
    let file = files[i as int];
    let fl = file_len(h, f, files.len(), i, file);
    if st.size + fl + oh > max && file.len() + oh > max {
        files_concat(chunks_of_block(file, chunk_budget(max, oh, h.len(), f.len())))
    } else {
        file.push('\n')
    }
}

/// The emissions of the first `k` blocks, concatenated in order.
pub open spec fn emissions_upto(
    h: Seq<char>,
    files: Seq<Seq<char>>,
    f: Seq<char>,
    oh: nat,
    max: nat,
    k: nat,
) -> Seq<char>
    decreases k,
{
    if k == 0 {
        Seq::empty()
    } else {
        emissions_upto(h, files, f, oh, max, (k - 1) as nat) + block_emission(
            h,
            files,
            f,
            oh,
            max,
            (k - 1) as nat,
        )
    }
}

/// All text a planner state holds: its closed parts' entries and the entries
/// of the part still being filled, in order.
pub open spec fn state_content(st: PlanState) -> Seq<char> {
    entries_concat(st.parts.flatten()) + entries_concat(st.cur)
}

/// Entry concatenation distributes over appending entry sequences.
proof fn lemma_entries_concat_concat(a: Seq<Seq<char>>, b: Seq<Seq<char>>)
    ensures
        entries_concat(a + b) == entries_concat(a) + entries_concat(b),
    decreases a.len(),
{
    if a.len() == 0 {
        assert(a + b =~= b);
        assert(entries_concat(a) == Seq::<char>::empty());
        assert(entries_concat(a) + entries_concat(b) =~= entries_concat(b));
    } else {
        lemma_entries_concat_concat(a.skip(1), b);
        assert((a + b).skip(1) =~= a.skip(1) + b);
        assert((a + b)[0] == a[0]);
        assert(a[0] + (entries_concat(a.skip(1)) + entries_concat(b)) =~= (a[0] + entries_concat(
            a.skip(1),
        )) + entries_concat(b));
    }
}

/// Appending one entry appends its text.
proof fn lemma_entries_concat_snoc(a: Seq<Seq<char>>, x: Seq<char>)
    ensures
        entries_concat(a.push(x)) == entries_concat(a) + x,
{
    assert(a.push(x) =~= a + seq![x]);
    lemma_entries_concat_concat(a, seq![x]);
    assert(seq![x].skip(1) =~= Seq::<Seq<char>>::empty());
    assert(seq![x][0] == x);
    assert(entries_concat(Seq::<Seq<char>>::empty()) == Seq::<char>::empty());
    assert(entries_concat(seq![x]) == x + entries_concat(seq![x].skip(1)));
    assert(entries_concat(seq![x]) =~= x);
}

/// Closing the current part moves text around but loses none.
proof fn lemma_state_content_flush(st: PlanState)
    ensures
        state_content(flush_if_nonempty(st)) == state_content(st),
{
    if st.cur.len() > 0 {
        st.parts.lemma_flatten_push(st.cur);
        lemma_entries_concat_concat(st.parts.flatten(), st.cur);
        assert(entries_concat(Seq::<Seq<char>>::empty()) == Seq::<char>::empty());
        assert(state_content(flush_if_nonempty(st)) =~= state_content(st));
    }
}

/// Adding an entry appends its text and its newline to the state's content.
proof fn lemma_state_content_add(st: PlanState, text: Seq<char>, w: nat)
    ensures
        state_content(add_entry(st, text, w)) == state_content(st) + text.push('\n'),
{
    lemma_entries_concat_snoc(st.cur, text.push('\n'));
    assert(state_content(add_entry(st, text, w)) =~= state_content(st) + text.push('\n'));
}

/// Pushing chunks appends each chunk and its newline to the state's content.
proof fn lemma_state_content_push_chunks(st: PlanState, chunks: Seq<Seq<char>>)
    ensures
        state_content(push_chunks(st, chunks)) == state_content(st) + files_concat(chunks),
    decreases chunks.len(),
{
    if chunks.len() == 0 {
        assert(state_content(st) + files_concat(chunks) =~= state_content(st));
    } else {
        let st1 = add_entry(flush_if_nonempty(st), chunks[0], chunks[0].len() + 1);
        lemma_state_content_flush(st);
        lemma_state_content_add(flush_if_nonempty(st), chunks[0], chunks[0].len() + 1);
        lemma_state_content_push_chunks(st1, chunks.skip(1));
        assert((state_content(st) + chunks[0].push('\n')) + files_concat(chunks.skip(1))
            =~= state_content(st) + (chunks[0].push('\n') + files_concat(chunks.skip(1))));
    }
}

/// The planner state after `k` blocks holds exactly their emissions.
proof fn lemma_state_content_upto(
    h: Seq<char>,
    files: Seq<Seq<char>>,
    f: Seq<char>,
    oh: nat,
    max: nat,
    k: nat,
)
    requires
        k <= files.len(),
    ensures
        state_content(plan_state(h, files, f, oh, max, k)) == emissions_upto(
            h,
            files,
            f,
            oh,
            max,
            k,
        ),
    decreases k,
{
    if k == 0 {
        assert(entries_concat(Seq::<Seq<char>>::empty()) == Seq::<char>::empty());
        assert(Seq::<Seq<Seq<char>>>::empty().flatten() =~= Seq::<Seq<char>>::empty());
        assert(state_content(plan_state(h, files, f, oh, max, 0)) =~= Seq::<char>::empty());
    } else {
        let i = (k - 1) as nat;
        lemma_state_content_upto(h, files, f, oh, max, i);
        let st = plan_state(h, files, f, oh, max, i);
        let file = files[i as int];
        let fl = file_len(h, f, files.len(), i, file);
        if st.size + fl + oh > max {
            if file.len() + oh > max {
                let chunks = chunks_of_block(file, chunk_budget(max, oh, h.len(), f.len()));
                lemma_state_content_push_chunks(st, chunks);
                lemma_state_content_flush(push_chunks(st, chunks));
            } else {
                lemma_state_content_flush(st);
                lemma_state_content_add(flush_if_nonempty(st), file, file.len() + 1);
            }
        } else {
            lemma_state_content_add(st, file, fl);
        }
    }
}

/// Content preservation at the plan level: the entries of every part of the
/// finished plan, concatenated in delivery order, are exactly the per-block
/// emissions concatenated in block order — no content is lost, duplicated or
/// reordered by planning.
pub proof fn lemma_plan_content(
    h: Seq<char>,
    files: Seq<Seq<char>>,
    f: Seq<char>,
    pt: PartTemplate,
    max: nat,
)
    ensures
        entries_concat(spec_plan(h, files, f, pt, max).flatten()) == emissions_upto(
            h,
            files,
            f,
            spec_overhead(pt),
            max,
            files.len(),
        ),
{
    let oh = spec_overhead(pt);
    lemma_state_content_upto(h, files, f, oh, max, files.len());
    let st = plan_state(h, files, f, oh, max, files.len());
    lemma_state_content_flush(st);
    let fin = flush_if_nonempty(st);
    assert(fin.cur.len() == 0);
    assert(entries_concat(fin.cur) == Seq::<char>::empty());
    assert(entries_concat(fin.parts.flatten()) =~= state_content(fin));
    if fin.parts.len() == 0 {
        assert(fin.parts.flatten() =~= Seq::<Seq<char>>::empty());
        let one = seq![Seq::<Seq<char>>::empty()];
        assert(one.first() == Seq::<Seq<char>>::empty());
        assert(one.drop_first() =~= Seq::<Seq<Seq<char>>>::empty());
        assert(Seq::<Seq<Seq<char>>>::empty().flatten() =~= Seq::<Seq<char>>::empty());
        assert(one.flatten() =~= Seq::<Seq<char>>::empty());
        assert(spec_plan(h, files, f, pt, max) == one);
    }
}

/// A joined run followed by a newline is the run's lines, each with its own
/// newline.
proof fn lemma_joined_newline(run: Seq<Seq<char>>)
    requires
        run.len() >= 1,
    ensures
        joined_lines(run).push('\n') == files_concat(run),
    decreases run.len(),
{
    if run.len() == 1 {
        assert(run.skip(1) =~= Seq::<Seq<char>>::empty());
        assert(files_concat(Seq::<Seq<char>>::empty()) == Seq::<char>::empty());
        assert(files_concat(run) == run[0].push('\n') + files_concat(run.skip(1)));
        assert(files_concat(run) =~= run[0].push('\n'));
        assert(joined_lines(run).push('\n') =~= run[0].push('\n'));
    } else {
        lemma_joined_newline(run.skip(1));
        assert(joined_lines(run) == run[0] + seq!['\n'] + joined_lines(run.skip(1)));
        assert(files_concat(run) == run[0].push('\n') + files_concat(run.skip(1)));
        assert((run[0] + seq!['\n'] + joined_lines(run.skip(1))).push('\n') =~= run[0].push('\n')
            + joined_lines(run.skip(1)).push('\n'));
    }
}

/// Block concatenation distributes over appending block sequences.
proof fn lemma_files_concat_concat(a: Seq<Seq<char>>, b: Seq<Seq<char>>)
    ensures
        files_concat(a + b) == files_concat(a) + files_concat(b),
    decreases a.len(),
{
    if a.len() == 0 {
        assert(a + b =~= b);
        assert(files_concat(a) == Seq::<char>::empty());
        assert(files_concat(a) + files_concat(b) =~= files_concat(b));
    } else {
        lemma_files_concat_concat(a.skip(1), b);
        assert((a + b).skip(1) =~= a.skip(1) + b);
        assert((a + b)[0] == a[0]);
        assert(a[0].push('\n') + (files_concat(a.skip(1)) + files_concat(b)) =~= (a[0].push('\n')
            + files_concat(a.skip(1))) + files_concat(b));
    }
}

/// Every greedy run holds at least one line.
proof fn lemma_runs_nonempty(ls: Seq<Seq<char>>, max: nat)
    ensures
        forall|j: int|
            0 <= j < line_runs(ls, max).len() ==> (#[trigger] line_runs(ls, max)[j]).len() >= 1,
    decreases ls.len(),
{
    if ls.len() == 0 {
    } else {
        let k0 = run_len(ls, max as int);
        let k: int = if k0 < 1 {
            1
        } else if k0 > ls.len() {
            ls.len() as int
        } else {
            k0 as int
        };
        lemma_runs_nonempty(ls.skip(k), max);
        assert forall|j: int|
            0 <= j < line_runs(ls, max).len() implies (#[trigger] line_runs(ls, max)[j]).len()
            >= 1 by {
            if j > 0 {
                assert(line_runs(ls, max)[j] == line_runs(ls.skip(k), max)[j - 1]);
            }
        }
    }
}

/// Concatenating the joined chunks of the runs, a newline after each, gives
/// the same text as concatenating all lines, a newline after each.
proof fn lemma_runs_concat(runs: Seq<Seq<Seq<char>>>)
    requires
        forall|j: int| 0 <= j < runs.len() ==> (#[trigger] runs[j]).len() >= 1,
    ensures
        files_concat(runs.map(|i: int, run: Seq<Seq<char>>| joined_lines(run))) == files_concat(
            runs.flatten(),
        ),
    decreases runs.len(),
{
    let mapped = runs.map(|i: int, run: Seq<Seq<char>>| joined_lines(run));
    if runs.len() == 0 {
        assert(runs.flatten() =~= Seq::<Seq<char>>::empty());
        assert(mapped.len() == 0);
    } else {
        assert(forall|j: int| 0 <= j < runs.skip(1).len() ==> runs.skip(1)[j] == runs[j + 1]);
        lemma_runs_concat(runs.skip(1));
        lemma_joined_newline(runs[0]);
        assert(runs.skip(1).map(|i: int, run: Seq<Seq<char>>| joined_lines(run)) =~= mapped.skip(
            1,
        ));
        assert(mapped[0] == joined_lines(runs[0]));
        assert(runs.flatten() == runs[0] + runs.skip(1).flatten());
        lemma_files_concat_concat(runs[0], runs.skip(1).flatten());
        assert(files_concat(mapped) == mapped[0].push('\n') + files_concat(mapped.skip(1)));
    }
}

/// Splitting at newlines and re-joining each piece with a newline restores
/// the text, with one newline appended.
proof fn lemma_nl_split_restore(s: Seq<char>)
    ensures
        files_concat(nl_split(s)) == s.push('\n'),
    decreases s.len(),
{
    let r0 = nl_split(s);
    if s.len() == 0 {
        assert(r0 == seq![s]);
        assert(r0[0] == s);
        assert(r0.skip(1) =~= Seq::<Seq<char>>::empty());
        assert(files_concat(Seq::<Seq<char>>::empty()) == Seq::<char>::empty());
        assert(files_concat(r0) == r0[0].push('\n') + files_concat(r0.skip(1)));
        assert(files_concat(r0) =~= s.push('\n'));
    } else if s[0] == '\n' {
        lemma_nl_split_restore(s.skip(1));
        assert(r0[0] == Seq::<char>::empty());
        assert(r0.skip(1) =~= nl_split(s.skip(1)));
        assert(files_concat(r0) == r0[0].push('\n') + files_concat(r0.skip(1)));
        assert(Seq::<char>::empty().push('\n') + s.skip(1).push('\n') =~= s.push('\n'));
    } else {
        lemma_nl_split_restore(s.skip(1));
        lemma_split_nonempty(s.skip(1));
        let r = nl_split(s.skip(1));
        assert(r0 == r.update(0, seq![s[0]] + r[0]));
        assert(r0[0] == seq![s[0]] + r[0]);
        assert(r0.skip(1) =~= r.skip(1));
        assert(files_concat(r0) == r0[0].push('\n') + files_concat(r0.skip(1)));
        assert(files_concat(r) == r[0].push('\n') + files_concat(r.skip(1)));
        assert((seq![s[0]] + r[0]).push('\n') + files_concat(r.skip(1)) =~= seq![s[0]] + (
        r[0].push('\n') + files_concat(r.skip(1))));
        assert(seq![s[0]] + s.skip(1).push('\n') =~= s.push('\n'));
    }
}

/// Concatenating a text's lines, a newline after each, restores the text,
/// except that a text not ending in a newline gains one.
proof fn lemma_lines_restore(s: Seq<char>)
    ensures
        files_concat(text_lines(s)) == if s.len() == 0 {
            Seq::<char>::empty()
        } else if s.last() == '\n' {
            s
        } else {
            s.push('\n')
        },
{
    if s.len() == 0 {
    } else if s.last() == '\n' {
        lemma_nl_split_restore(s.take(s.len() - 1));
        assert(s.take(s.len() - 1).push('\n') =~= s);
    } else {
        lemma_nl_split_restore(s);
    }
}

/// Line atomicity, restoring direction: an oversized block's chunks, each
/// with its trailing newline, concatenate back to the block itself, with one
/// newline appended when the block did not already end in one.
pub proof fn lemma_chunks_restore(b: Seq<char>, budget: nat)
    ensures
        files_concat(chunks_of_block(b, budget)) == if b.len() == 0 {
            Seq::<char>::empty()
        } else if b.last() == '\n' {
            b
        } else {
            b.push('\n')
        },
{
    let ls = text_lines(b);
    lemma_line_runs_flatten(ls, budget);
    lemma_runs_nonempty(ls, budget);
    lemma_runs_concat(line_runs(ls, budget));
    lemma_lines_restore(b);
}

/// Line atomicity, partition direction: the greedy runs behind the chunks
/// hold every line of the block, whole, in order, each line in exactly one
/// run, and each chunk is its run's lines joined by newlines.
pub proof fn lemma_line_atomicity(b: Seq<char>, budget: nat)
    ensures
        line_runs(text_lines(b), budget).flatten() == text_lines(b),
        chunks_of_block(b, budget) == line_runs(text_lines(b), budget).map(
            |i: int, run: Seq<Seq<char>>| joined_lines(run),
        ),
        forall|j: int|
            0 <= j < line_runs(text_lines(b), budget).len() ==> (#[trigger] line_runs(
                text_lines(b),
                budget,
            )[j]).len() >= 1,
{
    lemma_line_runs_flatten(text_lines(b), budget);
    lemma_runs_nonempty(text_lines(b), budget);
}

/// Content preservation, per block: what the planner emits for a block is the
/// block followed by one newline; a line-chunked block that already ended in
/// a newline is emitted exactly; an empty block on the chunked path emits
/// nothing. Nothing else is ever emitted, and blocks are emitted in order
/// (`lemma_plan_content`).
pub proof fn lemma_emission_shape(
    h: Seq<char>,
    files: Seq<Seq<char>>,
    f: Seq<char>,
    pt: PartTemplate,
    max: nat,
    i: nat,
)
    requires
        i < files.len(),
    ensures
        block_emission(h, files, f, spec_overhead(pt), max, i) == files[i as int].push('\n') || (
        files[i as int].len() > 0 && files[i as int].last() == '\n' && block_emission(
            h,
            files,
            f,
            spec_overhead(pt),
            max,
            i,
        ) == files[i as int]) || (files[i as int].len() == 0 && block_emission(
            h,
            files,
            f,
            spec_overhead(pt),
            max,
            i,
        ) == Seq::<char>::empty()),
{
    let oh = spec_overhead(pt);
    let st = plan_state(h, files, f, oh, max, i);
    let file = files[i as int];
    let fl = file_len(h, f, files.len(), i, file);
    if st.size + fl + oh > max && file.len() + oh > max {
        lemma_chunks_restore(file, chunk_budget(max, oh, h.len(), f.len()));
    }
}

/// The engine never returns zero parts: the fast path yields one part, and
/// the planner yields at least one part even for an empty block list, where
/// the single part carries only the header and footer.
pub proof fn lemma_never_zero_parts(
    h: Seq<char>,
    files: Seq<Seq<char>>,
    f: Seq<char>,
    pt: PartTemplate,
    max: nat,
)
    ensures
        spec_split_into_parts(h, files, f, pt, max).len() >= 1,
        spec_plan(h, files, f, pt, max).len() >= 1,
{
}

/// The single-part fast path: when the header, the blocks and the footer fit
/// the budget together, partitioning yields exactly one part — header, blocks
/// and footer joined by newlines — with no wrapper text at all.
pub proof fn lemma_single_part_fast_path(
    h: Seq<char>,
    files: Seq<Seq<char>>,
    f: Seq<char>,
    pt: PartTemplate,
    max: nat,
)
    requires
        spec_fits_single(h, files, f, max),
    ensures
        spec_split_into_parts(h, files, f, pt, max) == seq![spec_single_part(h, files, f)],
{
}

/// Part-count consistency: assembly yields exactly one rendered part per
/// planned part, and every part's text is rendered with the `total-parts`
/// placeholder standing for the length of the result sequence itself.
pub proof fn lemma_part_count_consistency(
    plans: Seq<Seq<Seq<char>>>,
    pt: PartTemplate,
    h: Seq<char>,
    f: Seq<char>,
)
    ensures
        spec_assemble(plans, pt, h, f).len() == plans.len(),
        forall|i: int|
            0 <= i < plans.len() ==> spec_assemble(plans, pt, h, f)[i] == spec_part_text(
                plans[i],
                i as nat,
                plans.len(),
                pt,
                h,
                f,
            ),
{
}

/// Pending-text presence: every part but the last carries the rendered
/// pending notice when the pending fragment is non-empty.
pub proof fn lemma_pending_present(
    plans: Seq<Seq<Seq<char>>>,
    pt: PartTemplate,
    h: Seq<char>,
    f: Seq<char>,
    i: int,
)
    requires
        0 <= i,
        i + 1 < plans.len(),
        pt.pending@.len() > 0,
    ensures
        has_match(
            spec_assemble(plans, pt, h, f)[i],
            rendered(pt.pending@, (i + 1) as nat, plans.len()),
        ),
{
    let total = plans.len();
    let part = spec_part_text(plans[i], i as nat, total, pt, h, f);
    let pat = rendered(pt.pending@, (i + 1) as nat, total);
    let x1 = rendered(pt.header@, (i + 1) as nat, total).push('\n');
    let x2: Seq<char> = if i == 0 && h.len() > 0 {
        h.push('\n')
    } else {
        Seq::empty()
    };
    let x3 = entries_concat(plans[i]);
    let x4: Seq<char> = if i + 1 == total && f.len() > 0 {
        f.push('\n')
    } else {
        Seq::empty()
    };
    let x5 = rendered(pt.footer@, (i + 1) as nat, total);
    let x6 = seq!['\n'] + pat;
    assert(part == x1 + x2 + x3 + x4 + x5 + x6);
    let k: int = (x1.len() + x2.len() + x3.len() + x4.len() + x5.len() + 1) as int;
    assert(part.subrange(k, k + pat.len()) =~= pat);
    lemma_match_at(part, pat, k);
}

/// Pending-text exclusion: the last part's text does not depend on the
/// pending fragment at all — assembling the same plan under two templates
/// that differ only in their pending fragment gives the same last part.
pub proof fn lemma_pending_absent_from_last(
    plans: Seq<Seq<Seq<char>>>,
    pt1: PartTemplate,
    pt2: PartTemplate,
    h: Seq<char>,
    f: Seq<char>,
)
    requires
        plans.len() >= 1,
        pt1.header == pt2.header,
        pt1.footer == pt2.footer,
    ensures
        spec_assemble(plans, pt1, h, f).last() == spec_assemble(plans, pt2, h, f).last(),
{
    let i = plans.len() - 1;
    assert(spec_assemble(plans, pt1, h, f)[i as int] == spec_part_text(
        plans[i as int],
        i as nat,
        plans.len(),
        pt1,
        h,
        f,
    ));
    assert(spec_assemble(plans, pt2, h, f)[i as int] == spec_part_text(
        plans[i as int],
        i as nat,
        plans.len(),
        pt2,
        h,
        f,
    ));
}

/// Whether `e` is a whole line of one of the blocks, emitted with its
/// newline, that alone outweighs the chunk budget: the one shape of entry the
/// planner knowingly lets exceed the budget rather than cutting a line.
pub open spec fn lone_long_line(e: Seq<char>, files: Seq<Seq<char>>, budget: nat) -> bool {
    exists|b: int, t: int|
        0 <= b < files.len() && 0 <= t < text_lines(files[b]).len() && e == (#[trigger] text_lines(
            files[b],
        )[t]).push('\n') && text_lines(files[b])[t].len() + 1 > budget
}

/// Whether one planned entry honours the budget: with the wrapper overhead it
/// stays within the budget (plus the one character of its trailing newline),
/// or it is a lone line too long for any part.
pub open spec fn entry_ok(
    e: Seq<char>,
    files: Seq<Seq<char>>,
    oh: nat,
    max: nat,
    budget: nat,
) -> bool {
    e.len() + oh <= max + 1 || lone_long_line(e, files, budget)
}

/// Every entry of every closed part honours the budget.
pub open spec fn parts_ok(
    parts: Seq<Seq<Seq<char>>>,
    files: Seq<Seq<char>>,
    oh: nat,
    max: nat,
    budget: nat,
) -> bool {
    forall|pi: int, ei: int|
        0 <= pi < parts.len() && 0 <= ei < parts[pi].len() ==> entry_ok(
            #[trigger] parts[pi][ei],
            files,
            oh,
            max,
            budget,
        )
}

/// Every entry of the part being filled honours the budget.
pub open spec fn cur_ok(
    cur: Seq<Seq<char>>,
    files: Seq<Seq<char>>,
    oh: nat,
    max: nat,
    budget: nat,
) -> bool {
    forall|ei: int| 0 <= ei < cur.len() ==> entry_ok(#[trigger] cur[ei], files, oh, max, budget)
}

/// Every entry the planner state holds honours the budget.
pub open spec fn state_ok(
    st: PlanState,
    files: Seq<Seq<char>>,
    oh: nat,
    max: nat,
    budget: nat,
) -> bool {
    parts_ok(st.parts, files, oh, max, budget) && cur_ok(st.cur, files, oh, max, budget)
}

/// The greedy run the chunker takes stays within the budget.
proof fn lemma_run_len_weight(ls: Seq<Seq<char>>, budget: int)
    requires
        budget >= 0,
    ensures
        run_len(ls, budget) <= ls.len(),
        files_weight(ls.take(run_len(ls, budget) as int)) <= budget,
    decreases ls.len(),
{
    if ls.len() == 0 {
        assert(ls.take(0) =~= Seq::<Seq<char>>::empty());
    } else if ls[0].len() + 1 > budget {
        assert(ls.take(0) =~= Seq::<Seq<char>>::empty());
    } else {
        let w0 = ls[0].len() + 1;
        lemma_run_len_weight(ls.skip(1), budget - w0);
        let r = run_len(ls.skip(1), budget - w0) as int;
        assert(ls.take(r + 1)[0] == ls[0]);
        assert(ls.take(r + 1).skip(1) =~= ls.skip(1).take(r));
        assert(files_weight(ls.take(r + 1)) == w0 + files_weight(ls.skip(1).take(r)));
    }
}

/// Every greedy run either fits the budget or is one line too long for it —
/// a whole line of the input, never a fragment of one.
proof fn lemma_runs_ok(ls: Seq<Seq<char>>, budget: nat)
    ensures
        forall|j: int|
            0 <= j < line_runs(ls, budget).len() ==> (#[trigger] line_runs(ls, budget)[j]).len()
                >= 1 && (files_weight(line_runs(ls, budget)[j]) <= budget || (line_runs(
                ls,
                budget,
            )[j].len() == 1 && exists|t: int|
                0 <= t < ls.len() && ls[t] == line_runs(ls, budget)[j][0] && ls[t].len() + 1
                    > budget)),
    decreases ls.len(),
{
    if ls.len() == 0 {
    } else {
        let k0 = run_len(ls, budget as int);
        lemma_run_len_weight(ls, budget as int);
        let k: int = if k0 < 1 {
            1
        } else {
            k0 as int
        };
        lemma_runs_ok(ls.skip(k), budget);
        let runs = line_runs(ls, budget);
        assert(runs == seq![ls.take(k)] + line_runs(ls.skip(k), budget));
        assert forall|j: int|
            0 <= j < runs.len() implies (#[trigger] runs[j]).len() >= 1 && (files_weight(runs[j])
            <= budget || (runs[j].len() == 1 && exists|t: int|
            0 <= t < ls.len() && ls[t] == runs[j][0] && ls[t].len() + 1 > budget)) by {
            if j == 0 {
                assert(runs[0] == ls.take(k));
                if k0 >= 1 {
                    assert(files_weight(runs[0]) <= budget);
                } else {
                    assert(ls[0].len() + 1 > budget);
                    assert(ls.take(1)[0] == ls[0]);
                    assert(0 <= 0 < ls.len() && ls[0] == runs[0][0] && ls[0].len() + 1 > budget);
                }
            } else {
                let rest = line_runs(ls.skip(k), budget);
                assert(runs[j] == rest[j - 1]);
                if !(files_weight(rest[j - 1]) <= budget) {
                    let t = choose|t: int|
                        0 <= t < ls.skip(k).len() && ls.skip(k)[t] == rest[j - 1][0] && ls.skip(
                            k,
                        )[t].len() + 1 > budget;
                    assert(ls.skip(k)[t] == ls[t + k]);
                    assert(0 <= t + k < ls.len() && ls[t + k] == runs[j][0] && ls[t + k].len() + 1
                        > budget);
                }
            }
        }
    }
}

/// Every chunk of an oversized block, with its trailing newline, honours the
/// budget left for chunks, or is one whole line too long for it.
proof fn lemma_block_chunks_ok(
    files: Seq<Seq<char>>,
    b: int,
    oh: nat,
    max: nat,
    budget: nat,
)
    requires
        0 <= b < files.len(),
        budget + oh <= max || budget == 0,
    ensures
        forall|ci: int|
            0 <= ci < chunks_of_block(files[b], budget).len() ==> entry_ok(
                (#[trigger] chunks_of_block(files[b], budget)[ci]).push('\n'),
                files,
                oh,
                max,
                budget,
            ),
{
    let ls = text_lines(files[b]);
    let runs = line_runs(ls, budget);
    lemma_runs_ok(ls, budget);
    assert forall|ci: int|
        0 <= ci < chunks_of_block(files[b], budget).len() implies entry_ok(
        (#[trigger] chunks_of_block(files[b], budget)[ci]).push('\n'),
        files,
        oh,
        max,
        budget,
    ) by {
        let run = runs[ci];
        let e = chunks_of_block(files[b], budget)[ci].push('\n');
        assert(chunks_of_block(files[b], budget)[ci] == joined_lines(run));
        lemma_joined_weight(run);
        if files_weight(run) <= budget {
            assert(files_weight(run) >= run[0].len() + 1);
            assert(e.len() == files_weight(run));
            assert(e.len() + oh <= max + 1);
        } else {
            let t = choose|t: int|
                0 <= t < ls.len() && ls[t] == run[0] && ls[t].len() + 1 > budget;
            assert(run.len() == 1);
            assert(joined_lines(run) == run[0]);
            assert(e == ls[t].push('\n'));
            assert(lone_long_line(e, files, budget));
        }
    }
}

/// Closing the current part moves its entries into the closed parts.
proof fn lemma_flush_ok(st: PlanState, files: Seq<Seq<char>>, oh: nat, max: nat, budget: nat)
    requires
        state_ok(st, files, oh, max, budget),
    ensures
        state_ok(flush_if_nonempty(st), files, oh, max, budget),
{
    if st.cur.len() > 0 {
        let st2 = flush_if_nonempty(st);
        assert forall|pi: int, ei: int|
            0 <= pi < st2.parts.len() && 0 <= ei < st2.parts[pi].len() implies entry_ok(
            #[trigger] st2.parts[pi][ei],
            files,
            oh,
            max,
            budget,
        ) by {
            if pi < st.parts.len() {
                assert(st2.parts[pi] == st.parts[pi]);
            } else {
                assert(st2.parts[pi] == st.cur);
            }
        }
    }
}

/// Pushing chunks whose entries honour the budget keeps the state honouring
/// it.
proof fn lemma_push_chunks_ok(
    st: PlanState,
    chunks: Seq<Seq<char>>,
    files: Seq<Seq<char>>,
    oh: nat,
    max: nat,
    budget: nat,
)
    requires
        state_ok(st, files, oh, max, budget),
        forall|ci: int|
            0 <= ci < chunks.len() ==> entry_ok(
                (#[trigger] chunks[ci]).push('\n'),
                files,
                oh,
                max,
                budget,
            ),
    ensures
        state_ok(push_chunks(st, chunks), files, oh, max, budget),
    decreases chunks.len(),
{
    if chunks.len() == 0 {
    } else {
        lemma_flush_ok(st, files, oh, max, budget);
        let st1 = add_entry(flush_if_nonempty(st), chunks[0], chunks[0].len() + 1);
        assert(entry_ok(chunks[0].push('\n'), files, oh, max, budget));
        assert forall|ei: int| 0 <= ei < st1.cur.len() implies entry_ok(
            #[trigger] st1.cur[ei],
            files,
            oh,
            max,
            budget,
        ) by {
            assert(st1.cur[ei] == chunks[0].push('\n'));
        }
        assert(forall|ci: int|
            0 <= ci < chunks.skip(1).len() ==> (#[trigger] chunks.skip(1)[ci]) == chunks[ci + 1]);
        lemma_push_chunks_ok(st1, chunks.skip(1), files, oh, max, budget);
    }
}

/// Along the plan, every entry placed so far honours the budget.
proof fn lemma_plan_state_ok(
    h: Seq<char>,
    files: Seq<Seq<char>>,
    f: Seq<char>,
    oh: nat,
    max: nat,
    k: nat,
)
    requires
        k <= files.len(),
    ensures
        state_ok(
            plan_state(h, files, f, oh, max, k),
            files,
            oh,
            max,
            chunk_budget(max, oh, h.len(), f.len()),
        ),
    decreases k,
{
    let budget = chunk_budget(max, oh, h.len(), f.len());
    if k == 0 {
    } else {
        let i = (k - 1) as nat;
        lemma_plan_state_ok(h, files, f, oh, max, i);
        let st = plan_state(h, files, f, oh, max, i);
        let file = files[i as int];
        let fl = file_len(h, f, files.len(), i, file);
        if st.size + fl + oh > max {
            if file.len() + oh > max {
                let chunks = chunks_of_block(file, budget);
                lemma_block_chunks_ok(files, i as int, oh, max, budget);
                assert(budget + oh <= max || budget == 0);
                lemma_push_chunks_ok(st, chunks, files, oh, max, budget);
                lemma_flush_ok(push_chunks(st, chunks), files, oh, max, budget);
            } else {
                lemma_flush_ok(st, files, oh, max, budget);
                let st1 = flush_if_nonempty(st);
                let st2 = add_entry(st1, file, file.len() + 1);
                assert(entry_ok(file.push('\n'), files, oh, max, budget));
                assert forall|ei: int| 0 <= ei < st2.cur.len() implies entry_ok(
                    #[trigger] st2.cur[ei],
                    files,
                    oh,
                    max,
                    budget,
                ) by {
                    if ei < st1.cur.len() {
                        assert(st2.cur[ei] == st1.cur[ei]);
                    } else {
                        assert(st2.cur[ei] == file.push('\n'));
                    }
                }
            }
        } else {
            let st2 = add_entry(st, file, fl);
            assert(file.len() + 1 <= fl);
            assert(entry_ok(file.push('\n'), files, oh, max, budget));
            assert forall|ei: int| 0 <= ei < st2.cur.len() implies entry_ok(
                #[trigger] st2.cur[ei],
                files,
                oh,
                max,
                budget,
            ) by {
                if ei < st.cur.len() {
                    assert(st2.cur[ei] == st.cur[ei]);
                } else {
                    assert(st2.cur[ei] == file.push('\n'));
                }
            }
        }
    }
}

/// Budget compliance: every entry of every planned part, wrapped in the
/// estimated part overhead, stays within the budget (up to the one character
/// of the newline the planner appends after a block placed alone) — except an
/// entry that is a single whole line of a block, too long for the budget left
/// to chunks, which is emitted whole rather than truncated.
pub proof fn lemma_budget_compliance(
    h: Seq<char>,
    files: Seq<Seq<char>>,
    f: Seq<char>,
    pt: PartTemplate,
    max: nat,
)
    ensures
        forall|pi: int, ei: int|
            0 <= pi < spec_plan(h, files, f, pt, max).len() && 0 <= ei < spec_plan(
                h,
                files,
                f,
                pt,
                max,
            )[pi].len() ==> entry_ok(
                #[trigger] spec_plan(h, files, f, pt, max)[pi][ei],
                files,
                spec_overhead(pt),
                max,
                chunk_budget(max, spec_overhead(pt), h.len(), f.len()),
            ),
{
    let oh = spec_overhead(pt);
    let budget = chunk_budget(max, oh, h.len(), f.len());
    lemma_plan_state_ok(h, files, f, oh, max, files.len());
    let st = plan_state(h, files, f, oh, max, files.len());
    lemma_flush_ok(st, files, oh, max, budget);
    let fin = flush_if_nonempty(st);
    let plan = spec_plan(h, files, f, pt, max);
    assert forall|pi: int, ei: int|
        0 <= pi < plan.len() && 0 <= ei < plan[pi].len() implies entry_ok(
        #[trigger] plan[pi][ei],
        files,
        oh,
        max,
        budget,
    ) by {
        if fin.parts.len() == 0 {
            assert(plan == seq![Seq::<Seq<char>>::empty()]);
            assert(plan[pi].len() == 0);
        } else {
            assert(plan == fin.parts);
        }
    }
}

/// A decimal digit character.
pub open spec fn is_digit(c: char) -> bool {
    48 <= c as u32 <= 57
}

/// A text of digits only.
pub open spec fn all_digits(s: Seq<char>) -> bool {
    forall|k: int| 0 <= k < s.len() ==> is_digit(#[trigger] s[k])
}

/// A text free of digits.
pub open spec fn no_digits(s: Seq<char>) -> bool {
    forall|k: int| 0 <= k < s.len() ==> !is_digit(#[trigger] s[k])
}

/// Decimal renderings hold at least one character, all of them digits.
proof fn lemma_dec_digits_shape(n: nat)
    ensures
        dec_digits(n).len() >= 1,
        all_digits(dec_digits(n)),
    decreases n,
{
    if n < 10 {
        assert(dec_digits(n) == seq![crate::text::digit_char(n as int)]);
    } else {
        lemma_dec_digits_shape(n / 10);
        let r = dec_digits(n / 10);
        let d = crate::text::digit_char((n % 10) as int);
        assert forall|k: int| 0 <= k < dec_digits(n).len() implies is_digit(
            #[trigger] dec_digits(n)[k],
        ) by {
            if k < r.len() {
                assert(dec_digits(n)[k] == r[k]);
            } else {
                assert(dec_digits(n)[k] == d);
            }
        }
    }
}

/// A count of at most nine hundred ninety-nine renders in at most three
/// digits.
proof fn lemma_dec_digits_len(n: nat)
    requires
        n <= 999,
    ensures
        dec_digits(n).len() <= 3,
{
    if n < 10 {
    } else if n < 100 {
        assert(n / 10 < 10) by (nonlinear_arith)
            requires
                n < 100,
        ;
        assert(dec_digits(n / 10).len() == 1);
        assert(dec_digits(n).len() == 2);
    } else {
        assert(n / 10 < 100) by (nonlinear_arith)
            requires
                n <= 999,
        ;
        assert(n / 10 >= 10) by (nonlinear_arith)
            requires
                n >= 100,
        ;
        assert(n / 10 / 10 < 10) by (nonlinear_arith)
            requires
                n / 10 < 100,
        ;
        assert(dec_digits(n / 10 / 10).len() == 1);
        assert(dec_digits(n / 10).len() == 2);
        assert(dec_digits(n).len() == 3);
    }
}

/// A digit-free pattern cannot match a window holding a digit; scanning over
/// a digit-only prefix finds nothing.
proof fn lemma_count_over_digits(x: Seq<char>, u: Seq<char>, pat: Seq<char>)
    requires
        no_digits(pat),
        all_digits(x),
    ensures
        crate::text::match_count(x + u, pat) == crate::text::match_count(u, pat),
    decreases x.len(),
{
    if x.len() == 0 {
        assert(x + u =~= u);
    } else if pat.len() == 0 {
    } else {
        let s = x + u;
        if s.len() < pat.len() {
            assert(u.len() < pat.len());
        } else {
            assert(s.take(pat.len() as int)[0] == x[0]);
            assert(s.take(pat.len() as int) != pat) by {
                if s.take(pat.len() as int) == pat {
                    assert(pat[0] == x[0]);
                    assert(is_digit(pat[0]));
                }
            }
            assert(s.skip(1) =~= x.skip(1) + u);
            lemma_count_over_digits(x.skip(1), u, pat);
        }
    }
}

/// Matches of a digit-free pattern split around a digit-only insertion: the
/// count of the whole is the count before it plus the count after it.
proof fn lemma_count_split(w: Seq<char>, x: Seq<char>, u: Seq<char>, pat: Seq<char>)
    requires
        pat.len() > 0,
        no_digits(pat),
        all_digits(x),
        x.len() > 0,
    ensures
        crate::text::match_count(w + x + u, pat) == crate::text::match_count(w, pat)
            + crate::text::match_count(u, pat),
    decreases w.len(),
{
    if w.len() == 0 {
        assert(w + x + u =~= x + u);
        lemma_count_over_digits(x, u, pat);
    } else {
        let s = w + x + u;
        if s.len() < pat.len() {
            assert(w.len() < pat.len());
            assert(u.len() < pat.len());
        } else if s.take(pat.len() as int) == pat {
            assert(pat.len() <= w.len()) by {
                if pat.len() > w.len() {
                    assert(s.take(pat.len() as int)[w.len() as int] == x[0]);
                    assert(is_digit(pat[w.len() as int]));
                }
            }
            assert(w.take(pat.len() as int) =~= s.take(pat.len() as int));
            assert(s.skip(pat.len() as int) =~= w.skip(pat.len() as int) + x + u);
            lemma_count_split(w.skip(pat.len() as int), x, u, pat);
        } else {
            if w.len() >= pat.len() {
                assert(w.take(pat.len() as int) =~= s.take(pat.len() as int));
            } else {
                assert(crate::text::match_count(w, pat) == 0);
            }
            assert(s.skip(1) =~= w.skip(1) + x + u);
            lemma_count_split(w.skip(1), x, u, pat);
            if w.len() >= pat.len() {
            } else {
                assert(crate::text::match_count(w.skip(1), pat) == 0);
            }
        }
    }
}

/// Replacing one pattern by digit texts of any spelling leaves the match
/// count of a digit-free pattern unchanged.
proof fn lemma_count_stable(
    w: Seq<char>,
    s: Seq<char>,
    p1: Seq<char>,
    ra: Seq<char>,
    rb: Seq<char>,
    pat: Seq<char>,
)
    requires
        p1.len() > 0,
        ra.len() > 0,
        rb.len() > 0,
        all_digits(ra),
        all_digits(rb),
        pat.len() > 0,
        no_digits(pat),
    ensures
        crate::text::match_count(w + crate::text::replaced(s, p1, ra), pat)
            == crate::text::match_count(w + crate::text::replaced(s, p1, rb), pat),
    decreases s.len(),
{
    if s.len() < p1.len() {
    } else if s.take(p1.len() as int) == p1 {
        let ua = crate::text::replaced(s.skip(p1.len() as int), p1, ra);
        let ub = crate::text::replaced(s.skip(p1.len() as int), p1, rb);
        assert(w + (ra + ua) =~= w + ra + ua);
        assert(w + (rb + ub) =~= w + rb + ub);
        lemma_count_split(w, ra, ua, pat);
        lemma_count_split(w, rb, ub, pat);
        lemma_count_stable(Seq::empty(), s.skip(p1.len() as int), p1, ra, rb, pat);
        assert(Seq::<char>::empty() + ua =~= ua);
        assert(Seq::<char>::empty() + ub =~= ub);
    } else {
        let ua = crate::text::replaced(s.skip(1), p1, ra);
        let ub = crate::text::replaced(s.skip(1), p1, rb);
        assert(w + (seq![s[0]] + ua) =~= w.push(s[0]) + ua);
        assert(w + (seq![s[0]] + ub) =~= w.push(s[0]) + ub);
        lemma_count_stable(w.push(s[0]), s.skip(1), p1, ra, rb, pat);
    }
}

/// Replacement splits around a digit-only insertion when the pattern is
/// digit-free: the text before and after are replaced independently.
proof fn lemma_replaced_split(w: Seq<char>, x: Seq<char>, u: Seq<char>, pat: Seq<char>, rep: Seq<char>)
    requires
        pat.len() > 0,
        no_digits(pat),
        all_digits(x),
        x.len() > 0,
    ensures
        crate::text::replaced(w + x + u, pat, rep) == crate::text::replaced(w, pat, rep) + x
            + crate::text::replaced(u, pat, rep),
    decreases w.len() + x.len(),
{
    let s = w + x + u;
    if w.len() == 0 {
        {
            if s.len() < pat.len() {
                assert(u.len() < pat.len());
                assert(crate::text::replaced(w, pat, rep) + x + crate::text::replaced(u, pat, rep)
                    =~= s);
            } else {
                assert(s.take(pat.len() as int)[0] == x[0]);
                assert(s.take(pat.len() as int) != pat) by {
                    if s.take(pat.len() as int) == pat {
                        assert(is_digit(pat[0]));
                    }
                }
                assert(s.skip(1) =~= x.skip(1) + u);
                if x.len() == 1 {
                    assert(x.skip(1) + u =~= u);
                    assert(seq![s[0]] + crate::text::replaced(u, pat, rep)
                        =~= crate::text::replaced(Seq::<char>::empty(), pat, rep) + x
                        + crate::text::replaced(u, pat, rep));
                } else {
                    assert(Seq::<char>::empty() + x.skip(1) + u =~= x.skip(1) + u);
                    lemma_replaced_split(Seq::empty(), x.skip(1), u, pat, rep);
                    assert(seq![s[0]] + (crate::text::replaced(Seq::empty(), pat, rep) + x.skip(1)
                        + crate::text::replaced(u, pat, rep)) =~= crate::text::replaced(
                        Seq::<char>::empty(),
                        pat,
                        rep,
                    ) + x + crate::text::replaced(u, pat, rep));
                }
            }
        }
    } else {
        if s.len() < pat.len() {
            assert(w.len() < pat.len());
            assert(crate::text::replaced(w, pat, rep) == w);
            assert(u.len() < pat.len());
            assert(crate::text::replaced(u, pat, rep) == u);
            assert(crate::text::replaced(w, pat, rep) + x + crate::text::replaced(u, pat, rep)
                =~= s);
        } else if s.take(pat.len() as int) == pat {
            assert(pat.len() <= w.len()) by {
                if pat.len() > w.len() {
                    assert(s.take(pat.len() as int)[w.len() as int] == x[0]);
                    assert(is_digit(pat[w.len() as int]));
                }
            }
            assert(w.take(pat.len() as int) =~= s.take(pat.len() as int));
            assert(s.skip(pat.len() as int) =~= w.skip(pat.len() as int) + x + u);
            lemma_replaced_split(w.skip(pat.len() as int), x, u, pat, rep);
            assert(rep + (crate::text::replaced(w.skip(pat.len() as int), pat, rep) + x
                + crate::text::replaced(u, pat, rep)) =~= (rep + crate::text::replaced(
                w.skip(pat.len() as int),
                pat,
                rep,
            )) + x + crate::text::replaced(u, pat, rep));
        } else {
            if w.len() >= pat.len() {
                assert(w.take(pat.len() as int) =~= s.take(pat.len() as int));
            } else {
                assert(crate::text::replaced(w, pat, rep) == w);
                assert(w.skip(1).len() < pat.len());
                assert(crate::text::replaced(w.skip(1), pat, rep) == w.skip(1));
                assert(seq![w[0]] + w.skip(1) =~= w);
                assert(crate::text::replaced(w, pat, rep) == seq![w[0]] + crate::text::replaced(
                    w.skip(1),
                    pat,
                    rep,
                ));
            }
            assert(s.skip(1) =~= w.skip(1) + x + u);
            lemma_replaced_split(w.skip(1), x, u, pat, rep);
            assert(seq![s[0]] + (crate::text::replaced(w.skip(1), pat, rep) + x
                + crate::text::replaced(u, pat, rep)) =~= (seq![w[0]] + crate::text::replaced(
                w.skip(1),
                pat,
                rep,
            )) + x + crate::text::replaced(u, pat, rep));
        }
    }
}

/// Replacement after an inner digit replacement: the match count of a
/// digit-free pattern after the outer replacement is unchanged when the inner
/// digits change spelling.
proof fn lemma_count_stable_two(
    w: Seq<char>,
    s: Seq<char>,
    p1: Seq<char>,
    ra: Seq<char>,
    rb: Seq<char>,
    p2: Seq<char>,
    r2: Seq<char>,
    pat: Seq<char>,
)
    requires
        p1.len() > 0,
        ra.len() > 0,
        rb.len() > 0,
        all_digits(ra),
        all_digits(rb),
        p2.len() > 0,
        no_digits(p2),
        pat.len() > 0,
        no_digits(pat),
        all_digits(r2),
        r2.len() > 0,
    ensures
        crate::text::match_count(
            crate::text::replaced(w + crate::text::replaced(s, p1, ra), p2, r2),
            pat,
        ) == crate::text::match_count(
            crate::text::replaced(w + crate::text::replaced(s, p1, rb), p2, r2),
            pat,
        ),
    decreases s.len(),
{
    if s.len() < p1.len() {
    } else if s.take(p1.len() as int) == p1 {
        let ua = crate::text::replaced(s.skip(p1.len() as int), p1, ra);
        let ub = crate::text::replaced(s.skip(p1.len() as int), p1, rb);
        assert(w + (ra + ua) =~= w + ra + ua);
        assert(w + (rb + ub) =~= w + rb + ub);
        lemma_replaced_split(w, ra, ua, p2, r2);
        lemma_replaced_split(w, rb, ub, p2, r2);
        let rw = crate::text::replaced(w, p2, r2);
        lemma_count_split(rw, ra, crate::text::replaced(ua, p2, r2), pat);
        lemma_count_split(rw, rb, crate::text::replaced(ub, p2, r2), pat);
        lemma_count_stable_two(Seq::empty(), s.skip(p1.len() as int), p1, ra, rb, p2, r2, pat);
        assert(Seq::<char>::empty() + ua =~= ua);
        assert(Seq::<char>::empty() + ub =~= ub);
    } else {
        let ua = crate::text::replaced(s.skip(1), p1, ra);
        let ub = crate::text::replaced(s.skip(1), p1, rb);
        assert(w + (seq![s[0]] + ua) =~= w.push(s[0]) + ua);
        assert(w + (seq![s[0]] + ub) =~= w.push(s[0]) + ub);
        lemma_count_stable_two(w.push(s[0]), s.skip(1), p1, ra, rb, p2, r2, pat);
    }
}

/// The length of a replacement, from the match count: each occurrence trades
/// the pattern's length for the replacement's.
proof fn lemma_replaced_len_formula(s: Seq<char>, pat: Seq<char>, rep: Seq<char>)
    requires
        pat.len() > 0,
    ensures
        crate::text::replaced(s, pat, rep).len() == s.len() + (crate::text::match_count(s, pat)
            as int) * (rep.len() as int - pat.len() as int),
    decreases s.len(),
{
    if s.len() < pat.len() {
        assert(crate::text::replaced(s, pat, rep) == s);
        assert(crate::text::match_count(s, pat) == 0);
    } else if s.take(pat.len() as int) == pat {
        lemma_replaced_len_formula(s.skip(pat.len() as int), pat, rep);
        let c = crate::text::match_count(s.skip(pat.len() as int), pat) as int;
        let d = rep.len() as int - pat.len() as int;
        assert(crate::text::match_count(s, pat) == c + 1);
        assert(crate::text::replaced(s, pat, rep).len() == rep.len() + crate::text::replaced(
            s.skip(pat.len() as int),
            pat,
            rep,
        ).len());
        assert(s.skip(pat.len() as int).len() == s.len() - pat.len());
        assert(crate::text::replaced(s.skip(pat.len() as int), pat, rep).len() == s.len()
            - pat.len() + c * d);
        assert((c + 1) * d == c * d + d) by (nonlinear_arith);
        assert(rep.len() + (s.len() - pat.len() + c * d) == s.len() + (c * d + d));
        assert(crate::text::replaced(s, pat, rep).len() == s.len() + (c + 1) * d);
    } else {
        lemma_replaced_len_formula(s.skip(1), pat, rep);
        let c1 = crate::text::match_count(s.skip(1), pat) as int;
        let d = rep.len() as int - pat.len() as int;
        assert(crate::text::match_count(s, pat) == c1);
        assert(crate::text::replaced(s, pat, rep).len() == 1 + crate::text::replaced(
            s.skip(1),
            pat,
            rep,
        ).len());
        assert(crate::text::replaced(s.skip(1), pat, rep).len() == s.len() - 1 + c1 * d);
        assert(crate::text::replaced(s, pat, rep).len() == s.len() + c1 * d);
    }
}

/// A smaller or equal replacement keeps the replaced text no longer, given
/// equal match counts.
proof fn lemma_len_le_by_counts(
    xa: Seq<char>,
    xb: Seq<char>,
    pat: Seq<char>,
    rep_a: Seq<char>,
    rep_b: Seq<char>,
)
    requires
        pat.len() > 0,
        xa.len() <= xb.len(),
        rep_a.len() <= rep_b.len(),
        crate::text::match_count(xa, pat) == crate::text::match_count(xb, pat),
    ensures
        crate::text::replaced(xa, pat, rep_a).len() <= crate::text::replaced(xb, pat, rep_b).len(),
{
    lemma_replaced_len_formula(xa, pat, rep_a);
    lemma_replaced_len_formula(xb, pat, rep_b);
    let c = crate::text::match_count(xa, pat) as int;
    let da = rep_a.len() as int - pat.len() as int;
    let db = rep_b.len() as int - pat.len() as int;
    assert(c * da <= c * db) by (nonlinear_arith)
        requires
            c >= 0,
            da <= db,
    ;
}

/// The placeholders hold no digits, and the sentinel is three digits.
proof fn lemma_placeholder_shapes()
    ensures
        no_digits(crate::template::split::ph_number()),
        no_digits(crate::template::split::ph_total()),
        no_digits(crate::template::split::ph_remaining()),
        crate::template::split::ph_number().len() > 0,
        crate::template::split::ph_total().len() > 0,
        crate::template::split::ph_remaining().len() > 0,
        all_digits("999"@),
        "999"@.len() == 3,
{
    reveal_strlit("<part-number>");
    reveal_strlit("<total-parts>");
    reveal_strlit("<parts-remaining>");
    reveal_strlit("999");
}

/// The sentinel over-estimate: for any part position among at most nine
/// hundred ninety-nine parts, the actually rendered fragment is no longer
/// than its sentinel rendering, so the planner's overhead estimate never
/// under-counts the real wrapper text.
pub proof fn lemma_sentinel_overestimates(t: Seq<char>, num: nat, total: nat)
    requires
        1 <= num <= 999,
        total <= 999,
    ensures
        rendered(t, num, total).len() <= crate::template::split::sentinel_rendered(t).len(),
{
    let p1 = crate::template::split::ph_number();
    let p2 = crate::template::split::ph_total();
    let p3 = crate::template::split::ph_remaining();
    let s9 = "999"@;
    let rem: nat = if total >= num {
        (total - num) as nat
    } else {
        0
    };
    let d1 = dec_digits(num);
    let d2 = dec_digits(total);
    let d3 = dec_digits(rem);
    lemma_placeholder_shapes();
    lemma_dec_digits_shape(num);
    lemma_dec_digits_shape(total);
    lemma_dec_digits_shape(rem);
    lemma_dec_digits_len(num);
    lemma_dec_digits_len(total);
    lemma_dec_digits_len(rem);
    let r1 = crate::text::replaced(t, p1, d1);
    let s1 = crate::text::replaced(t, p1, s9);
    lemma_len_le_by_counts(t, t, p1, d1, s9);
    lemma_count_stable(Seq::empty(), t, p1, d1, s9, p2);
    assert(Seq::<char>::empty() + r1 =~= r1);
    assert(Seq::<char>::empty() + s1 =~= s1);
    let r2 = crate::text::replaced(r1, p2, d2);
    let s2 = crate::text::replaced(s1, p2, s9);
    lemma_len_le_by_counts(r1, s1, p2, d2, s9);
    lemma_count_stable_two(Seq::empty(), t, p1, d1, s9, p2, d2, p3);
    lemma_count_stable(Seq::empty(), s1, p2, d2, s9, p3);
    assert(crate::text::match_count(r2, p3) == crate::text::match_count(s2, p3)) by {
        assert(r2 == crate::text::replaced(Seq::<char>::empty() + r1, p2, d2));
        assert(crate::text::replaced(Seq::<char>::empty() + s1, p2, d2) == crate::text::replaced(
            s1,
            p2,
            d2,
        ));
        assert(Seq::<char>::empty() + crate::text::replaced(s1, p2, d2) =~= crate::text::replaced(
            s1,
            p2,
            d2,
        ));
        assert(Seq::<char>::empty() + s2 =~= s2);
    }
    lemma_len_le_by_counts(r2, s2, p3, d3, s9);
}

/// The overhead estimate covers the real rendered wrapper text of every part,
/// as long as at most nine hundred ninety-nine parts come out: the estimated
/// overhead is at least the rendered part header, footer and pending notice
/// with their newlines.
pub proof fn lemma_overhead_covers_rendering(pt: PartTemplate, i: nat, total: nat)
    requires
        1 <= i + 1 <= 999,
        total <= 999,
    ensures
        rendered(pt.header@, i + 1, total).len() + 1 + rendered(pt.footer@, i + 1, total).len() + 1
            + (if pt.pending@.len() > 0 {
            rendered(pt.pending@, i + 1, total).len() + 1
        } else {
            0
        }) <= spec_overhead(pt),
{
    lemma_sentinel_overestimates(pt.header@, i + 1, total);
    lemma_sentinel_overestimates(pt.footer@, i + 1, total);
    if pt.pending@.len() > 0 {
        lemma_sentinel_overestimates(pt.pending@, i + 1, total);
        assert(rendered(pt.pending@, i + 1, total).len()
            <= crate::template::split::sentinel_rendered(pt.pending@).len());
        assert(crate::template::split::sentinel_rendered(pt.pending@).len() >= 0);
    }
}

/// Idempotence of assembly: assembling one plan sequence twice, with the same
/// template, header and footer, yields identical output; the executable
/// assembler's contract pins its result to `spec_assemble`, so two runs of it
/// return equal part sequences.
pub proof fn lemma_assemble_deterministic(
    plans: Seq<Seq<Seq<char>>>,
    pt: PartTemplate,
    h: Seq<char>,
    f: Seq<char>,
    r1: Seq<Seq<char>>,
    r2: Seq<Seq<char>>,
)
    requires
        r1 == spec_assemble(plans, pt, h, f),
        r2 == spec_assemble(plans, pt, h, f),
    ensures
        r1 == r2,
{
}

} // verus!
