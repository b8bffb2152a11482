//! Formats a list of file paths: sorted and joined by newlines.

use crate::text::{joined_lines, str_chars, string_views};
use vstd::prelude::*;

verus! {

/// Lexicographic order on texts by character value; reflexive.
pub open spec fn lex_leq(a: Seq<char>, b: Seq<char>) -> bool
    decreases a.len(),
{
    if a.len() == 0 {
        true
    } else if b.len() == 0 {
        false
    } else if a[0] != b[0] {
        (a[0] as u32) < (b[0] as u32)
    } else {
        lex_leq(a.skip(1), b.skip(1))
    }
}

/// `x` inserted into `s` after every element that precedes or equals it.
pub open spec fn spec_insert(x: Seq<char>, s: Seq<Seq<char>>) -> Seq<Seq<char>>
    decreases s.len(),
{
    if s.len() > 0 && lex_leq(s[0], x) {
        seq![s[0]] + spec_insert(x, s.skip(1))
    } else {
        seq![x] + s
    }
}

/// The texts sorted by insertion, element by element in input order, each
/// landing after the elements that precede or equal it: a stable sort.
pub open spec fn spec_sort(s: Seq<Seq<char>>) -> Seq<Seq<char>>
    decreases s.len(),
{
    if s.len() == 0 {
        Seq::empty()
    } else {
        spec_insert(s.last(), spec_sort(s.drop_last()))
    }
}

/// Whether `a` precedes or equals `b` in lexicographic order by character
/// value.
pub fn str_lex_leq(a: &str, b: &str) -> (r: bool)
    ensures
        r == lex_leq(a@, b@),
{
    let av = str_chars(a);
    let bv = str_chars(b);
    str_lex_leq_chars(&av, &bv)
}

/// Whether `a` precedes or equals `b` in lexicographic order by character
/// value.
pub fn str_lex_leq_chars(av: &Vec<char>, bv: &Vec<char>) -> (r: bool)
    ensures
        r == lex_leq(av@, bv@),
{
    let an: usize = av.len();
    let bn: usize = bv.len();
    let mut i: usize = 0;
    proof {
        assert(av@.skip(0) =~= av@);
        assert(bv@.skip(0) =~= bv@);
    }
    while i < an && i < bn
        invariant
            i <= an,
            i <= bn,
            an == av@.len(),
            bn == bv@.len(),
            lex_leq(av@, bv@) == lex_leq(av@.skip(i as int), bv@.skip(i as int)),
        decreases an - i,
    {
        proof {
            assert(av@.skip(i as int)[0] == av@[i as int]);
            assert(bv@.skip(i as int)[0] == bv@[i as int]);
            assert(av@.skip(i as int).skip(1) =~= av@.skip(i + 1));
            assert(bv@.skip(i as int).skip(1) =~= bv@.skip(i + 1));
        }
        if av[i] != bv[i] {
            return (av[i] as u32) < (bv[i] as u32);
        }
        i = i + 1;
    }
    proof {
        if i >= an {
            assert(av@.skip(i as int).len() == 0);
        } else {
            assert(bv@.skip(i as int).len() == 0);
            assert(av@.skip(i as int).len() > 0);
        }
    }
    i >= an
}

/// `x` inserted into an already sorted list, after every element that
/// precedes or equals it.
fn insert_sorted(x: String, sorted: Vec<String>) -> (r: Vec<String>)
    ensures
        string_views(r@) == spec_insert(x@, string_views(sorted@)),
{
    let ghost sv = string_views(sorted@);
    let mut out: Vec<String> = Vec::new();
    let mut j: usize = 0;
    proof {
        assert(sv.skip(0) =~= sv);
        assert(string_views(out@) =~= Seq::<Seq<char>>::empty());
    }
    while j < sorted.len() && str_lex_leq(sorted[j].as_str(), x.as_str())
        invariant
            j <= sorted@.len(),
            sv == string_views(sorted@),
            sv.len() == sorted@.len(),
            string_views(out@) == sv.take(j as int),
            spec_insert(x@, sv) == sv.take(j as int) + spec_insert(x@, sv.skip(j as int)),
        decreases sorted@.len() - j,
    {
        proof {
            assert(sv.skip(j as int)[0] == sorted@[j as int]@);
            assert(sv.skip(j as int).skip(1) =~= sv.skip(j + 1));
            assert(sv.take(j + 1) =~= sv.take(j as int).push(sv[j as int]));
            assert(sv.take(j as int) + (seq![sv[j as int]] + spec_insert(x@, sv.skip(j + 1)))
                =~= sv.take(j + 1) + spec_insert(x@, sv.skip(j + 1)));
        }
        out.push(sorted[j].clone());
        j = j + 1;
        proof {
            assert(string_views(out@) =~= sv.take(j as int));
        }
    }
    proof {
        if j < sorted@.len() {
            assert(sv.skip(j as int)[0] == sorted@[j as int]@);
        }
        assert(spec_insert(x@, sv.skip(j as int)) == seq![x@] + sv.skip(j as int));
    }
    let ghost j0 = j as int;
    out.push(x);
    proof {
        assert(string_views(out@) =~= sv.take(j0).push(x@));
    }
    while j < sorted.len()
        invariant
            0 <= j0 <= j as int <= sorted@.len(),
            sv == string_views(sorted@),
            sv.len() == sorted@.len(),
            string_views(out@) == sv.take(j0).push(x@) + sv.subrange(j0, j as int),
        decreases sorted@.len() - j,
    {
        proof {
            assert(sv[j as int] == sorted@[j as int]@);
            assert(sv.subrange(j0, j as int).push(sv[j as int]) =~= sv.subrange(j0, j + 1));
            assert((sv.take(j0).push(x@) + sv.subrange(j0, j as int)).push(sv[j as int]) =~= sv.take(
                j0,
            ).push(x@) + sv.subrange(j0, j + 1));
        }
        let ghost pre = out@;
        out.push(sorted[j].clone());
        j = j + 1;
        proof {
            assert(string_views(out@) =~= string_views(pre).push(sv[j - 1]));
        }
    }
    proof {
        assert(sv.subrange(j0, sv.len() as int) =~= sv.skip(j0));
        assert(string_views(out@) =~= sv.take(j0) + (seq![x@] + sv.skip(j0)));
    }
    out
}

/// Converts a list of file paths to one string: the paths sorted and joined
/// by newlines.
pub fn format_file_paths(file_paths: Vec<String>) -> (r: String)
    ensures
        r@ == joined_lines(spec_sort(string_views(file_paths@))),
{
    let ghost fv = string_views(file_paths@);
    let mut sorted: Vec<String> = Vec::new();
    let mut i: usize = 0;
    proof {
        assert(fv.take(0) =~= Seq::<Seq<char>>::empty());
        assert(string_views(sorted@) =~= spec_sort(fv.take(0)));
    }
    while i < file_paths.len()
        invariant
            i <= file_paths@.len(),
            fv == string_views(file_paths@),
            fv.len() == file_paths@.len(),
            string_views(sorted@) == spec_sort(fv.take(i as int)),
        decreases file_paths@.len() - i,
    {
        proof {
            assert(fv.take(i + 1).drop_last() =~= fv.take(i as int));
            assert(fv.take(i + 1).last() == fv[i as int]);
            assert(fv[i as int] == file_paths@[i as int]@);
        }
        sorted = insert_sorted(file_paths[i].clone(), sorted);
        i = i + 1;
    }
    proof {
        assert(fv.take(i as int) =~= fv);
    }
    let joined = join_lines(&sorted);
    joined
}

/// The strings joined by single newlines.
pub fn join_lines(items: &Vec<String>) -> (r: String)
    ensures
        r@ == joined_lines(string_views(items@)),
{
    let ghost iv = string_views(items@);
    let mut out: Vec<char> = Vec::new();
    let mut t: usize = 0;
    proof {
        assert(iv.take(0) =~= Seq::<Seq<char>>::empty());
        assert(out@ =~= joined_lines(iv.take(0)));
    }
    while t < items.len()
        invariant
            t <= items@.len(),
            iv == string_views(items@),
            iv.len() == items@.len(),
            out@ == joined_lines(iv.take(t as int)),
        decreases items@.len() - t,
    {
        proof {
            crate::text::lemma_joined_snoc(iv.take(t as int), iv[t as int]);
            assert(iv.take(t as int).push(iv[t as int]) =~= iv.take(t + 1));
            assert(iv[t as int] == items@[t as int]@);
        }
        if t > 0 {
            out.push('\n');
        }
        let c = str_chars(items[t].as_str());
        crate::text::append_chars(&mut out, &c);
        t = t + 1;
    }
    proof {
        assert(iv.take(t as int) =~= iv);
    }
    crate::text::chars_string(&out)
}

} // verus!
