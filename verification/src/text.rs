//! Character-level text utilities: substring search, replacement, line
//! splitting and decimal rendering, all specified over `Seq<char>`.

use vstd::prelude::*;
use vstd::string::StrSliceExecFns;

verus! {

/// View of a sequence of owned strings as a sequence of character sequences.
pub open spec fn string_views(v: Seq<String>) -> Seq<Seq<char>> {
    v.map(|i: int, s: String| s@)
}

/// View of a sequence of character vectors as a sequence of character sequences.
pub open spec fn charvec_views(v: Seq<Vec<char>>) -> Seq<Seq<char>> {
    v.map(|i: int, s: Vec<char>| s@)
}

/// Index of the first occurrence of `pat` in `s`, if any; an empty pattern
/// matches at the front, as with `str::find`.
pub open spec fn first_match(s: Seq<char>, pat: Seq<char>) -> Option<int>
    decreases s.len(),
{
    if pat.len() == 0 {
        Some(0)
    } else if s.len() < pat.len() {
        None
    } else if s.take(pat.len() as int) == pat {
        Some(0)
    } else {
        match first_match(s.skip(1), pat) {
            None => None,
            Some(i) => Some(i + 1),
        }
    }
}

/// Index of the last occurrence of `pat` in `s`, if any; an empty pattern
/// matches at the back, as with `str::rfind`.
pub open spec fn last_match(s: Seq<char>, pat: Seq<char>) -> Option<int>
    decreases s.len(),
{
    if pat.len() == 0 {
        Some(s.len() as int)
    } else if s.len() < pat.len() {
        None
    } else if s.subrange(s.len() - pat.len(), s.len() as int) == pat {
        Some(s.len() - pat.len())
    } else {
        last_match(s.take(s.len() - 1), pat)
    }
}

/// Whether `pat` occurs somewhere in `s`.
pub open spec fn has_match(s: Seq<char>, pat: Seq<char>) -> bool {
    first_match(s, pat) is Some
}

/// `s` with every occurrence of `pat` replaced by `rep`, scanning left to
/// right over non-overlapping occurrences, as `str::replace` does.
pub open spec fn replaced(s: Seq<char>, pat: Seq<char>, rep: Seq<char>) -> Seq<char>
    decreases s.len(),
{
    if pat.len() == 0 {
        s
    } else if s.len() < pat.len() {
        s
    } else if s.take(pat.len() as int) == pat {
        rep + replaced(s.skip(pat.len() as int), pat, rep)
    } else {
        seq![s[0]] + replaced(s.skip(1), pat, rep)
    }
}

/// Number of non-overlapping occurrences of `pat` in `s`, scanning left to
/// right, as `str::matches(pat).count()` does.
pub open spec fn match_count(s: Seq<char>, pat: Seq<char>) -> nat
    decreases s.len(),
{
    if pat.len() == 0 {
        0
    } else if s.len() < pat.len() {
        0
    } else if s.take(pat.len() as int) == pat {
        1 + match_count(s.skip(pat.len() as int), pat)
    } else {
        match_count(s.skip(1), pat)
    }
}

/// `s` split at every newline character; the piece after the last newline is
/// kept even when empty, so the result is never empty.
pub open spec fn nl_split(s: Seq<char>) -> Seq<Seq<char>>
    decreases s.len(),
{
    if s.len() == 0 {
        seq![s]
    } else if s[0] == '\n' {
        seq![Seq::<char>::empty()] + nl_split(s.skip(1))
    } else {
        let r = nl_split(s.skip(1));
        r.update(0, seq![s[0]] + r[0])
    }
}

/// The lines of `s`, as `str::lines` yields them when `s` holds no carriage
/// returns: split at newlines, with a final newline not producing an empty
/// trailing line.
pub open spec fn text_lines(s: Seq<char>) -> Seq<Seq<char>> {
    if s.len() == 0 {
        Seq::empty()
    } else if s.last() == '\n' {
        nl_split(s.take(s.len() - 1))
    } else {
        nl_split(s)
    }
}

/// The pieces of `parts` joined by single newline characters.
pub open spec fn joined_lines(parts: Seq<Seq<char>>) -> Seq<char>
    decreases parts.len(),
{
    if parts.len() == 0 {
        Seq::empty()
    } else if parts.len() == 1 {
        parts[0]
    } else {
        parts[0] + seq!['\n'] + joined_lines(parts.skip(1))
    }
}

/// The decimal digit characters of `n`, most significant first.
pub open spec fn dec_digits(n: nat) -> Seq<char>
    decreases n,
{
    if n < 10 {
        seq![digit_char(n as int)]
    } else {
        dec_digits(n / 10) + seq![digit_char((n % 10) as int)]
    }
}

/// The character for a single decimal digit.
pub open spec fn digit_char(d: int) -> char {
    if d == 0 {
        '0'
    } else if d == 1 {
        '1'
    } else if d == 2 {
        '2'
    } else if d == 3 {
        '3'
    } else if d == 4 {
        '4'
    } else if d == 5 {
        '5'
    } else if d == 6 {
        '6'
    } else if d == 7 {
        '7'
    } else if d == 8 {
        '8'
    } else {
        '9'
    }
}

/// An optional index shifted right by `k`.
pub open spec fn shifted(o: Option<int>, k: int) -> Option<int> {
    match o {
        None => None,
        Some(i) => Some(i + k),
    }
}

/// Relies on `String::push`: appends one character to the string.
#[verifier::external_body]
pub fn push_char(s: &mut String, c: char)
    ensures
        final(s)@ == old(s)@.push(c),
{
    s.push(c);
}

/// The characters of a string slice, in order.
pub fn str_chars(s: &str) -> (r: Vec<char>)
    ensures
        r@ == s@,
{
    let n: usize = s.unicode_len();
    let mut r: Vec<char> = Vec::new();
    let mut i: usize = 0;
    while i < n
        invariant
            i <= n,
            n == s@.len(),
            r@ == s@.take(i as int),
        decreases n - i,
    {
        let c = s.get_char(i);
        r.push(c);
        i = i + 1;
        proof {
            assert(r@ =~= s@.take(i as int));
        }
    }
    proof {
        assert(r@ =~= s@);
    }
    r
}

/// A string holding exactly the given characters.
pub fn chars_string(v: &Vec<char>) -> (r: String)
    ensures
        r@ == v@,
{
    let mut r = String::new();
    let mut i: usize = 0;
    while i < v.len()
        invariant
            i <= v.len(),
            r@ == v@.take(i as int),
        decreases v.len() - i,
    {
        push_char(&mut r, v[i]);
        i = i + 1;
        proof {
            assert(r@ =~= v@.take(i as int));
        }
    }
    proof {
        assert(r@ =~= v@);
    }
    r
}

/// Appends all characters of `src` to `dst`.
pub fn append_chars(dst: &mut Vec<char>, src: &Vec<char>)
    ensures
        final(dst)@ == old(dst)@ + src@,
{
    let mut i: usize = 0;
    while i < src.len()
        invariant
            i <= src.len(),
            dst@ == old(dst)@ + src@.take(i as int),
        decreases src.len() - i,
    {
        dst.push(src[i]);
        i = i + 1;
        proof {
            assert(dst@ =~= old(dst)@ + src@.take(i as int));
        }
    }
    proof {
        assert(dst@ =~= old(dst)@ + src@);
    }
}

/// The characters of `s` from `a` (inclusive) to `b` (exclusive).
pub fn subvec(s: &Vec<char>, a: usize, b: usize) -> (r: Vec<char>)
    requires
        a <= b <= s@.len(),
    ensures
        r@ == s@.subrange(a as int, b as int),
{
    let mut r: Vec<char> = Vec::new();
    let mut i: usize = a;
    while i < b
        invariant
            a <= i <= b <= s@.len(),
            r@ == s@.subrange(a as int, i as int),
        decreases b - i,
    {
        r.push(s[i]);
        i = i + 1;
        proof {
            assert(r@ =~= s@.subrange(a as int, i as int));
        }
    }
    r
}

/// Whether `pat` occurs in `s` starting at position `i`.
pub fn matches_at(s: &Vec<char>, pat: &Vec<char>, i: usize) -> (r: bool)
    requires
        i + pat@.len() <= s@.len(),
    ensures
        r == (s@.subrange(i as int, i + pat@.len()) == pat@),
{
    let n: usize = s.len();
    let mut j: usize = 0;
    while j < pat.len()
        invariant
            j <= pat@.len(),
            i + pat@.len() <= s@.len(),
            n == s@.len(),
            forall|k: int| 0 <= k < j ==> s@[i + k] == pat@[k],
        decreases pat.len() - j,
    {
        proof {
            assert(i + j < s@.len());
        }
        if s[i + j] != pat[j] {
            proof {
                assert(s@.subrange(i as int, i + pat@.len())[j as int] == s@[i + j]);
            }
            return false;
        }
        j = j + 1;
    }
    proof {
        assert(s@.subrange(i as int, i + pat@.len()) =~= pat@);
    }
    true
}

/// The position of the first occurrence of `pat` in `s`, if any.
pub fn find_match(s: &Vec<char>, pat: &Vec<char>) -> (r: Option<usize>)
    requires
        pat@.len() > 0,
    ensures
        match r {
            None => first_match(s@, pat@) is None,
            Some(i) => first_match(s@, pat@) == Some(i as int),
        },
{
    let mut i: usize = 0;
    proof {
        assert(s@.skip(0) =~= s@);
    }
    while pat.len() <= s.len() - i
        invariant
            pat@.len() > 0,
            i <= s@.len(),
            first_match(s@, pat@) == shifted(first_match(s@.skip(i as int), pat@), i as int),
        decreases s.len() - i,
    {
        proof {
            assert(s@.skip(i as int).take(pat@.len() as int) =~= s@.subrange(
                i as int,
                i + pat@.len(),
            ));
        }
        if matches_at(s, pat, i) {
            return Some(i);
        }
        proof {
            assert(s@.skip(i as int).skip(1) =~= s@.skip(i + 1));
        }
        i = i + 1;
    }
    proof {
        assert(s@.skip(i as int).len() < pat@.len());
    }
    None
}

/// The position of the last occurrence of `pat` in `s`, if any.
pub fn rfind_match(s: &Vec<char>, pat: &Vec<char>) -> (r: Option<usize>)
    requires
        pat@.len() > 0,
    ensures
        match r {
            None => last_match(s@, pat@) is None,
            Some(i) => last_match(s@, pat@) == Some(i as int),
        },
{
    if pat.len() > s.len() {
        return None;
    }
    let mut t: usize = s.len();
    proof {
        assert(s@.take(s@.len() as int) =~= s@);
    }
    while t >= pat.len()
        invariant
            pat@.len() > 0,
            pat@.len() <= t + 1,
            t <= s@.len(),
            last_match(s@, pat@) == last_match(s@.take(t as int), pat@),
        decreases t,
    {
        let i = t - pat.len();
        proof {
            let p = s@.take(t as int);
            assert(p.subrange(p.len() - pat@.len(), p.len() as int) =~= s@.subrange(
                i as int,
                i + pat@.len(),
            ));
        }
        if matches_at(s, pat, i) {
            return Some(i);
        }
        proof {
            let p = s@.take(t as int);
            assert(p.take(p.len() - 1) =~= s@.take(t - 1));
        }
        t = t - 1;
    }
    None
}

/// Whether `pat` occurs anywhere in `s`.
pub fn contains_match(s: &Vec<char>, pat: &Vec<char>) -> (r: bool)
    requires
        pat@.len() > 0,
    ensures
        r == has_match(s@, pat@),
{
    match find_match(s, pat) {
        Some(_) => true,
        None => false,
    }
}

/// `s` with every occurrence of `pat` replaced by `rep`.
pub fn replace_chars(s: &Vec<char>, pat: &Vec<char>, rep: &Vec<char>) -> (r: Vec<char>)
    requires
        pat@.len() > 0,
    ensures
        r@ == replaced(s@, pat@, rep@),
{
    let mut out: Vec<char> = Vec::new();
    let mut i: usize = 0;
    proof {
        assert(s@.skip(0) =~= s@);
        assert(out@ + replaced(s@, pat@, rep@) =~= replaced(s@, pat@, rep@));
    }
    while i < s.len()
        invariant
            i <= s@.len(),
            pat@.len() > 0,
            replaced(s@, pat@, rep@) == out@ + replaced(s@.skip(i as int), pat@, rep@),
        decreases s.len() - i,
    {
        let ghost rest = s@.skip(i as int);
        if pat.len() <= s.len() - i && matches_at(s, pat, i) {
            proof {
                assert(rest.take(pat@.len() as int) =~= s@.subrange(i as int, i + pat@.len()));
                assert(rest.skip(pat@.len() as int) =~= s@.skip(i + pat@.len()));
                assert(out@ + (rep@ + replaced(s@.skip(i + pat@.len()), pat@, rep@)) =~= (out@
                    + rep@) + replaced(s@.skip(i + pat@.len()), pat@, rep@));
            }
            append_chars(&mut out, rep);
            i = i + pat.len();
        } else {
            proof {
                if rest.len() >= pat@.len() {
                    assert(rest.take(pat@.len() as int) =~= s@.subrange(i as int, i + pat@.len()));
                    assert(rest.take(pat@.len() as int) != pat@);
                } else {
                    assert(replaced(rest, pat@, rep@) == rest);
                    assert(rest.skip(1).len() < pat@.len());
                    assert(replaced(rest.skip(1), pat@, rep@) == rest.skip(1));
                    assert(rest =~= seq![rest[0]] + rest.skip(1));
                }
                assert(replaced(rest, pat@, rep@) == seq![rest[0]] + replaced(
                    rest.skip(1),
                    pat@,
                    rep@,
                ));
                assert(rest.skip(1) =~= s@.skip(i + 1));
                assert(rest[0] == s@[i as int]);
                assert(out@ + (seq![s@[i as int]] + replaced(s@.skip(i + 1), pat@, rep@)) =~= out@.push(
                    s@[i as int],
                ) + replaced(s@.skip(i + 1), pat@, rep@));
            }
            out.push(s[i]);
            i = i + 1;
        }
    }
    proof {
        assert(s@.skip(i as int) =~= Seq::<char>::empty());
        assert(out@ + replaced(s@.skip(i as int), pat@, rep@) =~= out@);
    }
    out
}

/// The number of non-overlapping occurrences of `pat` in `s`.
pub fn count_matches(s: &Vec<char>, pat: &Vec<char>) -> (r: usize)
    requires
        pat@.len() > 0,
    ensures
        r == match_count(s@, pat@),
{
    let mut n: usize = 0;
    let mut i: usize = 0;
    proof {
        assert(s@.skip(0) =~= s@);
    }
    while i < s.len()
        invariant
            i <= s@.len(),
            pat@.len() > 0,
            n <= i,
            match_count(s@, pat@) == n + match_count(s@.skip(i as int), pat@),
        decreases s.len() - i,
    {
        let ghost rest = s@.skip(i as int);
        if pat.len() <= s.len() - i && matches_at(s, pat, i) {
            proof {
                assert(rest.take(pat@.len() as int) =~= s@.subrange(i as int, i + pat@.len()));
                assert(rest.skip(pat@.len() as int) =~= s@.skip(i + pat@.len()));
            }
            n = n + 1;
            i = i + pat.len();
        } else {
            proof {
                if rest.len() >= pat@.len() {
                    assert(rest.take(pat@.len() as int) =~= s@.subrange(i as int, i + pat@.len()));
                    assert(rest.take(pat@.len() as int) != pat@);
                } else {
                    assert(match_count(rest, pat@) == 0);
                    assert(rest.skip(1).len() < pat@.len());
                    assert(match_count(rest.skip(1), pat@) == 0);
                }
                assert(match_count(rest, pat@) == match_count(rest.skip(1), pat@));
                assert(rest.skip(1) =~= s@.skip(i + 1));
            }
            i = i + 1;
        }
    }
    n
}

/// The lines of `s`, split at newline characters, a trailing newline closing
/// the last line rather than opening an empty one.
pub fn lines_of(s: &Vec<char>) -> (r: Vec<Vec<char>>)
    ensures
        charvec_views(r@) == text_lines(s@),
{
    let mut r: Vec<Vec<char>> = Vec::new();
    if s.len() == 0 {
        proof {
            assert(charvec_views(r@) =~= text_lines(s@));
        }
        return r;
    }
    let n: usize = if s[s.len() - 1] == '\n' {
        s.len() - 1
    } else {
        s.len()
    };
    let ghost p = s@.take(n as int);
    let mut cur: Vec<char> = Vec::new();
    let mut j: usize = 0;
    let mut i: usize = 0;
    proof {
        assert(p.skip(0) =~= p);
        assert(cur@ =~= p.subrange(0, 0));
        assert(charvec_views(r@) + nl_split(p) =~= nl_split(p));
    }
    while i < n
        invariant
            j <= i <= n <= s@.len(),
            p == s@.take(n as int),
            cur@ == p.subrange(j as int, i as int),
            forall|k: int| j <= k < i ==> p[k] != '\n',
            nl_split(p) == charvec_views(r@) + nl_split(p.skip(j as int)),
        decreases n - i,
    {
        let c = s[i];
        proof {
            assert(p[i as int] == s@[i as int]);
        }
        if c == '\n' {
            proof {
                let rest = p.skip(j as int);
                lemma_split_at_first_newline(rest, i - j);
                assert(rest.take(i - j) =~= p.subrange(j as int, i as int));
                assert(rest.skip(i - j + 1) =~= p.skip(i + 1));
                assert(charvec_views(r@.push(cur)) =~= charvec_views(r@) + seq![cur@]);
                assert(charvec_views(r@) + (seq![cur@] + nl_split(p.skip(i + 1))) =~= (
                charvec_views(r@) + seq![cur@]) + nl_split(p.skip(i + 1)));
            }
            r.push(cur);
            cur = Vec::new();
            j = i + 1;
            i = i + 1;
            proof {
                assert(cur@ =~= p.subrange(j as int, i as int));
            }
        } else {
            cur.push(c);
            i = i + 1;
            proof {
                assert(cur@ =~= p.subrange(j as int, i as int));
            }
        }
    }
    proof {
        let rest = p.skip(j as int);
        lemma_split_no_newline(rest);
        assert(rest =~= p.subrange(j as int, n as int));
        assert(charvec_views(r@.push(cur)) =~= charvec_views(r@) + seq![cur@]);
        assert(p.subrange(j as int, n as int) == cur@);
    }
    r.push(cur);
    proof {
        if s@.last() == '\n' {
            assert(text_lines(s@) == nl_split(p));
        } else {
            assert(p =~= s@);
        }
        assert(charvec_views(r@) =~= nl_split(p));
    }
    r
}

/// Splitting a sequence whose first newline stands at `i` takes the piece
/// before it and splits the rest.
proof fn lemma_split_at_first_newline(s: Seq<char>, i: int)
    requires
        0 <= i < s.len(),
        s[i] == '\n',
        forall|k: int| 0 <= k < i ==> s[k] != '\n',
    ensures
        nl_split(s) == seq![s.take(i)] + nl_split(s.skip(i + 1)),
    decreases i,
{
    if i == 0 {
        assert(s.take(0) =~= Seq::<char>::empty());
        assert(seq![s.take(0)] + nl_split(s.skip(1)) =~= seq![Seq::<char>::empty()] + nl_split(
            s.skip(1),
        ));
    } else {
        let t = s.skip(1);
        assert(t[i - 1] == s[i]);
        lemma_split_at_first_newline(t, i - 1);
        lemma_split_nonempty(t);
        let r = nl_split(t);
        assert(r == seq![t.take(i - 1)] + nl_split(t.skip(i)));
        assert(r[0] == t.take(i - 1));
        assert(seq![s[0]] + t.take(i - 1) =~= s.take(i));
        assert(t.skip(i) =~= s.skip(i + 1));
        assert(r.update(0, seq![s[0]] + r[0]) =~= seq![s.take(i)] + nl_split(s.skip(i + 1)));
    }
}

/// A sequence without newlines splits into itself alone.
pub proof fn lemma_split_no_newline(s: Seq<char>)
    requires
        forall|k: int| 0 <= k < s.len() ==> s[k] != '\n',
    ensures
        nl_split(s) == seq![s],
    decreases s.len(),
{
    if s.len() == 0 {
    } else {
        lemma_split_no_newline(s.skip(1));
        let r = nl_split(s.skip(1));
        assert(r[0] == s.skip(1));
        assert(seq![s[0]] + s.skip(1) =~= s);
        assert(r.update(0, seq![s[0]] + r[0]) =~= seq![s]);
    }
}

/// The bounds of a first match: it lies within the sequence.
pub proof fn lemma_first_match_bounds(s: Seq<char>, pat: Seq<char>)
    requires
        first_match(s, pat) is Some,
    ensures
        0 <= first_match(s, pat).unwrap(),
        first_match(s, pat).unwrap() + pat.len() <= s.len(),
        s.subrange(first_match(s, pat).unwrap(), first_match(s, pat).unwrap() + pat.len()) == pat,
    decreases s.len(),
{
    if pat.len() == 0 {
        assert(s.subrange(0, 0) =~= pat);
    } else if s.len() < pat.len() {
    } else if s.take(pat.len() as int) == pat {
        assert(s.subrange(0, pat.len() as int) =~= s.take(pat.len() as int));
    } else {
        lemma_first_match_bounds(s.skip(1), pat);
        let i = first_match(s.skip(1), pat).unwrap();
        assert(s.subrange(i + 1, i + 1 + pat.len()) =~= s.skip(1).subrange(i, i + pat.len()));
    }
}

/// The bounds of a last match: it lies within the sequence.
pub proof fn lemma_last_match_bounds(s: Seq<char>, pat: Seq<char>)
    requires
        last_match(s, pat) is Some,
    ensures
        0 <= last_match(s, pat).unwrap(),
        last_match(s, pat).unwrap() + pat.len() <= s.len(),
        s.subrange(last_match(s, pat).unwrap(), last_match(s, pat).unwrap() + pat.len()) == pat,
    decreases s.len(),
{
    if pat.len() == 0 {
        assert(s.subrange(s.len() as int, s.len() as int) =~= pat);
    } else if s.len() < pat.len() {
    } else if s.subrange(s.len() - pat.len(), s.len() as int) == pat {
    } else {
        lemma_last_match_bounds(s.take(s.len() - 1), pat);
        let i = last_match(s.take(s.len() - 1), pat).unwrap();
        assert(s.subrange(i, i + pat.len()) =~= s.take(s.len() - 1).subrange(i, i + pat.len()));
    }
}

/// The pieces of `s` split at every newline character, the piece after the
/// last newline kept even when empty.
pub fn split_all(s: &Vec<char>) -> (r: Vec<Vec<char>>)
    ensures
        charvec_views(r@) == nl_split(s@),
{
    let mut r: Vec<Vec<char>> = Vec::new();
    let n: usize = s.len();
    let mut cur: Vec<char> = Vec::new();
    let mut j: usize = 0;
    let mut i: usize = 0;
    proof {
        assert(s@.skip(0) =~= s@);
        assert(cur@ =~= s@.subrange(0, 0));
        assert(charvec_views(r@) + nl_split(s@) =~= nl_split(s@));
    }
    while i < n
        invariant
            j <= i <= n,
            n == s@.len(),
            cur@ == s@.subrange(j as int, i as int),
            forall|k: int| j <= k < i ==> s@[k] != '\n',
            nl_split(s@) == charvec_views(r@) + nl_split(s@.skip(j as int)),
        decreases n - i,
    {
        let c = s[i];
        if c == '\n' {
            proof {
                let rest = s@.skip(j as int);
                lemma_split_at_first_newline(rest, i - j);
                assert(rest.take(i - j) =~= s@.subrange(j as int, i as int));
                assert(rest.skip(i - j + 1) =~= s@.skip(i + 1));
                assert(charvec_views(r@.push(cur)) =~= charvec_views(r@) + seq![cur@]);
                assert(charvec_views(r@) + (seq![cur@] + nl_split(s@.skip(i + 1))) =~= (
                charvec_views(r@) + seq![cur@]) + nl_split(s@.skip(i + 1)));
            }
            r.push(cur);
            cur = Vec::new();
            j = i + 1;
            i = i + 1;
            proof {
                assert(cur@ =~= s@.subrange(j as int, i as int));
            }
        } else {
            cur.push(c);
            i = i + 1;
            proof {
                assert(cur@ =~= s@.subrange(j as int, i as int));
            }
        }
    }
    proof {
        let rest = s@.skip(j as int);
        lemma_split_no_newline(rest);
        assert(rest =~= s@.subrange(j as int, n as int));
        assert(charvec_views(r@.push(cur)) =~= charvec_views(r@) + seq![cur@]);
        assert(s@.subrange(j as int, n as int) == cur@);
    }
    r.push(cur);
    proof {
        assert(charvec_views(r@) =~= nl_split(s@));
    }
    r
}

/// Appending a line to a run appends it to the joined text after a newline.
pub proof fn lemma_joined_snoc(run: Seq<Seq<char>>, x: Seq<char>)
    ensures
        joined_lines(run.push(x)) == if run.len() == 0 {
            x
        } else {
            joined_lines(run) + seq!['\n'] + x
        },
    decreases run.len(),
{
    if run.len() == 0 {
        assert(run.push(x)[0] == x);
        assert(joined_lines(run.push(x)) == x);
    } else if run.len() == 1 {
        assert(run.push(x)[0] == run[0]);
        assert(run.push(x).skip(1) =~= seq![x]);
        assert(joined_lines(seq![x]) == x);
    } else {
        assert(run.push(x).skip(1) =~= run.skip(1).push(x));
        lemma_joined_snoc(run.skip(1), x);
        assert(run.push(x)[0] == run[0]);
        assert(run[0] + seq!['\n'] + (joined_lines(run.skip(1)) + seq!['\n'] + x) =~= (run[0]
            + seq!['\n'] + joined_lines(run.skip(1))) + seq!['\n'] + x);
    }
}

/// A split never yields an empty sequence of pieces.
pub proof fn lemma_split_nonempty(s: Seq<char>)
    ensures
        nl_split(s).len() >= 1,
    decreases s.len(),
{
    if s.len() == 0 {
    } else if s[0] == '\n' {
    } else {
        lemma_split_nonempty(s.skip(1));
    }
}

/// A pattern that stands somewhere in a sequence occurs in it.
pub proof fn lemma_match_at(s: Seq<char>, pat: Seq<char>, k: int)
    requires
        0 <= k,
        k + pat.len() <= s.len(),
        s.subrange(k, k + pat.len()) == pat,
    ensures
        has_match(s, pat),
    decreases k,
{
    if pat.len() == 0 {
    } else if k == 0 {
        assert(s.take(pat.len() as int) =~= s.subrange(0, pat.len() as int));
    } else {
        if s.take(pat.len() as int) == pat {
        } else {
            assert(s.skip(1).subrange(k - 1, k - 1 + pat.len()) =~= s.subrange(k, k + pat.len()));
            lemma_match_at(s.skip(1), pat, k - 1);
        }
    }
}

/// `s` split at every occurrence of `sep`; the piece after the last
/// separator is kept even when empty, so the result is never empty.
pub open spec fn sep_split(s: Seq<char>, sep: char) -> Seq<Seq<char>>
    decreases s.len(),
{
    if s.len() == 0 {
        seq![s]
    } else if s[0] == sep {
        seq![Seq::<char>::empty()] + sep_split(s.skip(1), sep)
    } else {
        let r = sep_split(s.skip(1), sep);
        r.update(0, seq![s[0]] + r[0])
    }
}

/// Splitting a sequence whose first separator stands at `i` takes the piece
/// before it and splits the rest.
proof fn lemma_sep_split_at_first(s: Seq<char>, sep: char, i: int)
    requires
        0 <= i < s.len(),
        s[i] == sep,
        forall|k: int| 0 <= k < i ==> s[k] != sep,
    ensures
        sep_split(s, sep) == seq![s.take(i)] + sep_split(s.skip(i + 1), sep),
    decreases i,
{
    if i == 0 {
        assert(s.take(0) =~= Seq::<char>::empty());
        assert(seq![s.take(0)] + sep_split(s.skip(1), sep) =~= seq![Seq::<char>::empty()]
            + sep_split(s.skip(1), sep));
    } else {
        let t = s.skip(1);
        assert(t[i - 1] == s[i]);
        lemma_sep_split_at_first(t, sep, i - 1);
        lemma_sep_split_nonempty(t, sep);
        let r = sep_split(t, sep);
        assert(r == seq![t.take(i - 1)] + sep_split(t.skip(i), sep));
        assert(r[0] == t.take(i - 1));
        assert(seq![s[0]] + t.take(i - 1) =~= s.take(i));
        assert(t.skip(i) =~= s.skip(i + 1));
        assert(r.update(0, seq![s[0]] + r[0]) =~= seq![s.take(i)] + sep_split(s.skip(i + 1), sep));
    }
}

/// A sequence without the separator splits into itself alone.
proof fn lemma_sep_split_none(s: Seq<char>, sep: char)
    requires
        forall|k: int| 0 <= k < s.len() ==> s[k] != sep,
    ensures
        sep_split(s, sep) == seq![s],
    decreases s.len(),
{
    if s.len() == 0 {
    } else {
        lemma_sep_split_none(s.skip(1), sep);
        let r = sep_split(s.skip(1), sep);
        assert(r[0] == s.skip(1));
        assert(seq![s[0]] + s.skip(1) =~= s);
        assert(r.update(0, seq![s[0]] + r[0]) =~= seq![s]);
    }
}

/// A separator split never yields an empty sequence of pieces.
proof fn lemma_sep_split_nonempty(s: Seq<char>, sep: char)
    ensures
        sep_split(s, sep).len() >= 1,
    decreases s.len(),
{
    if s.len() == 0 {
    } else if s[0] == sep {
    } else {
        lemma_sep_split_nonempty(s.skip(1), sep);
    }
}

/// The pieces of `s` split at every occurrence of `sep`, the piece after the
/// last separator kept even when empty.
pub fn split_sep(s: &Vec<char>, sep: char) -> (r: Vec<Vec<char>>)
    ensures
        charvec_views(r@) == sep_split(s@, sep),
{
    let mut r: Vec<Vec<char>> = Vec::new();
    let n: usize = s.len();
    let mut cur: Vec<char> = Vec::new();
    let mut j: usize = 0;
    let mut i: usize = 0;
    proof {
        assert(s@.skip(0) =~= s@);
        assert(cur@ =~= s@.subrange(0, 0));
        assert(charvec_views(r@) + sep_split(s@, sep) =~= sep_split(s@, sep));
    }
    while i < n
        invariant
            j <= i <= n,
            n == s@.len(),
            cur@ == s@.subrange(j as int, i as int),
            forall|k: int| j <= k < i ==> s@[k] != sep,
            sep_split(s@, sep) == charvec_views(r@) + sep_split(s@.skip(j as int), sep),
        decreases n - i,
    {
        let c = s[i];
        if c == sep {
            proof {
                let rest = s@.skip(j as int);
                lemma_sep_split_at_first(rest, sep, i - j);
                assert(rest.take(i - j) =~= s@.subrange(j as int, i as int));
                assert(rest.skip(i - j + 1) =~= s@.skip(i + 1));
                assert(charvec_views(r@.push(cur)) =~= charvec_views(r@) + seq![cur@]);
                assert(charvec_views(r@) + (seq![cur@] + sep_split(s@.skip(i + 1), sep)) =~= (
                charvec_views(r@) + seq![cur@]) + sep_split(s@.skip(i + 1), sep));
            }
            r.push(cur);
            cur = Vec::new();
            j = i + 1;
            i = i + 1;
            proof {
                assert(cur@ =~= s@.subrange(j as int, i as int));
            }
        } else {
            cur.push(c);
            i = i + 1;
            proof {
                assert(cur@ =~= s@.subrange(j as int, i as int));
            }
        }
    }
    proof {
        let rest = s@.skip(j as int);
        lemma_sep_split_none(rest, sep);
        assert(rest =~= s@.subrange(j as int, n as int));
        assert(charvec_views(r@.push(cur)) =~= charvec_views(r@) + seq![cur@]);
        assert(s@.subrange(j as int, n as int) == cur@);
    }
    r.push(cur);
    proof {
        assert(charvec_views(r@) =~= sep_split(s@, sep));
    }
    r
}

/// A copy of a list of strings.
pub fn clone_strings(v: &Vec<String>) -> (r: Vec<String>)
    ensures
        r@ == v@,
{
    let mut r: Vec<String> = Vec::new();
    let mut i: usize = 0;
    while i < v.len()
        invariant
            i <= v@.len(),
            r@ == v@.take(i as int),
        decreases v@.len() - i,
    {
        r.push(v[i].clone());
        i = i + 1;
        proof {
            assert(r@ =~= v@.take(i as int));
        }
    }
    proof {
        assert(r@ =~= v@);
    }
    r
}

/// The decimal digit character for `d`.
pub fn digit_of(d: u64) -> (r: char)
    requires
        d < 10,
    ensures
        r == digit_char(d as int),
{
    if d == 0 {
        '0'
    } else if d == 1 {
        '1'
    } else if d == 2 {
        '2'
    } else if d == 3 {
        '3'
    } else if d == 4 {
        '4'
    } else if d == 5 {
        '5'
    } else if d == 6 {
        '6'
    } else if d == 7 {
        '7'
    } else if d == 8 {
        '8'
    } else {
        '9'
    }
}

/// The decimal digits of `n`, most significant first.
pub fn u64_chars(n: u64) -> (r: Vec<char>)
    ensures
        r@ == dec_digits(n as nat),
    decreases n,
{
    if n < 10 {
        let mut r: Vec<char> = Vec::new();
        r.push(digit_of(n));
        proof {
            assert(r@ =~= dec_digits(n as nat));
        }
        r
    } else {
        let mut r = u64_chars(n / 10);
        r.push(digit_of(n % 10));
        proof {
            assert(r@ =~= dec_digits(n as nat));
        }
        r
    }
}

} // verus!
