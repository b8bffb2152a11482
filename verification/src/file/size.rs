//! File-size accounting: summing sizes against a limit and rendering byte
//! counts in a human-readable unit.

use crate::text::{append_chars, chars_string, dec_digits, digit_char, str_chars, u64_chars};
use vstd::prelude::*;

verus! {

/// The unit suffix for unit index `k`: bytes up to terabytes.
pub open spec fn unit_suffix(k: nat) -> Seq<char> {
    if k == 0 {
        "B"@
    } else if k == 1 {
        "KB"@
    } else if k == 2 {
        "MB"@
    } else if k == 3 {
        "GB"@
    } else {
        "TB"@
    }
}

/// The divisor for unit index `k`.
pub open spec fn unit_divisor(k: nat) -> nat {
    if k == 0 {
        1
    } else if k == 1 {
        1024
    } else if k == 2 {
        1048576
    } else if k == 3 {
        1073741824
    } else {
        1099511627776
    }
}

/// The unit a byte count is displayed in: the largest unit that leaves a
/// value of at least one, capped at terabytes.
pub open spec fn size_unit(bytes: nat) -> nat {
    if bytes < 1024 {
        0
    } else if bytes < 1048576 {
        1
    } else if bytes < 1073741824 {
        2
    } else if bytes < 1099511627776 {
        3
    } else {
        4
    }
}

/// The value `q + rem / d` scaled by one hundred and rounded to the nearest
/// integer, ties going to the even neighbour, for `rem < d`.
pub open spec fn hundredths_rounded(q: nat, rem: nat, d: nat) -> nat {
    let n2 = rem * 100;
    let q2 = n2 / d;
    let r2 = n2 % d;
    let q2r: nat = if 2 * r2 > d {
        q2 + 1
    } else if 2 * r2 < d {
        q2
    } else if q2 % 2 == 0 {
        q2
    } else {
        q2 + 1
    };
    q * 100 + q2r
}

/// A fractional hundredths count rendered as exactly two digits.
pub open spec fn two_digits(f: nat) -> Seq<char> {
    if f < 10 {
        seq!['0', digit_char(f as int)]
    } else {
        dec_digits(f)
    }
}

/// A byte count rendered in its display unit: the whole value alone when the
/// division is exact, and the value rounded to two decimal places otherwise,
/// followed by a space and the unit suffix.
pub open spec fn human_size_spec(bytes: nat) -> Seq<char> {
    let k = size_unit(bytes);
    let d = unit_divisor(k);
    let q = bytes / d;
    let rem = bytes % d;
    if rem == 0 {
        dec_digits(q) + " "@ + unit_suffix(k)
    } else {
        let h = hundredths_rounded(q, rem, d);
        dec_digits(h / 100) + "."@ + two_digits((h % 100) as nat) + " "@ + unit_suffix(k)
    }
}

/// The sum of the file sizes.
pub open spec fn total_of(sizes: Seq<u64>) -> nat
    decreases sizes.len(),
{
    if sizes.len() == 0 {
        0
    } else {
        sizes[0] as nat + total_of(sizes.skip(1))
    }
}

/// The message reported when the files outgrow the limit.
pub open spec fn size_exceeded_msg(total: nat, max: nat) -> Seq<char> {
    "Total size of files ("@ + human_size_spec(total) + ") exceeds the maximum allowed size ("@
        + human_size_spec(max)
        + ").\nUse --max-total-size=BYTES option to increase the limit.\n"@
}

/// The unit suffix for unit index `k`.
fn suffix_str(k: usize) -> (r: &'static str)
    ensures
        r@ == unit_suffix(k as nat),
{
    if k == 0 {
        "B"
    } else if k == 1 {
        "KB"
    } else if k == 2 {
        "MB"
    } else if k == 3 {
        "GB"
    } else {
        "TB"
    }
}

/// Converts a byte count into a human-readable string: the count is shown in
/// the largest unit from bytes to terabytes that keeps it at least one, with
/// no decimal places when the unit divides it exactly and two otherwise.
pub fn human_readable_size(bytes: u64) -> (r: String)
    ensures
        r@ == human_size_spec(bytes as nat),
{
    let k: usize = if bytes < 1024 {
        0
    } else if bytes < 1048576 {
        1
    } else if bytes < 1073741824 {
        2
    } else if bytes < 1099511627776 {
        3
    } else {
        4
    };
    let d: u64 = if k == 0 {
        1
    } else if k == 1 {
        1024
    } else if k == 2 {
        1048576
    } else if k == 3 {
        1073741824
    } else {
        1099511627776
    };
    let q = bytes / d;
    let rem = bytes % d;
    let mut out: Vec<char> = Vec::new();
    if rem == 0 {
        let digits = u64_chars(q);
        append_chars(&mut out, &digits);
    } else {
        proof {
            assert(d >= 1024);
            assert(q * 100 + 100 <= u64::MAX) by {
                vstd::arithmetic::div_mod::lemma_fundamental_div_mod(bytes as int, d as int);
                assert(q * 1024 <= q * d) by (nonlinear_arith)
                    requires
                        d >= 1024,
                        q >= 0,
                ;
            }
            assert(rem * 100 <= u64::MAX);
        }
        let n2 = rem * 100;
        let q2 = n2 / d;
        let r2 = n2 % d;
        proof {
            assert(q2 <= 100) by {
                vstd::arithmetic::div_mod::lemma_fundamental_div_mod(n2 as int, d as int);
                assert(q2 > 100 ==> q2 * d > 100 * d) by (nonlinear_arith)
                    requires
                        d >= 1024,
                ;
            }
            assert(2 * r2 <= u64::MAX);
        }
        let q2r: u64 = if 2 * r2 > d {
            q2 + 1
        } else if 2 * r2 < d {
            q2
        } else if q2 % 2 == 0 {
            q2
        } else {
            q2 + 1
        };
        let h = q * 100 + q2r;
        let whole = u64_chars(h / 100);
        append_chars(&mut out, &whole);
        let dot = str_chars(".");
        append_chars(&mut out, &dot);
        let frac = h % 100;
        if frac < 10 {
            out.push('0');
            out.push(crate::text::digit_of(frac));
            proof {
                assert(out@ =~= dec_digits((h as nat) / 100) + "."@ + two_digits(
                    ((h as nat) % 100) as nat,
                ));
            }
        } else {
            let frac_digits = u64_chars(frac);
            append_chars(&mut out, &frac_digits);
        }
    }
    let space = str_chars(" ");
    append_chars(&mut out, &space);
    let suffix = str_chars(suffix_str(k));
    append_chars(&mut out, &suffix);
    chars_string(&out)
}

/// Checks that the total size of the files stays within the limit, reporting
/// both sizes in human-readable form when it does not.
pub fn check_total_size(file_sizes: Vec<u64>, max_total_size: u64) -> (r: Result<(), String>)
    requires
        total_of(file_sizes@) <= u64::MAX,
    ensures
        r is Ok <==> total_of(file_sizes@) <= max_total_size,
        (match r {
            Ok(_) => true,
            Err(e) => e@ == size_exceeded_msg(total_of(file_sizes@), max_total_size as nat),
        }),
{
    let total_size = calculate_total(&file_sizes);
    if total_size > max_total_size {
        let mut msg = str_chars("Total size of files (");
        let total_h = human_readable_size(total_size);
        let tc = str_chars(total_h.as_str());
        append_chars(&mut msg, &tc);
        let mid = str_chars(") exceeds the maximum allowed size (");
        append_chars(&mut msg, &mid);
        let max_h = human_readable_size(max_total_size);
        let mc = str_chars(max_h.as_str());
        append_chars(&mut msg, &mc);
        let tail = str_chars(").\nUse --max-total-size=BYTES option to increase the limit.\n");
        append_chars(&mut msg, &tail);
        proof {
            assert(msg@ =~= size_exceeded_msg(total_of(file_sizes@), max_total_size as nat));
        }
        return Err(chars_string(&msg));
    }
    Ok(())
}

/// The sum of the given file sizes.
pub fn calculate_total(file_sizes: &Vec<u64>) -> (r: u64)
    requires
        total_of(file_sizes@) <= u64::MAX,
    ensures
        r as nat == total_of(file_sizes@),
{
    let n: usize = file_sizes.len();
    let mut total: u64 = 0;
    let mut i: usize = 0;
    proof {
        assert(file_sizes@.skip(0) =~= file_sizes@);
        lemma_total_split(file_sizes@, 0);
    }
    while i < n
        invariant
            i <= n,
            n == file_sizes@.len(),
            total as nat == total_of(file_sizes@.take(i as int)),
            total_of(file_sizes@) <= u64::MAX,
            total_of(file_sizes@.take(i as int)) + total_of(file_sizes@.skip(i as int)) == total_of(
                file_sizes@,
            ),
        decreases n - i,
    {
        proof {
            assert(file_sizes@.skip(i as int)[0] == file_sizes@[i as int]);
            assert(file_sizes@.skip(i as int).skip(1) =~= file_sizes@.skip(i + 1));
            lemma_total_split(file_sizes@, i + 1);
        }
        total = total + file_sizes[i];
        i = i + 1;
        proof {
            lemma_total_take_succ(file_sizes@, i - 1);
        }
    }
    proof {
        assert(file_sizes@.take(i as int) =~= file_sizes@);
    }
    total
}

/// The total splits at any boundary.
proof fn lemma_total_split(sizes: Seq<u64>, i: int)
    requires
        0 <= i <= sizes.len(),
    ensures
        total_of(sizes) == total_of(sizes.take(i)) + total_of(sizes.skip(i)),
    decreases i,
{
    if i == 0 {
        assert(sizes.take(0) =~= Seq::<u64>::empty());
        assert(sizes.skip(0) =~= sizes);
    } else {
        lemma_total_split(sizes.skip(1), i - 1);
        assert(sizes.skip(1).take(i - 1) =~= sizes.take(i).skip(1));
        assert(sizes.skip(1).skip(i - 1) =~= sizes.skip(i));
        assert(sizes.take(i)[0] == sizes[0]);
    }
}

/// Extending a prefix by one size adds that size.
proof fn lemma_total_take_succ(sizes: Seq<u64>, i: int)
    requires
        0 <= i < sizes.len(),
    ensures
        total_of(sizes.take(i + 1)) == total_of(sizes.take(i)) + sizes[i],
{
    lemma_total_split(sizes, i);
    lemma_total_split(sizes, i + 1);
    assert(sizes.skip(i)[0] == sizes[i]);
    assert(sizes.skip(i).skip(1) =~= sizes.skip(i + 1));
}

} // verus!
