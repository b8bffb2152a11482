//! Detects whether a byte buffer is likely UTF-8 text: counts null bytes and
//! validates UTF-8 well-formedness, tolerating one incomplete multibyte
//! character at the end of the buffer.

use vstd::prelude::*;

verus! {

/// The number of null bytes in the buffer.
pub open spec fn null_count(s: Seq<u8>) -> nat
    decreases s.len(),
{
    if s.len() == 0 {
        0
    } else {
        (if s[0] == 0 {
            1nat
        } else {
            0nat
        }) + null_count(s.skip(1))
    }
}

/// A UTF-8 continuation byte.
pub open spec fn cont_byte(b: u8) -> bool {
    0x80 <= b <= 0xBF
}

/// The first byte of a two-, three- or four-byte UTF-8 character.
pub open spec fn lead_byte(b: u8) -> bool {
    (0xC0 <= b <= 0xDF) || (0xE0 <= b <= 0xEF) || (0xF0 <= b <= 0xF7)
}

/// Well-formed UTF-8, byte by byte, after the table in RFC 3629: ASCII stands
/// alone; two-byte characters start at `C2..DF`; three-byte characters start
/// at `E0..EF` with the narrowed second-byte ranges that exclude overlong
/// forms and surrogates; four-byte characters start at `F0..F4` with the
/// narrowed ranges that stay below `U+110000`.
pub open spec fn utf8_valid(s: Seq<u8>) -> bool
    decreases s.len(),
{
    if s.len() == 0 {
        true
    } else {
        let b0 = s[0];
        if b0 < 0x80 {
            utf8_valid(s.skip(1))
        } else if 0xC2 <= b0 <= 0xDF {
            s.len() >= 2 && cont_byte(s[1]) && utf8_valid(s.skip(2))
        } else if b0 == 0xE0 {
            s.len() >= 3 && 0xA0 <= s[1] <= 0xBF && cont_byte(s[2]) && utf8_valid(s.skip(3))
        } else if b0 == 0xED {
            s.len() >= 3 && 0x80 <= s[1] <= 0x9F && cont_byte(s[2]) && utf8_valid(s.skip(3))
        } else if 0xE0 <= b0 <= 0xEF {
            s.len() >= 3 && cont_byte(s[1]) && cont_byte(s[2]) && utf8_valid(s.skip(3))
        } else if b0 == 0xF0 {
            s.len() >= 4 && 0x90 <= s[1] <= 0xBF && cont_byte(s[2]) && cont_byte(s[3])
                && utf8_valid(s.skip(4))
        } else if b0 == 0xF4 {
            s.len() >= 4 && 0x80 <= s[1] <= 0x8F && cont_byte(s[2]) && cont_byte(s[3])
                && utf8_valid(s.skip(4))
        } else if 0xF1 <= b0 <= 0xF3 {
            s.len() >= 4 && cont_byte(s[1]) && cont_byte(s[2]) && cont_byte(s[3]) && utf8_valid(
                s.skip(4),
            )
        } else {
            false
        }
    }
}

/// The prefix kept after scanning backwards from `i` for the byte that opens
/// the last character: continuation bytes are stepped over; a lead byte is
/// cut off together with what follows it; any other byte ends the scan with
/// everything up to it kept; a window of nothing but continuation bytes keeps
/// the whole buffer.
pub open spec fn scan_cut(s: Seq<u8>, i: int, start: int) -> Seq<u8>
    decreases i - start + 1,
{
    if i < start {
        s
    } else if cont_byte(s[i]) {
        scan_cut(s, i - 1, start)
    } else if lead_byte(s[i]) {
        s.take(i)
    } else {
        s.take(i + 1)
    }
}

/// The buffer with an incomplete multibyte character trimmed off the end: the
/// last four bytes are scanned backwards for the byte that opens the final
/// character, and that character is cut off whole.
pub open spec fn trimmed_tail(s: Seq<u8>) -> Seq<u8> {
    scan_cut(s, s.len() - 1, if s.len() > 4 {
        s.len() - 4
    } else {
        0
    })
}

/// What `is_valid_utf8` accepts: the buffer, with an incomplete trailing
/// multibyte character trimmed, is well-formed UTF-8.
pub open spec fn valid_utf8_text(s: Seq<u8>) -> bool {
    utf8_valid(trimmed_tail(s))
}

/// Counts the number of null bytes in a buffer.
pub fn number_of_null_bytes(buffer: &[u8]) -> (r: usize)
    ensures
        r as nat == null_count(buffer@),
{
    let n: usize = buffer.len();
    let mut count: usize = 0;
    let mut i: usize = 0;
    proof {
        assert(buffer@.skip(0) =~= buffer@);
    }
    while i < n
        invariant
            i <= n,
            n == buffer@.len(),
            count <= i,
            null_count(buffer@) == count + null_count(buffer@.skip(i as int)),
        decreases n - i,
    {
        proof {
            assert(buffer@.skip(i as int)[0] == buffer@[i as int]);
            assert(buffer@.skip(i as int).skip(1) =~= buffer@.skip(i + 1));
        }
        if buffer[i] == 0 {
            count = count + 1;
        }
        i = i + 1;
    }
    proof {
        assert(buffer@.skip(i as int).len() == 0);
        assert(buffer@.skip(i as int) =~= Seq::<u8>::empty());
    }
    count
}

/// Whether the first `end` bytes of the buffer are well-formed UTF-8.
fn utf8_check_prefix(buffer: &[u8], end: usize) -> (r: bool)
    requires
        end <= buffer@.len(),
    ensures
        r == utf8_valid(buffer@.take(end as int)),
{
    let ghost p = buffer@.take(end as int);
    let mut i: usize = 0;
    proof {
        assert(p.skip(0) =~= p);
    }
    while i < end
        invariant
            i <= end,
            end <= buffer@.len(),
            p == buffer@.take(end as int),
            utf8_valid(p) == utf8_valid(p.skip(i as int)),
        decreases end - i,
    {
        let b0 = buffer[i];
        proof {
            assert(p.skip(i as int)[0] == buffer@[i as int]);
        }
        let ghost rest = p.skip(i as int);
        if b0 < 0x80 {
            proof {
                assert(rest.skip(1) =~= p.skip(i + 1));
            }
            i = i + 1;
        } else if 0xC2 <= b0 && b0 <= 0xDF {
            if end - i < 2 {
                return false;
            }
            let b1 = buffer[i + 1];
            proof {
                assert(rest[1] == buffer@[i + 1]);
            }
            if !(0x80 <= b1 && b1 <= 0xBF) {
                return false;
            }
            proof {
                assert(rest.skip(2) =~= p.skip(i + 2));
            }
            i = i + 2;
        } else if 0xE0 <= b0 && b0 <= 0xEF {
            if end - i < 3 {
                return false;
            }
            let b1 = buffer[i + 1];
            let b2 = buffer[i + 2];
            proof {
                assert(rest[1] == buffer@[i + 1]);
                assert(rest[2] == buffer@[i + 2]);
            }
            let lo: u8 = if b0 == 0xE0 {
                0xA0
            } else {
                0x80
            };
            let hi: u8 = if b0 == 0xED {
                0x9F
            } else {
                0xBF
            };
            if !(lo <= b1 && b1 <= hi) {
                return false;
            }
            if !(0x80 <= b2 && b2 <= 0xBF) {
                return false;
            }
            proof {
                assert(rest.skip(3) =~= p.skip(i + 3));
            }
            i = i + 3;
        } else if 0xF0 <= b0 && b0 <= 0xF4 {
            if end - i < 4 {
                return false;
            }
            let b1 = buffer[i + 1];
            let b2 = buffer[i + 2];
            let b3 = buffer[i + 3];
            proof {
                assert(rest[1] == buffer@[i + 1]);
                assert(rest[2] == buffer@[i + 2]);
                assert(rest[3] == buffer@[i + 3]);
            }
            let lo: u8 = if b0 == 0xF0 {
                0x90
            } else {
                0x80
            };
            let hi: u8 = if b0 == 0xF4 {
                0x8F
            } else {
                0xBF
            };
            if !(lo <= b1 && b1 <= hi) {
                return false;
            }
            if !(0x80 <= b2 && b2 <= 0xBF) {
                return false;
            }
            if !(0x80 <= b3 && b3 <= 0xBF) {
                return false;
            }
            proof {
                assert(rest.skip(4) =~= p.skip(i + 4));
            }
            i = i + 4;
        } else {
            return false;
        }
    }
    proof {
        assert(p.skip(i as int).len() == 0);
        assert(p.skip(i as int) =~= Seq::<u8>::empty());
    }
    true
}

/// Checks that a buffer holds well-formed UTF-8 after trimming an incomplete
/// multibyte character from its end: the last four bytes are scanned
/// backwards for the byte that opens the final character, and a character cut
/// short by the end of the buffer does not count against it.
pub fn is_valid_utf8(buffer: &[u8]) -> (r: bool)
    ensures
        r == valid_utf8_text(buffer@),
{
    let len: usize = buffer.len();
    let start: usize = if len > 4 {
        len - 4
    } else {
        0
    };
    let mut i: usize = len;
    while i > start
        invariant
            start <= i <= len,
            len == buffer@.len(),
            start == (if buffer@.len() > 4 {
                buffer@.len() - 4
            } else {
                0
            }),
            scan_cut(buffer@, len - 1, start as int) == scan_cut(buffer@, i - 1, start as int),
        decreases i,
    {
        let b = buffer[i - 1];
        if !(0x80 <= b && b <= 0xBF) {
            let trim_to: usize = if (0xC0 <= b && b <= 0xDF) || (0xE0 <= b && b <= 0xEF) || (0xF0
                <= b && b <= 0xF7) {
                i - 1
            } else {
                i
            };
            proof {
                assert(scan_cut(buffer@, i - 1, start as int) == buffer@.take(trim_to as int));
            }
            return utf8_check_prefix(buffer, trim_to);
        }
        i = i - 1;
    }
    proof {
        assert(scan_cut(buffer@, i - 1, start as int) == buffer@);
        assert(buffer@.take(len as int) =~= buffer@);
    }
    utf8_check_prefix(buffer, len)
}

/// Whether a code point is a Unicode scalar value, and so a valid `char`.
pub open spec fn scalar_ok(cp: int) -> bool {
    (0 <= cp < 0xD800) || (0xE000 <= cp <= 0x10FFFF)
}

/// Relies on `char::from_u32`: the scalar value `cp` as a character.
#[verifier::external_body]
fn char_of_scalar(cp: u32) -> (c: char)
    requires
        scalar_ok(cp as int),
    ensures
        c as u32 == cp,
{
    char::from_u32(cp).unwrap()
}

/// A decoded character kept unless it is the replacement character, which the
/// cleaner deletes along with every undecodable byte.
pub open spec fn keep_char(cp: int) -> Seq<char> {
    if cp == 0xFFFD {
        Seq::empty()
    } else {
        seq![cp as char]
    }
}

/// The text a byte buffer cleans to: every well-formed UTF-8 character is
/// decoded (the table of `utf8_valid`), every byte that opens no well-formed
/// character is dropped, and the replacement character is dropped too. This
/// deletes exactly what decoding the buffer with replacement characters and
/// then deleting those characters would produce: an undecodable stretch of
/// bytes never contains the start of a well-formed character, so dropping its
/// bytes one at a time decodes the same characters.
pub open spec fn utf8_cleaned(s: Seq<u8>) -> Seq<char>
    decreases s.len(),
{
    if s.len() == 0 {
        Seq::empty()
    } else {
        let b0 = s[0];
        if b0 < 0x80 {
            keep_char(b0 as int) + utf8_cleaned(s.skip(1))
        } else if 0xC2 <= b0 <= 0xDF && s.len() >= 2 && cont_byte(s[1]) {
            keep_char((b0 - 0xC0) * 0x40 + (s[1] - 0x80)) + utf8_cleaned(s.skip(2))
        } else if b0 == 0xE0 && s.len() >= 3 && 0xA0 <= s[1] <= 0xBF && cont_byte(s[2]) {
            keep_char((b0 - 0xE0) * 0x1000 + (s[1] - 0x80) * 0x40 + (s[2] - 0x80)) + utf8_cleaned(
                s.skip(3),
            )
        } else if b0 == 0xED && s.len() >= 3 && 0x80 <= s[1] <= 0x9F && cont_byte(s[2]) {
            keep_char((b0 - 0xE0) * 0x1000 + (s[1] - 0x80) * 0x40 + (s[2] - 0x80)) + utf8_cleaned(
                s.skip(3),
            )
        } else if 0xE0 <= b0 <= 0xEF && b0 != 0xE0 && b0 != 0xED && s.len() >= 3 && cont_byte(s[1])
            && cont_byte(s[2]) {
            keep_char((b0 - 0xE0) * 0x1000 + (s[1] - 0x80) * 0x40 + (s[2] - 0x80)) + utf8_cleaned(
                s.skip(3),
            )
        } else if b0 == 0xF0 && s.len() >= 4 && 0x90 <= s[1] <= 0xBF && cont_byte(s[2])
            && cont_byte(s[3]) {
            keep_char(
                (b0 - 0xF0) * 0x40000 + (s[1] - 0x80) * 0x1000 + (s[2] - 0x80) * 0x40 + (s[3]
                    - 0x80),
            ) + utf8_cleaned(s.skip(4))
        } else if b0 == 0xF4 && s.len() >= 4 && 0x80 <= s[1] <= 0x8F && cont_byte(s[2])
            && cont_byte(s[3]) {
            keep_char(
                (b0 - 0xF0) * 0x40000 + (s[1] - 0x80) * 0x1000 + (s[2] - 0x80) * 0x40 + (s[3]
                    - 0x80),
            ) + utf8_cleaned(s.skip(4))
        } else if 0xF1 <= b0 <= 0xF3 && s.len() >= 4 && cont_byte(s[1]) && cont_byte(s[2])
            && cont_byte(s[3]) {
            keep_char(
                (b0 - 0xF0) * 0x40000 + (s[1] - 0x80) * 0x1000 + (s[2] - 0x80) * 0x40 + (s[3]
                    - 0x80),
            ) + utf8_cleaned(s.skip(4))
        } else {
            utf8_cleaned(s.skip(1))
        }
    }
}

/// Decodes a byte buffer to clean UTF-8 text: well-formed characters are
/// kept, undecodable bytes are deleted, and so is the replacement character.
pub fn utf8_text_cleaned(bytes: &[u8]) -> (r: String)
    ensures
        r@ == utf8_cleaned(bytes@),
{
    let n: usize = bytes.len();
    let mut out: Vec<char> = Vec::new();
    let mut i: usize = 0;
    proof {
        assert(bytes@.skip(0) =~= bytes@);
        assert(out@ + utf8_cleaned(bytes@) =~= utf8_cleaned(bytes@));
    }
    while i < n
        invariant
            i <= n,
            n == bytes@.len(),
            utf8_cleaned(bytes@) == out@ + utf8_cleaned(bytes@.skip(i as int)),
        decreases n - i,
    {
        let ghost rest = bytes@.skip(i as int);
        let b0 = bytes[i];
        proof {
            assert(rest[0] == bytes@[i as int]);
            if rest.len() >= 2 {
                assert(rest[1] == bytes@[i + 1]);
            }
            if rest.len() >= 3 {
                assert(rest[2] == bytes@[i + 2]);
            }
            if rest.len() >= 4 {
                assert(rest[3] == bytes@[i + 3]);
            }
        }
        let took: usize;
        let mut cp: u32 = 0;
        let mut valid: bool = false;
        if b0 < 0x80 {
            cp = b0 as u32;
            valid = true;
            took = 1;
        } else if 0xC2 <= b0 && b0 <= 0xDF && n - i >= 2 {
            let b1 = bytes[i + 1];
            if 0x80 <= b1 && b1 <= 0xBF {
                cp = (b0 as u32 - 0xC0) * 0x40 + (b1 as u32 - 0x80);
                valid = true;
                took = 2;
            } else {
                took = 1;
            }
        } else if 0xE0 <= b0 && b0 <= 0xEF && n - i >= 3 {
            let b1 = bytes[i + 1];
            let b2 = bytes[i + 2];
            let lo: u8 = if b0 == 0xE0 {
                0xA0
            } else {
                0x80
            };
            let hi: u8 = if b0 == 0xED {
                0x9F
            } else {
                0xBF
            };
            if lo <= b1 && b1 <= hi && 0x80 <= b2 && b2 <= 0xBF {
                cp = (b0 as u32 - 0xE0) * 0x1000 + (b1 as u32 - 0x80) * 0x40 + (b2 as u32 - 0x80);
                valid = true;
                took = 3;
            } else {
                took = 1;
            }
        } else if 0xF0 <= b0 && b0 <= 0xF4 && n - i >= 4 {
            let b1 = bytes[i + 1];
            let b2 = bytes[i + 2];
            let b3 = bytes[i + 3];
            let lo: u8 = if b0 == 0xF0 {
                0x90
            } else {
                0x80
            };
            let hi: u8 = if b0 == 0xF4 {
                0x8F
            } else {
                0xBF
            };
            if lo <= b1 && b1 <= hi && 0x80 <= b2 && b2 <= 0xBF && 0x80 <= b3 && b3 <= 0xBF {
                cp = (b0 as u32 - 0xF0) * 0x40000 + (b1 as u32 - 0x80) * 0x1000 + (b2 as u32
                    - 0x80) * 0x40 + (b3 as u32 - 0x80);
                valid = true;
                took = 4;
            } else {
                took = 1;
            }
        } else {
            took = 1;
        }
        proof {
            assert(rest.skip(took as int) =~= bytes@.skip(i + took));
        }
        if valid {
            if cp != 0xFFFD {
                let c = char_of_scalar(cp);
                out.push(c);
            }
        }
        i = i + took;
    }
    proof {
        assert(bytes@.skip(i as int).len() == 0);
        assert(utf8_cleaned(bytes@.skip(i as int)) == Seq::<char>::empty());
        assert(out@ + Seq::<char>::empty() =~= out@);
    }
    crate::text::chars_string(&out)
}

/// Whether the buffer is likely a UTF-8 text file: it holds no null bytes and
/// is well-formed UTF-8 up to an incomplete trailing multibyte character.
pub fn is_valid_text(buffer: &[u8]) -> (r: bool)
    ensures
        r == (null_count(buffer@) == 0 && valid_utf8_text(buffer@)),
{
    if number_of_null_bytes(buffer) > 0 {
        false
    } else {
        is_valid_utf8(buffer)
    }
}

} // verus!
