//! Byte-level UTF-8 helpers: classifying lead bytes, decoding or encoding a
//! single scalar at a sequence's front, leading-run specifications, and the
//! whitespace classification the scanning layers share.

use vstd::prelude::*;
use vstd::utf8::is_leading_byte_width_1;
use vstd::utf8::is_leading_byte_width_2;
use vstd::utf8::is_leading_byte_width_3;
use vstd::utf8::is_leading_byte_width_4;
use vstd::utf8::valid_first_scalar;
use vstd::utf8::valid_leading_and_continuation_bytes_first_codepoint;
use vstd::utf8::decode_first_scalar;
use vstd::utf8::decode_first_codepoint;
use vstd::utf8::length_of_first_scalar;
use vstd::utf8::length_of_first_codepoint;
use vstd::utf8::is_scalar;
use vstd::utf8::encode_scalar;
use vstd::utf8::char_is_scalar;
use vstd::utf8::char_u32_cast;

verus! {

/// How many bytes an encoding headed by this byte occupies; 0 when the byte
/// cannot head an encoding (continuation bytes and bytes above 0xf7).
pub open spec fn lead_width(b: u8) -> nat {
    if is_leading_byte_width_1(b) {
        1
    } else if is_leading_byte_width_2(b) {
        2
    } else if is_leading_byte_width_3(b) {
        3
    } else if is_leading_byte_width_4(b) {
        4
    } else {
        0
    }
}

pub fn utf8_lead_width(b: u8) -> (w: usize)
    ensures
        w as nat == lead_width(b),
{
    if b <= 0x7f {
        1
    } else if 0xc0 <= b && b <= 0xdf {
        2
    } else if 0xe0 <= b && b <= 0xef {
        3
    } else if 0xf0 <= b && b <= 0xf7 {
        4
    } else {
        0
    }
}

/// The scalar decoded from the front of a byte sequence, when a complete
/// well-formed encoding stands there; `None` when the front is truncated or
/// not a valid encoding.
pub open spec fn decode_front(s: Seq<u8>) -> Option<char> {
    if valid_first_scalar(s) {
        Some(decode_first_scalar(s) as char)
    } else {
        None
    }
}

/// Width in bytes of the front scalar's encoding (0 when there is none).
pub open spec fn front_width(s: Seq<u8>) -> nat {
    if valid_first_scalar(s) {
        length_of_first_scalar(s) as nat
    } else {
        0
    }
}

/// Relies on char::from_u32: it returns a char exactly for Unicode scalar
/// values (not a surrogate, at most 0x10FFFF), and the returned char casts
/// back to the given value.
pub assume_specification[ char::from_u32 ](v: u32) -> (r: Option<char>)
    ensures
        r is Some <==> is_scalar(v),
        r matches Some(c) ==> c as u32 == v,
;

/// Decoding only reads the front scalar's bytes, so truncating the sequence
/// anywhere past them changes nothing.
pub proof fn lemma_decode_front_prefix(s: Seq<u8>, k: int)
    requires
        0 < k <= s.len(),
        lead_width(s[0]) <= k,
    ensures
        decode_front(s.take(k)) == decode_front(s),
        front_width(s.take(k)) == front_width(s),
{
    let t = s.take(k);
    assert(t[0] == s[0]);
    assert(valid_leading_and_continuation_bytes_first_codepoint(t)
        == valid_leading_and_continuation_bytes_first_codepoint(s));
    if valid_leading_and_continuation_bytes_first_codepoint(s) {
        assert(length_of_first_codepoint(t) == length_of_first_codepoint(s));
        assert(decode_first_codepoint(t) == decode_first_codepoint(s));
    }
}

/// Decodes the scalar at the front of `v`, mirroring [`decode_front`].
pub fn decode_front_vec(v: &Vec<u8>) -> (r: Option<char>)
    ensures
        r == decode_front(v@),
{
    let n = v.len();
    if n == 0 {
        return None;
    }
    let b0 = v[0];
    let w = utf8_lead_width(b0);
    if w == 0 || n < w {
        return None;
    }
    let cp: u32;
    if w == 1 {
        cp = b0 as u32;
        proof {
            assert(b0 & 0x7f == b0) by (bit_vector)
                requires
                    b0 <= 0x7f,
            ;
        }
    } else if w == 2 {
        let b1 = v[1];
        if !(0x80 <= b1 && b1 <= 0xbf) {
            return None;
        }
        cp = (((b0 & 0x1f) as u32) << 6u32) | ((b1 & 0x3f) as u32);
        if cp < 0x80 {
            return None;
        }
        proof {
            assert(cp <= 0x7ff) by (bit_vector)
                requires
                    cp == (((b0 & 0x1f) as u32) << 6u32) | ((b1 & 0x3f) as u32),
            ;
        }
    } else if w == 3 {
        let b1 = v[1];
        let b2 = v[2];
        if !(0x80 <= b1 && b1 <= 0xbf) || !(0x80 <= b2 && b2 <= 0xbf) {
            return None;
        }
        cp = (((b0 & 0x0f) as u32) << 12u32) | (((b1 & 0x3f) as u32) << 6u32) | ((b2
            & 0x3f) as u32);
        if cp < 0x800 || (0xd800 <= cp && cp <= 0xdfff) {
            return None;
        }
        proof {
            assert(cp <= 0xffff) by (bit_vector)
                requires
                    cp == (((b0 & 0x0f) as u32) << 12u32) | (((b1 & 0x3f) as u32) << 6u32) | ((b2
                        & 0x3f) as u32),
            ;
        }
    } else {
        let b1 = v[1];
        let b2 = v[2];
        let b3 = v[3];
        if !(0x80 <= b1 && b1 <= 0xbf) || !(0x80 <= b2 && b2 <= 0xbf) || !(0x80 <= b3 && b3
            <= 0xbf) {
            return None;
        }
        cp = (((b0 & 0x07) as u32) << 18u32) | (((b1 & 0x3f) as u32) << 12u32) | (((b2
            & 0x3f) as u32) << 6u32) | ((b3 & 0x3f) as u32);
        if cp < 0x10000 || cp > 0x10ffff {
            return None;
        }
    }
    proof {
        assert(valid_first_scalar(v@));
        assert(cp == decode_first_codepoint(v@));
        assert(is_scalar(cp));
    }
    match char::from_u32(cp) {
        Some(c) => {
            proof {
                char_u32_cast(c, cp);
            }
            Some(c)
        },
        None => {
            proof {
                assert(false);
            }
            None
        },
    }
}

/// The UTF-8 encoding of one char, mirroring vstd's `encode_scalar`.
pub fn encode_char_bytes(c: char) -> (r: Vec<u8>)
    ensures
        r@ == encode_scalar(c as u32),
        1 <= r@.len() <= 4,
{
    proof {
        char_is_scalar(c);
    }
    let cp = c as u32;
    let mut r: Vec<u8> = Vec::new();
    if cp <= 0x7f {
        r.push((cp & 0x7f) as u8);
    } else if cp <= 0x7ff {
        r.push(0xc0 | ((cp >> 6u32) & 0x1f) as u8);
        r.push(0x80 | (cp & 0x3f) as u8);
    } else if cp <= 0xffff {
        r.push(0xe0 | ((cp >> 12u32) & 0x0f) as u8);
        r.push(0x80 | ((cp >> 6u32) & 0x3f) as u8);
        r.push(0x80 | (cp & 0x3f) as u8);
    } else {
        r.push(0xf0 | ((cp >> 18u32) & 0x7) as u8);
        r.push(0x80 | ((cp >> 12u32) & 0x3f) as u8);
        r.push(0x80 | ((cp >> 6u32) & 0x3f) as u8);
        r.push(0x80 | (cp & 0x3f) as u8);
    }
    proof {
        assert(r@ =~= encode_scalar(cp));
    }
    r
}

/// The generic whitespace set the scanning layers skip and trim by default:
/// every codepoint with the Unicode White_Space property.
pub open spec fn is_space_char(c: char) -> bool {
    ||| c == ' '
    ||| c == '\t'
    ||| c == '\n'
    ||| c == '\u{b}'
    ||| c == '\u{c}'
    ||| c == '\r'
    ||| c == '\u{85}'
    ||| c == '\u{a0}'
    ||| c == '\u{1680}'
    ||| ('\u{2000}' <= c && c <= '\u{200a}')
    ||| c == '\u{2028}'
    ||| c == '\u{2029}'
    ||| c == '\u{202f}'
    ||| c == '\u{205f}'
    ||| c == '\u{3000}'
}

pub fn space_char(c: char) -> (r: bool)
    ensures
        r == is_space_char(c),
{
    c == ' ' || c == '\t' || c == '\n' || c == '\u{b}' || c == '\u{c}' || c == '\r' || c
        == '\u{85}' || c == '\u{a0}' || c == '\u{1680}' || ('\u{2000}' <= c && c <= '\u{200a}')
        || c == '\u{2028}' || c == '\u{2029}' || c == '\u{202f}' || c == '\u{205f}' || c
        == '\u{3000}'
}

/// The four bytes the parser and the byte-level pad skipper treat as
/// whitespace: space, tab, carriage return, line feed.
pub open spec fn is_space_byte(b: u8) -> bool {
    b == 32 || b == 9 || b == 13 || b == 10
}

pub fn space_byte(b: u8) -> (r: bool)
    ensures
        r == is_space_byte(b),
{
    b == 32 || b == 9 || b == 13 || b == 10
}

/// Relies on String::push: it appends the given char to the end of the
/// string.
pub assume_specification[ String::push ](s: &mut String, c: char)
    ensures
        final(s)@ == old(s)@.push(c),
;

/// Appends one char; a named wrapper so callers need not import anything.
pub fn push_char(s: &mut String, c: char)
    ensures
        final(s)@ == old(s)@.push(c),
{
    s.push(c);
}

/// Length of the longest prefix whose elements all satisfy `p`.
pub open spec fn run_of<T>(s: Seq<T>, p: spec_fn(T) -> bool) -> int
    decreases s.len(),
{
    if s.len() > 0 && p(s[0]) {
        1 + run_of(s.drop_first(), p)
    } else {
        0
    }
}

pub proof fn lemma_run_of_bounds<T>(s: Seq<T>, p: spec_fn(T) -> bool)
    ensures
        0 <= run_of(s, p) <= s.len(),
        forall|j: int| 0 <= j < run_of(s, p) ==> p(s[j]),
        run_of(s, p) < s.len() ==> !p(s[run_of(s, p)]),
    decreases s.len(),
{
    if s.len() > 0 && p(s[0]) {
        lemma_run_of_bounds(s.drop_first(), p);
        assert forall|j: int| 0 <= j < run_of(s, p) implies p(s[j]) by {
            if j > 0 {
                assert(p(s.drop_first()[j - 1]));
            }
        }
    }
}

} // verus!
