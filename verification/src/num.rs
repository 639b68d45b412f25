//! Decimal text to machine integers: the conversion applied to the span the
//! digit scanner matched, with exact acceptance conditions per target type.

use vstd::prelude::*;

verus! {

pub open spec fn is_digit_byte(b: u8) -> bool {
    48 <= b <= 57
}

pub open spec fn is_sign_byte(b: u8) -> bool {
    b == 43 || b == 45
}

pub open spec fn all_digit_bytes(s: Seq<u8>) -> bool {
    forall|i: int| 0 <= i < s.len() ==> is_digit_byte(#[trigger] s[i])
}

/// Whether the bytes match an optional sign followed by at least one digit.
pub open spec fn is_signed_digit_text(s: Seq<u8>) -> bool {
    if s.len() > 0 && is_sign_byte(s[0]) {
        s.len() >= 2 && all_digit_bytes(s.skip(1))
    } else {
        s.len() >= 1 && all_digit_bytes(s)
    }
}

/// Value of a digit string read in base ten.
pub open spec fn dec_val_bytes(s: Seq<u8>) -> int
    decreases s.len(),
{
    if s.len() == 0 {
        0
    } else {
        dec_val_bytes(s.drop_last()) * 10 + (s.last() as int - 48)
    }
}

/// The signed value the whole span denotes.
pub open spec fn text_val(s: Seq<u8>) -> int {
    if s.len() > 0 && s[0] == 45 {
        -dec_val_bytes(s.skip(1))
    } else if s.len() > 0 && s[0] == 43 {
        dec_val_bytes(s.skip(1))
    } else {
        dec_val_bytes(s)
    }
}

/// A type that can be read from the span the digit scanner matched.
/// `from_decimal` succeeds exactly when the span is an optionally signed
/// digit string whose value the type can hold, with a minus sign accepted
/// only where the type is signed.
pub trait FromDecimal: Sized {
    spec fn min_int() -> int;

    spec fn max_int() -> int;

    spec fn accepts_minus() -> bool;

    spec fn as_int(self) -> int;

    fn from_decimal(span: &Vec<u8>) -> (r: Option<Self>)
        ensures
            r is Some <==> {
                &&& is_signed_digit_text(span@)
                &&& (span@.len() > 0 && span@[0] == 45 ==> Self::accepts_minus())
                &&& Self::min_int() <= text_val(span@) <= Self::max_int()
            },
            match r {
                Some(v) => v.as_int() == text_val(span@),
                None => true,
            },
    ;
}

/// When a span converts to a value of `T`.
pub open spec fn dec_accepts<T: FromDecimal>(s: Seq<u8>) -> bool {
    &&& is_signed_digit_text(s)
    &&& (s.len() > 0 && s[0] == 45 ==> T::accepts_minus())
    &&& T::min_int() <= text_val(s) <= T::max_int()
}

pub proof fn lemma_dec_val_bytes_nonneg(s: Seq<u8>)
    requires
        all_digit_bytes(s),
    ensures
        dec_val_bytes(s) >= 0,
    decreases s.len(),
{
    if s.len() > 0 {
        assert(is_digit_byte(s[s.len() - 1]));
        assert forall|j: int| 0 <= j < s.drop_last().len() implies is_digit_byte(
            #[trigger] s.drop_last()[j],
        ) by {
            assert(s.drop_last()[j] == s[j]);
        }
        lemma_dec_val_bytes_nonneg(s.drop_last());
    }
}

pub proof fn lemma_dec_val_bytes_step(s: Seq<u8>, n: int)
    requires
        0 <= n < s.len(),
    ensures
        dec_val_bytes(s.take(n + 1)) == dec_val_bytes(s.take(n)) * 10 + (s[n] as int - 48),
{
    assert(s.take(n + 1).drop_last() =~= s.take(n));
    assert(s.take(n + 1).last() == s[n]);
}

pub proof fn lemma_dec_val_bytes_mono(s: Seq<u8>, m: int, n: int)
    requires
        0 <= m <= n <= s.len(),
        forall|j: int| 0 <= j < n ==> is_digit_byte(#[trigger] s[j]),
    ensures
        dec_val_bytes(s.take(m)) <= dec_val_bytes(s.take(n)),
    decreases n - m,
{
    if m < n {
        lemma_dec_val_bytes_mono(s, m, n - 1);
        lemma_dec_val_bytes_step(s, n - 1);
        assert forall|j: int| 0 <= j < s.take(n - 1).len() implies is_digit_byte(
            #[trigger] s.take(n - 1)[j],
        ) by {
            assert(s.take(n - 1)[j] == s[j]);
        }
        lemma_dec_val_bytes_nonneg(s.take(n - 1));
        assert(dec_val_bytes(s.take(n - 1)) * 10 >= dec_val_bytes(s.take(n - 1)))
            by (nonlinear_arith)
            requires
                dec_val_bytes(s.take(n - 1)) >= 0,
        ;
    }
}

/// Length of the leading run of decimal digit bytes.
pub open spec fn digit_run_bytes(s: Seq<u8>) -> int
    decreases s.len(),
{
    if s.len() > 0 && is_digit_byte(s[0]) {
        1 + digit_run_bytes(s.drop_first())
    } else {
        0
    }
}

pub proof fn lemma_digit_run_bytes(s: Seq<u8>)
    ensures
        0 <= digit_run_bytes(s) <= s.len(),
        forall|j: int| 0 <= j < digit_run_bytes(s) ==> is_digit_byte(#[trigger] s[j]),
        digit_run_bytes(s) < s.len() ==> !is_digit_byte(s[digit_run_bytes(s)]),
    decreases s.len(),
{
    if s.len() > 0 && is_digit_byte(s[0]) {
        lemma_digit_run_bytes(s.drop_first());
        assert forall|j: int| 0 <= j < digit_run_bytes(s) implies is_digit_byte(
            #[trigger] s[j],
        ) by {
            if j > 0 {
                assert(is_digit_byte(s.drop_first()[j - 1]));
            }
        }
        if digit_run_bytes(s) < s.len() {
            assert(s.drop_first()[digit_run_bytes(s) - 1] == s[digit_run_bytes(s)]);
        }
    }
}

pub proof fn lemma_digit_run_bytes_is(s: Seq<u8>, k: int)
    requires
        0 <= k <= s.len(),
        forall|j: int| 0 <= j < k ==> is_digit_byte(#[trigger] s[j]),
        k < s.len() ==> !is_digit_byte(s[k]),
    ensures
        digit_run_bytes(s) == k,
{
    lemma_digit_run_bytes(s);
    if digit_run_bytes(s) < k {
        assert(is_digit_byte(s[digit_run_bytes(s)]));
    }
    if k < digit_run_bytes(s) {
        assert(is_digit_byte(s[k]));
    }
}

/// Reads the digit run from `from` to the end as a magnitude. `None` when
/// there is no digit, a non-digit occurs, or the value exceeds the word.
fn parse_magnitude(span: &Vec<u8>, from: usize) -> (r: Option<u64>)
    requires
        from <= span@.len(),
    ensures
        ({
            let digits = span@.skip(from as int);
            match r {
                Some(m) => {
                    &&& digits.len() >= 1
                    &&& all_digit_bytes(digits)
                    &&& m as int == dec_val_bytes(digits)
                },
                None => !(digits.len() >= 1 && all_digit_bytes(digits) && dec_val_bytes(digits)
                    <= u64::MAX as int),
            }
        }),
{
    let ghost digits = span@.skip(from as int);
    let n = span.len();
    if from == n {
        return None;
    }
    let mut m: u64 = 0;
    let mut t = from;
    while t < n
        invariant
            from <= t <= n,
            n == span@.len(),
            digits == span@.skip(from as int),
            forall|j: int| 0 <= j < t - from ==> is_digit_byte(#[trigger] digits[j]),
            m as int == dec_val_bytes(digits.take(t - from)),
        decreases n - t,
    {
        let b = span[t];
        proof {
            assert(digits[t - from] == b);
        }
        if !(48 <= b && b <= 57) {
            return None;
        }
        let d = (b - 48) as u64;
        let m10 = match m.checked_mul(10) {
            Some(x) => x,
            None => {
                proof {
                    lemma_dec_val_bytes_step(digits, t - from);
                    if all_digit_bytes(digits) {
                        lemma_dec_val_bytes_mono(digits, t - from + 1, digits.len() as int);
                        assert(digits.take(digits.len() as int) =~= digits);
                    }
                }
                return None;
            },
        };
        let mn = match m10.checked_add(d) {
            Some(x) => x,
            None => {
                proof {
                    lemma_dec_val_bytes_step(digits, t - from);
                    if all_digit_bytes(digits) {
                        lemma_dec_val_bytes_mono(digits, t - from + 1, digits.len() as int);
                        assert(digits.take(digits.len() as int) =~= digits);
                    }
                }
                return None;
            },
        };
        proof {
            lemma_dec_val_bytes_step(digits, t - from);
        }
        m = mn;
        t = t + 1;
    }
    proof {
        assert(digits.take(digits.len() as int) =~= digits);
    }
    Some(m)
}

/// Splits the optional sign off and reads the magnitude: the sign flag and
/// magnitude of a well-formed span whose magnitude fits a `u64`.
fn split_parse(span: &Vec<u8>) -> (r: Option<(bool, u64)>)
    ensures
        match r {
            Some(p) => {
                &&& is_signed_digit_text(span@)
                &&& p.0 == (span@[0] == 45)
                &&& text_val(span@) == (if p.0 {
                    -(p.1 as int)
                } else {
                    p.1 as int
                })
            },
            None => !is_signed_digit_text(span@) || text_val(span@) > u64::MAX as int || text_val(
                span@,
            ) < -(u64::MAX as int),
        },
{
    if span.len() == 0 {
        return None;
    }
    let b0 = span[0];
    if b0 == 43 || b0 == 45 {
        match parse_magnitude(span, 1) {
            Some(m) => {
                proof {
                    lemma_dec_val_bytes_nonneg(span@.skip(1));
                }
                Some((b0 == 45, m))
            },
            None => {
                proof {
                    let digits = span@.skip(1);
                    if is_signed_digit_text(span@) {
                        lemma_dec_val_bytes_nonneg(digits);
                    }
                }
                None
            },
        }
    } else {
        match parse_magnitude(span, 0) {
            Some(m) => {
                proof {
                    assert(span@.skip(0) =~= span@);
                    lemma_dec_val_bytes_nonneg(span@);
                }
                Some((false, m))
            },
            None => {
                proof {
                    assert(span@.skip(0) =~= span@);
                    if is_signed_digit_text(span@) {
                        lemma_dec_val_bytes_nonneg(span@);
                    }
                }
                None
            },
        }
    }
}

impl FromDecimal for u64 {
    open spec fn min_int() -> int {
        0
    }

    open spec fn max_int() -> int {
        0xffff_ffff_ffff_ffff
    }

    open spec fn accepts_minus() -> bool {
        false
    }

    open spec fn as_int(self) -> int {
        self as int
    }

    fn from_decimal(span: &Vec<u8>) -> (r: Option<u64>) {
        match split_parse(span) {
            Some((neg, mag)) => {
                if neg {
                    None
                } else {
                    Some(mag)
                }
            },
            None => None,
        }
    }
}

impl FromDecimal for usize {
    open spec fn min_int() -> int {
        0
    }

    open spec fn max_int() -> int {
        usize::MAX as int
    }

    open spec fn accepts_minus() -> bool {
        false
    }

    open spec fn as_int(self) -> int {
        self as int
    }

    fn from_decimal(span: &Vec<u8>) -> (r: Option<usize>) {
        match split_parse(span) {
            Some((neg, mag)) => {
                if neg {
                    None
                } else if mag <= usize::MAX as u64 {
                    Some(mag as usize)
                } else {
                    None
                }
            },
            None => None,
        }
    }
}

impl FromDecimal for u32 {
    open spec fn min_int() -> int {
        0
    }

    open spec fn max_int() -> int {
        0xffff_ffff
    }

    open spec fn accepts_minus() -> bool {
        false
    }

    open spec fn as_int(self) -> int {
        self as int
    }

    fn from_decimal(span: &Vec<u8>) -> (r: Option<u32>) {
        match split_parse(span) {
            Some((neg, mag)) => {
                if neg {
                    None
                } else if mag <= 0xffff_ffff {
                    Some(mag as u32)
                } else {
                    None
                }
            },
            None => None,
        }
    }
}

impl FromDecimal for u16 {
    open spec fn min_int() -> int {
        0
    }

    open spec fn max_int() -> int {
        0xffff
    }

    open spec fn accepts_minus() -> bool {
        false
    }

    open spec fn as_int(self) -> int {
        self as int
    }

    fn from_decimal(span: &Vec<u8>) -> (r: Option<u16>) {
        match split_parse(span) {
            Some((neg, mag)) => {
                if neg {
                    None
                } else if mag <= 0xffff {
                    Some(mag as u16)
                } else {
                    None
                }
            },
            None => None,
        }
    }
}

impl FromDecimal for u8 {
    open spec fn min_int() -> int {
        0
    }

    open spec fn max_int() -> int {
        0xff
    }

    open spec fn accepts_minus() -> bool {
        false
    }

    open spec fn as_int(self) -> int {
        self as int
    }

    fn from_decimal(span: &Vec<u8>) -> (r: Option<u8>) {
        match split_parse(span) {
            Some((neg, mag)) => {
                if neg {
                    None
                } else if mag <= 0xff {
                    Some(mag as u8)
                } else {
                    None
                }
            },
            None => None,
        }
    }
}

impl FromDecimal for i64 {
    open spec fn min_int() -> int {
        -0x8000_0000_0000_0000
    }

    open spec fn max_int() -> int {
        0x7fff_ffff_ffff_ffff
    }

    open spec fn accepts_minus() -> bool {
        true
    }

    open spec fn as_int(self) -> int {
        self as int
    }

    fn from_decimal(span: &Vec<u8>) -> (r: Option<i64>) {
        match split_parse(span) {
            Some((neg, mag)) => {
                if neg {
                    if mag <= 0x7fff_ffff_ffff_ffff {
                        Some(-(mag as i64))
                    } else if mag == 0x8000_0000_0000_0000 {
                        Some(i64::MIN)
                    } else {
                        None
                    }
                } else {
                    if mag <= 0x7fff_ffff_ffff_ffff {
                        Some(mag as i64)
                    } else {
                        None
                    }
                }
            },
            None => None,
        }
    }
}

impl FromDecimal for isize {
    open spec fn min_int() -> int {
        isize::MIN as int
    }

    open spec fn max_int() -> int {
        isize::MAX as int
    }

    open spec fn accepts_minus() -> bool {
        true
    }

    open spec fn as_int(self) -> int {
        self as int
    }

    fn from_decimal(span: &Vec<u8>) -> (r: Option<isize>) {
        match split_parse(span) {
            Some((neg, mag)) => {
                if neg {
                    if mag <= isize::MAX as u64 {
                        Some(-(mag as isize))
                    } else if mag == (isize::MAX as u64) + 1 {
                        Some(isize::MIN)
                    } else {
                        None
                    }
                } else {
                    if mag <= isize::MAX as u64 {
                        Some(mag as isize)
                    } else {
                        None
                    }
                }
            },
            None => None,
        }
    }
}

impl FromDecimal for i32 {
    open spec fn min_int() -> int {
        -0x8000_0000
    }

    open spec fn max_int() -> int {
        0x7fff_ffff
    }

    open spec fn accepts_minus() -> bool {
        true
    }

    open spec fn as_int(self) -> int {
        self as int
    }

    fn from_decimal(span: &Vec<u8>) -> (r: Option<i32>) {
        match split_parse(span) {
            Some((neg, mag)) => {
                if neg {
                    if mag <= 0x8000_0000 {
                        Some((-(mag as i64)) as i32)
                    } else {
                        None
                    }
                } else {
                    if mag <= 0x7fff_ffff {
                        Some(mag as i32)
                    } else {
                        None
                    }
                }
            },
            None => None,
        }
    }
}

impl FromDecimal for i16 {
    open spec fn min_int() -> int {
        -0x8000
    }

    open spec fn max_int() -> int {
        0x7fff
    }

    open spec fn accepts_minus() -> bool {
        true
    }

    open spec fn as_int(self) -> int {
        self as int
    }

    fn from_decimal(span: &Vec<u8>) -> (r: Option<i16>) {
        match split_parse(span) {
            Some((neg, mag)) => {
                if neg {
                    if mag <= 0x8000 {
                        Some((-(mag as i64)) as i16)
                    } else {
                        None
                    }
                } else {
                    if mag <= 0x7fff {
                        Some(mag as i16)
                    } else {
                        None
                    }
                }
            },
            None => None,
        }
    }
}

impl FromDecimal for i8 {
    open spec fn min_int() -> int {
        -0x80
    }

    open spec fn max_int() -> int {
        0x7f
    }

    open spec fn accepts_minus() -> bool {
        true
    }

    open spec fn as_int(self) -> int {
        self as int
    }

    fn from_decimal(span: &Vec<u8>) -> (r: Option<i8>) {
        match split_parse(span) {
            Some((neg, mag)) => {
                if neg {
                    if mag <= 0x80 {
                        Some((-(mag as i64)) as i8)
                    } else {
                        None
                    }
                } else {
                    if mag <= 0x7f {
                        Some(mag as i8)
                    } else {
                        None
                    }
                }
            },
            None => None,
        }
    }
}

} // verus!
