//! The scanning runtime: a `Scanner` couples one scan spec with the shared
//! lookahead buffer for one argument's extraction, honoring the pre/post
//! padding protocol; the digit scanner and string capture implement the
//! value-category capability contracts.

use vstd::prelude::*;
use vstd::utf8::encode_scalar;
use vstd::string::StrSliceExecFns;
use crate::SourceError;
use crate::source::ByteSource;
use crate::buffer::LookaheadBuffer;
use crate::buffer::pad_run_count;
use crate::buffer::lemma_pad_run_count_bounds;
use crate::parse::Alignment;
use crate::parse::ScanSpec;
use crate::text::run_of;
use crate::text::is_space_byte;
use crate::text::is_space_char;
use crate::text::space_char;
use crate::text::decode_front;
use crate::text::lead_width;
use crate::text::utf8_lead_width;
use crate::text::decode_front_vec;
use crate::text::lemma_decode_front_prefix;
use crate::text::push_char;
use crate::num::FromDecimal;
use crate::num::is_sign_byte;
use crate::num::is_digit_byte;
use crate::num::digit_run_bytes;
use crate::num::lemma_digit_run_bytes;
use crate::num::lemma_digit_run_bytes_is;
use crate::num::dec_accepts;
use crate::num::text_val;

verus! {

/// A scan operation's failure: the source's terminal condition, or a
/// demanded value that the input did not match.
#[derive(Clone, Copy, PartialEq, Eq, Structural, Debug)]
pub enum ScanError {
    Source(SourceError),
    InvalidInput,
}

/// Couples one argument's fill/align/flags/width with the shared lookahead
/// buffer for the duration of that argument's extraction.
pub struct Scanner<S: ByteSource> {
    pub flags: u32,
    pub fill: Option<char>,
    pub align: Alignment,
    pub width: Option<usize>,
    pub buf: LookaheadBuffer<S>,
}

/// Whether the mandatory-sign flag is set.
pub open spec fn sign_plus_set(flags: u32) -> bool {
    flags & 1 != 0
}

/// Whether the alternate (line-capture) flag is set.
pub open spec fn alternate_set(flags: u32) -> bool {
    flags & 4 != 0
}

/// Length of the run of leading whitespace bytes.
pub open spec fn ws_byte_run(s: Seq<u8>) -> int
    decreases s.len(),
{
    if s.len() > 0 && is_space_byte(s[0]) {
        1 + ws_byte_run(s.drop_first())
    } else {
        0
    }
}

pub proof fn lemma_ws_byte_run(s: Seq<u8>)
    ensures
        0 <= ws_byte_run(s) <= s.len(),
    decreases s.len(),
{
    if s.len() > 0 && is_space_byte(s[0]) {
        lemma_ws_byte_run(s.drop_first());
    }
}

/// The generic byte run equals `ws_byte_run` for the whitespace predicate.
pub proof fn lemma_ws_byte_run_eq(s: Seq<u8>, p: spec_fn(u8) -> bool)
    requires
        forall|b: u8| #[trigger] p(b) == is_space_byte(b),
    ensures
        run_of(s, p) == ws_byte_run(s),
    decreases s.len(),
{
    if s.len() > 0 {
        assert(p(s[0]) == is_space_byte(s[0]));
        if is_space_byte(s[0]) {
            lemma_ws_byte_run_eq(s.drop_first(), p);
        }
    }
}

/// How many pad units stand at the front: whole encodings of the fill
/// codepoint when one is set, else single whitespace bytes. This is the
/// count a pad skip reports.
pub open spec fn pad_skip_count(avail: Seq<u8>, fill: Option<char>) -> int {
    match fill {
        Some(c) => pad_run_count(avail, encode_scalar(c as u32)),
        None => ws_byte_run(avail),
    }
}

/// How many bytes those pad units occupy: what a pad skip consumes.
pub open spec fn pad_skip_len(avail: Seq<u8>, fill: Option<char>) -> int {
    match fill {
        Some(c) => pad_skip_count(avail, fill) * encode_scalar(c as u32).len(),
        None => pad_skip_count(avail, fill),
    }
}

pub proof fn lemma_pad_skip_len_bounds(avail: Seq<u8>, fill: Option<char>)
    ensures
        0 <= pad_skip_len(avail, fill) <= avail.len(),
{
    match fill {
        Some(c) => {
            vstd::utf8::char_is_scalar(c);
            assert(encode_scalar(c as u32).len() >= 1);
            lemma_pad_run_count_bounds(avail, encode_scalar(c as u32));
            let k = pad_run_count(avail, encode_scalar(c as u32));
            let e = encode_scalar(c as u32).len() as int;
            assert(k * e >= 0) by (nonlinear_arith)
                requires
                    k >= 0,
                    e >= 1,
            ;
        },
        None => {
            lemma_ws_byte_run(avail);
        },
    }
}

/// Whether this alignment asks for pad skipping before the value.
pub open spec fn prepad_applies(align: Alignment) -> bool {
    align == Alignment::AlignLeft || align == Alignment::AlignCenter
}

/// Whether this alignment asks for pad handling after the value.
pub open spec fn postpad_applies(align: Alignment) -> bool {
    align == Alignment::AlignRight || align == Alignment::AlignCenter
}

pub open spec fn prepad_len(avail: Seq<u8>, fill: Option<char>, align: Alignment) -> int {
    if prepad_applies(align) {
        pad_skip_len(avail, fill)
    } else {
        0
    }
}

pub open spec fn prepad_count(avail: Seq<u8>, fill: Option<char>, align: Alignment) -> int {
    if prepad_applies(align) {
        pad_skip_count(avail, fill)
    } else {
        0
    }
}

pub open spec fn postpad_count(avail: Seq<u8>, fill: Option<char>, align: Alignment) -> int {
    if postpad_applies(align) {
        pad_skip_count(avail, fill)
    } else {
        0
    }
}

pub open spec fn postpad_len(avail: Seq<u8>, fill: Option<char>, align: Alignment) -> int {
    if postpad_applies(align) {
        pad_skip_len(avail, fill)
    } else {
        0
    }
}

/// Trailing run of the codepoint `c`.
pub open spec fn trail_char_run(s: Seq<char>, c: char) -> int
    decreases s.len(),
{
    if s.len() > 0 && s.last() == c {
        1 + trail_char_run(s.drop_last(), c)
    } else {
        0
    }
}

pub proof fn lemma_trail_char_run(s: Seq<char>, c: char)
    ensures
        0 <= trail_char_run(s, c) <= s.len(),
        forall|j: int| s.len() - trail_char_run(s, c) <= j < s.len() ==> #[trigger] s[j] == c,
        trail_char_run(s, c) < s.len() ==> s[s.len() - trail_char_run(s, c) - 1] != c,
    decreases s.len(),
{
    if s.len() > 0 && s.last() == c {
        lemma_trail_char_run(s.drop_last(), c);
        assert forall|j: int| s.len() - trail_char_run(s, c) <= j < s.len() implies #[trigger] s[j]
            == c by {
            if j < s.len() - 1 {
                assert(s.drop_last()[j] == c);
            }
        }
        if trail_char_run(s, c) < s.len() {
            assert(s.drop_last()[s.len() - trail_char_run(s, c) - 1] == s[s.len()
                - trail_char_run(s, c) - 1]);
        }
    }
}

/// Trailing run of whitespace codepoints.
pub open spec fn trail_ws_run(s: Seq<char>) -> int
    decreases s.len(),
{
    if s.len() > 0 && is_space_char(s.last()) {
        1 + trail_ws_run(s.drop_last())
    } else {
        0
    }
}

pub proof fn lemma_trail_ws_run(s: Seq<char>)
    ensures
        0 <= trail_ws_run(s) <= s.len(),
        forall|j: int| s.len() - trail_ws_run(s) <= j < s.len() ==> is_space_char(#[trigger] s[j]),
        trail_ws_run(s) < s.len() ==> !is_space_char(s[s.len() - trail_ws_run(s) - 1]),
    decreases s.len(),
{
    if s.len() > 0 && is_space_char(s.last()) {
        lemma_trail_ws_run(s.drop_last());
        assert forall|j: int| s.len() - trail_ws_run(s) <= j < s.len() implies is_space_char(
            #[trigger] s[j],
        ) by {
            if j < s.len() - 1 {
                assert(is_space_char(s.drop_last()[j]));
            }
        }
        if trail_ws_run(s) < s.len() {
            assert(s.drop_last()[s.len() - trail_ws_run(s) - 1] == s[s.len() - trail_ws_run(s)
                - 1]);
        }
    }
}

/// What trimming trailing pad material leaves of an already-materialized
/// value: for right or center alignment, the text without its trailing run
/// of the fill codepoint (or of whitespace); otherwise the text unchanged.
pub open spec fn trim_spec(s: Seq<char>, fill: Option<char>, align: Alignment) -> Seq<char> {
    if postpad_applies(align) {
        match fill {
            Some(c) => s.take(s.len() - trail_char_run(s, c)),
            None => s.take(s.len() - trail_ws_run(s)),
        }
    } else {
        s
    }
}

impl<S: ByteSource> Scanner<S> {
    /// Builds the scanner for one argument from its spec, taking ownership
    /// of the shared buffer for the duration of the extraction.
    pub fn new(spec: &ScanSpec, buf: LookaheadBuffer<S>) -> (r: Scanner<S>)
        ensures
            r.flags == spec.flags,
            r.fill == spec.fill,
            r.align == spec.align,
            r.width == spec.width,
            r.buf == buf,
    {
        Scanner {
            flags: spec.flags,
            fill: spec.fill,
            align: spec.align,
            width: spec.width,
            buf,
        }
    }

    /// Hands the buffer back for the next argument's scanner.
    pub fn into_buffer(self) -> (r: LookaheadBuffer<S>)
        ensures
            r == self.buf,
    {
        self.buf
    }

    /// Consumes a run of pad material: the fill codepoint if set, else
    /// generic whitespace.
    fn skip_pad(&mut self) -> (r: Result<usize, SourceError>)
        requires
            old(self).buf.wf(),
            old(self).buf.available().len() <= usize::MAX,
        ensures
            final(self).flags == old(self).flags && final(self).fill == old(self).fill && final(self).align == old(self).align && final(self).width == old(self).width,
            final(self).buf.wf(),
            0 <= pad_skip_len(old(self).buf.available(), old(self).fill) <= old(
                self,
            ).buf.available().len(),
            match r {
                Ok(n) => n as int == pad_skip_count(old(self).buf.available(), old(self).fill)
                    && final(self).buf.available() == old(self).buf.available().skip(
                    pad_skip_len(old(self).buf.available(), old(self).fill),
                ),
                Err(e) => {
                    &&& final(self).buf.available().len() == 0
                    &&& !final(self).buf.err_pending()
                    &&& pad_skip_len(old(self).buf.available(), old(self).fill) == old(self).buf.available().len()
                },
            },
    {
        let ghost a0 = self.buf.available();
        proof {
            lemma_pad_skip_len_bounds(a0, self.fill);
        }
        match self.fill {
            Some(ch) => {
                let r = self.buf.read_pad_char(ch);
                match r {
                    Ok(n) => Ok(n),
                    Err(e) => Err(e),
                }
            },
            None => {
                let ghost pspec = |b: u8| is_space_byte(b);
                let cl = (|b: u8| -> (rb: bool)
                    ensures
                        rb == is_space_byte(b),
                    { b == 32 || b == 9 || b == 13 || b == 10 });
                let r = self.buf.read_pad_byte_if(cl, Ghost(pspec));
                proof {
                    lemma_ws_byte_run_eq(a0, pspec);
                }
                match r {
                    Ok(n) => Ok(n),
                    Err(e) => Err(e),
                }
            },
        }
    }

    /// For left or center alignment, consumes the pad run standing before
    /// the value; a no-op otherwise.
    pub fn skip_prepad(&mut self) -> (r: Result<usize, SourceError>)
        requires
            old(self).buf.wf(),
            old(self).buf.available().len() <= usize::MAX,
        ensures
            final(self).flags == old(self).flags && final(self).fill == old(self).fill && final(self).align == old(self).align && final(self).width == old(self).width,
            final(self).buf.wf(),
            0 <= prepad_len(old(self).buf.available(), old(self).fill, old(self).align) <= old(
                self,
            ).buf.available().len(),
            match r {
                Ok(n) => n as int == prepad_count(
                    old(self).buf.available(),
                    old(self).fill,
                    old(self).align,
                ) && final(self).buf.available() == old(self).buf.available().skip(
                    prepad_len(old(self).buf.available(), old(self).fill, old(self).align),
                ),
                Err(e) => {
                    &&& final(self).buf.available().len() == 0
                    &&& !final(self).buf.err_pending()
                    &&& prepad_applies(old(self).align)
                    &&& prepad_len(
                        old(self).buf.available(),
                        old(self).fill,
                        old(self).align,
                    ) == old(self).buf.available().len()
                },
            },
    {
        proof {
            lemma_pad_skip_len_bounds(self.buf.available(), self.fill);
        }
        let applies = match self.align {
            Alignment::AlignLeft => true,
            Alignment::AlignCenter => true,
            _ => false,
        };
        if applies {
            self.skip_pad()
        } else {
            proof {
                assert(self.buf.available().skip(0) =~= self.buf.available());
            }
            Ok(0)
        }
    }

    /// For right or center alignment, consumes the pad run standing after
    /// the value; a no-op otherwise.
    pub fn skip_postpad(&mut self) -> (r: Result<usize, SourceError>)
        requires
            old(self).buf.wf(),
            old(self).buf.available().len() <= usize::MAX,
        ensures
            final(self).flags == old(self).flags && final(self).fill == old(self).fill && final(self).align == old(self).align && final(self).width == old(self).width,
            final(self).buf.wf(),
            0 <= postpad_len(old(self).buf.available(), old(self).fill, old(self).align) <= old(
                self,
            ).buf.available().len(),
            match r {
                Ok(n) => n as int == postpad_count(
                    old(self).buf.available(),
                    old(self).fill,
                    old(self).align,
                ) && final(self).buf.available() == old(self).buf.available().skip(
                    postpad_len(old(self).buf.available(), old(self).fill, old(self).align),
                ),
                Err(e) => {
                    &&& final(self).buf.available().len() == 0
                    &&& !final(self).buf.err_pending()
                    &&& postpad_applies(old(self).align)
                    &&& postpad_len(
                        old(self).buf.available(),
                        old(self).fill,
                        old(self).align,
                    ) == old(self).buf.available().len()
                },
            },
    {
        proof {
            lemma_pad_skip_len_bounds(self.buf.available(), self.fill);
        }
        let applies = match self.align {
            Alignment::AlignRight => true,
            Alignment::AlignCenter => true,
            _ => false,
        };
        if applies {
            self.skip_pad()
        } else {
            proof {
                assert(self.buf.available().skip(0) =~= self.buf.available());
            }
            Ok(0)
        }
    }

    /// Strips trailing pad material from an already-materialized value, for
    /// values whose own terminator already consumed the padding.
    pub fn trim_postpad(&self, buf: &str) -> (r: String)
        ensures
            r@ == trim_spec(buf@, self.fill, self.align),
    {
        let applies = match self.align {
            Alignment::AlignRight => true,
            Alignment::AlignCenter => true,
            _ => false,
        };
        if !applies {
            let r = buf.to_owned();
            return r;
        }
        let n = buf.unicode_len();
        let mut k = n;
        match self.fill {
            Some(c) => {
                while k > 0 && buf.get_char(k - 1) == c
                    invariant
                        k <= n,
                        n == buf@.len(),
                        forall|j: int| k <= j < n ==> #[trigger] buf@[j] == c,
                    decreases k,
                {
                    k = k - 1;
                }
                proof {
                    lemma_trail_char_run(buf@, c);
                    if n - k < trail_char_run(buf@, c) {
                        assert(buf@[k as int - 1] == c);
                    }
                    if n - k > trail_char_run(buf@, c) {
                        assert(buf@[n - trail_char_run(buf@, c) - 1] == c);
                    }
                }
            },
            None => {
                while k > 0 && space_char(buf.get_char(k - 1))
                    invariant
                        k <= n,
                        n == buf@.len(),
                        forall|j: int| k <= j < n ==> is_space_char(#[trigger] buf@[j]),
                    decreases k,
                {
                    k = k - 1;
                }
                proof {
                    lemma_trail_ws_run(buf@);
                    if n - k < trail_ws_run(buf@) {
                        assert(is_space_char(buf@[k as int - 1]));
                    }
                    if n - k > trail_ws_run(buf@) {
                        assert(is_space_char(buf@[n - trail_ws_run(buf@) - 1]));
                    }
                }
            },
        }
        let r = buf.substring_char(0, k).to_owned();
        proof {
            assert(buf@.subrange(0, k as int) =~= buf@.take(k as int));
        }
        r
    }
}

/// How many bytes at the front match an optionally signed digit run: the
/// span a single forward pass of the digit scanner accepts. Zero means no
/// match (a lone sign, a missing mandatory sign, or no digit at all).
pub open spec fn match_len(s: Seq<u8>, mandatory: bool) -> int {
    if s.len() > 0 && is_sign_byte(s[0]) {
        let d = digit_run_bytes(s.skip(1));
        if d > 0 {
            1 + d
        } else {
            0
        }
    } else if !mandatory {
        digit_run_bytes(s)
    } else {
        0
    }
}

/// Finds where the digit run beginning at `offset` ends, requesting one
/// extra byte of lookahead per step and consuming nothing.
#[verifier::loop_isolation(false)]
fn digit_span_end<S: ByteSource>(buf: &mut LookaheadBuffer<S>, offset: usize) -> (r: Result<
    usize,
    SourceError,
>)
    requires
        old(buf).wf(),
        old(buf).available().len() + 4 <= usize::MAX,
        offset <= old(buf).available().len(),
    ensures
        final(buf).wf(),
        match r {
            Ok(i) => {
                let a = old(buf).available();
                &&& final(buf).available() == a
                &&& offset <= i <= a.len()
                &&& forall|j: int| offset <= j < i ==> is_digit_byte(#[trigger] a[j])
                &&& (i < a.len() ==> !is_digit_byte(a[i as int]))
            },
            Err(e) => old(buf).available().len() == 0 && final(buf).available().len() == 0,
        },
{
    let ghost a = old(buf).available();
    let mut i = offset;
    loop
        invariant
            buf.wf(),
            buf.available() == a,
            offset <= i,
            i <= a.len(),
            forall|j: int| offset <= j < i ==> is_digit_byte(#[trigger] a[j]),
        decreases a.len() - i,
    {
        let v = match buf.fill_request(i + 1) {
            Ok(v) => v,
            Err(e) => {
                return Err(e);
            },
        };
        if v.len() <= i {
            proof {
                assert(v@.len() == a.len());
            }
            return Ok(i);
        }
        let b = v[i];
        proof {
            assert(b == a[i as int]);
        }
        if 48 <= b && b <= 57 {
            i = i + 1;
        } else {
            return Ok(i);
        }
    }
}

pub proof fn lemma_match_len_bounds(s: Seq<u8>, mandatory: bool)
    ensures
        0 <= match_len(s, mandatory) <= s.len(),
{
    if s.len() > 0 && is_sign_byte(s[0]) {
        lemma_digit_run_bytes(s.skip(1));
    } else if !mandatory {
        lemma_digit_run_bytes(s);
    }
}

/// Matches the maximal optionally signed digit span at the front of the
/// buffer, requesting one extra byte of lookahead per step; consumes the
/// span exactly when it is accepted.
#[verifier::loop_isolation(false)]
#[verifier::rlimit(100)]
fn scan_digit_span<S: ByteSource>(buf: &mut LookaheadBuffer<S>, mandatory: bool) -> (r: Result<
    Option<Vec<u8>>,
    SourceError,
>)
    requires
        old(buf).wf(),
        old(buf).available().len() + 4 <= usize::MAX,
    ensures
        final(buf).wf(),
        ({
            let a = old(buf).available();
            let m = match_len(a, mandatory);
            match r {
                Ok(opt) => match opt {
                    Some(v) => m > 0 && v@ == a.take(m) && final(buf).available() == a.skip(m),
                    None => m == 0 && final(buf).available() == a,
                },
                Err(e) => a.len() == 0 && final(buf).available().len() == 0 && !final(buf).err_pending(),
            }
        }),
{
    let ghost a = buf.available();
    let v0 = match buf.fill_request(1) {
        Ok(v) => v,
        Err(e) => {
            return Err(e);
        },
    };
    if v0.len() == 0 {
        return Ok(None);
    }
    let b0 = v0[0];
    proof {
        assert(b0 == a[0]);
    }
    let offset: usize;
    if b0 == 43 || b0 == 45 {
        offset = 1;
    } else if 48 <= b0 && b0 <= 57 {
        if mandatory {
            return Ok(None);
        }
        offset = 0;
    } else {
        return Ok(None);
    }
    let i = match digit_span_end(buf, offset) {
        Ok(i) => i,
        Err(e) => {
            proof {
                assert(false);
            }
            return Err(e);
        },
    };
    proof {
        let d = a.skip(offset as int);
        assert forall|j: int| 0 <= j < i - offset implies is_digit_byte(#[trigger] d[j]) by {
            assert(d[j] == a[offset + j]);
        }
        if (i - offset) < d.len() {
            assert(d[i - offset] == a[i as int]);
        }
        lemma_digit_run_bytes_is(d, i - offset);
        if offset == 1 {
            assert(a.skip(1) == d);
        } else {
            assert(a.skip(0) =~= a);
            assert(digit_run_bytes(a) == i - offset);
        }
    }
    if i == offset {
        return Ok(None);
    }
    proof {
        assert(match_len(a, mandatory) == i);
    }
    let vfin = match buf.fill_request(i) {
        Ok(v) => v,
        Err(e) => {
            proof {
                assert(false);
            }
            return Err(e);
        },
    };
    let mut span: Vec<u8> = Vec::new();
    let mut t: usize = 0;
    while t < i
        invariant
            t <= i <= vfin@.len(),
            span@ == vfin@.take(t as int),
        decreases i - t,
    {
        span.push(vfin[t]);
        proof {
            assert(span@ =~= vfin@.take(t + 1));
        }
        t = t + 1;
    }
    buf.consume(i);
    proof {
        assert(span@ =~= a.take(i as int));
    }
    Ok(Some(span))
}

/// What one digit-category extraction guarantees: pre-padding is skipped
/// for left/center alignment; the maximal signed digit span (with the sign
/// mandatory under SignPlus) is matched and consumed; the span converts by
/// the target type's exact decimal acceptance; post-padding is skipped for
/// right/center alignment. No match consumes nothing beyond the
/// pre-padding.
pub open spec fn digit_scan_post<S: ByteSource, T: FromDecimal>(
    pre: Scanner<S>,
    post: Scanner<S>,
    r: Result<Option<T>, SourceError>,
) -> bool {
    let a0 = pre.buf.available();
    let a1 = a0.skip(prepad_len(a0, pre.fill, pre.align));
    let m = match_len(a1, sign_plus_set(pre.flags));
    &&& post.flags == pre.flags && post.fill == pre.fill && post.align == pre.align
        && post.width == pre.width
    &&& post.buf.wf()
    &&& match r {
        Ok(opt) => {
            if m == 0 {
                opt is None && post.buf.available() == a1
            } else {
                let span = a1.take(m);
                let a2 = a1.skip(m);
                &&& post.buf.available() == a2.skip(postpad_len(a2, pre.fill, pre.align))
                &&& (opt is Some <==> dec_accepts::<T>(span))
                &&& match opt {
                    Some(v) => v.as_int() == text_val(span),
                    None => true,
                }
            }
        },
        Err(e) => {
            &&& post.buf.available().len() == 0
            &&& !post.buf.err_pending()
            &&& (a1.len() == 0 || (postpad_applies(pre.align) && m > 0 && m + postpad_len(
                a1.skip(m),
                pre.fill,
                pre.align,
            ) == a1.len()))
        },
    }
}

/// The shared signed/unsigned digit scanning core: one forward pass, then
/// the decimal conversion of the matched span.
pub fn scan_signed_digits<S: ByteSource, T: FromDecimal>(s: &mut Scanner<S>) -> (r: Result<
    Option<T>,
    SourceError,
>)
    requires
        old(s).buf.wf(),
        old(s).buf.available().len() + 4 <= usize::MAX,
    ensures
        digit_scan_post::<S, T>(*old(s), *final(s), r),
{
    match s.skip_prepad() {
        Ok(_) => {},
        Err(e) => {
            return Err(e);
        },
    }
    let mandatory = s.flags & 1 != 0;
    let span_opt = match scan_digit_span(&mut s.buf, mandatory) {
        Ok(o) => o,
        Err(e) => {
            return Err(e);
        },
    };
    let span = match span_opt {
        Some(sp) => sp,
        None => {
            return Ok(None);
        },
    };
    let result = T::from_decimal(&span);
    proof {
        lemma_match_len_bounds(
            old(s).buf.available().skip(
                prepad_len(old(s).buf.available(), old(s).fill, old(s).align),
            ),
            mandatory,
        );
    }
    match s.skip_postpad() {
        Ok(_) => {},
        Err(e) => {
            return Err(e);
        },
    }
    Ok(result)
}

/// The terminator ending a string capture: carriage return or line feed in
/// line mode, any whitespace codepoint otherwise.
pub open spec fn is_terminator(c: char, line_mode: bool) -> bool {
    if line_mode {
        c == '\r' || c == '\n'
    } else {
        is_space_char(c)
    }
}

/// Walks the token at the front of `a` from byte offset `p`: decodes one
/// scalar at a time, ending cleanly at the terminator, at exhaustion, or at
/// a dangling partial encoding; a malformed encoding fails the capture.
/// Yields the token's end offset and its decoded codepoints.
pub open spec fn token_scan_from(a: Seq<u8>, p: int, line_mode: bool) -> Option<(int, Seq<char>)>
    decreases a.len() - p,
    when 0 <= p <= a.len()
{
    if p == a.len() {
        Some((p, Seq::empty()))
    } else {
        let w = lead_width(a[p]);
        if w == 0 {
            None
        } else if p + w > a.len() {
            Some((p, Seq::empty()))
        } else {
            match decode_front(a.skip(p)) {
                Some(c) => if is_terminator(c, line_mode) {
                    Some((p, Seq::empty()))
                } else {
                    match token_scan_from(a, p + w as int, line_mode) {
                        Some(pr) => Some((pr.0, seq![c] + pr.1)),
                        None => None,
                    }
                },
                None => None,
            }
        }
    }
}

/// What one string capture guarantees: after the pre-padding, codepoints
/// are decoded up to the terminator (never decoding a truncated encoding);
/// the token's bytes are consumed but not its terminator; under SignPlus an
/// empty token is no match; the materialized text has its trailing pad
/// trimmed rather than consumed from the buffer.
pub open spec fn str_scan_post<S: ByteSource>(
    pre: Scanner<S>,
    post: Scanner<S>,
    r: Result<Option<Seq<char>>, SourceError>,
) -> bool {
    let a0 = pre.buf.available();
    let a1 = a0.skip(prepad_len(a0, pre.fill, pre.align));
    let line = alternate_set(pre.flags);
    let splus = sign_plus_set(pre.flags);
    &&& post.flags == pre.flags && post.fill == pre.fill && post.align == pre.align
        && post.width == pre.width
    &&& post.buf.wf()
    &&& match r {
        Ok(opt) => match token_scan_from(a1, 0, line) {
            Some(pr) => {
                if splus && pr.0 == 0 {
                    opt is None && post.buf.available() == a1
                } else {
                    &&& opt is Some
                    &&& match opt {
                        Some(st) => st == trim_spec(pr.1, pre.fill, pre.align),
                        None => false,
                    }
                    &&& post.buf.available() == a1.skip(pr.0)
                }
            },
            None => opt is None && post.buf.available() == a1,
        },
        Err(e) => {
            &&& post.buf.available().len() == 0
            &&& !post.buf.err_pending()
            &&& a1.len() == 0
        },
    }
}

/// Walks the token at the buffer's front without consuming it: yields the
/// token's byte length and its decoded text, or "no capture" when a
/// malformed encoding is hit.
#[verifier::loop_isolation(false)]
#[verifier::rlimit(100)]
#[verifier::spinoff_prover]
fn token_extract<S: ByteSource>(buf: &mut LookaheadBuffer<S>, line: bool) -> (r: Result<
    Option<(usize, String)>,
    SourceError,
>)
    requires
        old(buf).wf(),
        old(buf).available().len() + 4 <= usize::MAX,
    ensures
        final(buf).wf(),
        ({
            let a = old(buf).available();
            match r {
                Ok(opt) => match opt {
                    Some(pr) => {
                        &&& final(buf).available() == a
                        &&& final(buf).view_len() >= pr.0
                        &&& pr.0 <= a.len()
                        &&& token_scan_from(a, 0, line) == Some((pr.0 as int, pr.1@))
                    },
                    None => final(buf).available() == a && token_scan_from(a, 0, line) is None,
                },
                Err(e) => {
                    &&& a.len() == 0
                    &&& final(buf).available().len() == 0
                    &&& !final(buf).err_pending()
                },
            }
        }),
{
    let ghost a1 = old(buf).available();
    let mut out = String::new();
    let mut p: usize = 0;
    loop
        invariant
            buf.wf(),
            buf.available() == a1,
            p <= a1.len(),
            p > 0 ==> a1.len() > 0,
            match token_scan_from(a1, p as int, line) {
                Some(pr) => token_scan_from(a1, 0, line) == Some((pr.0, out@ + pr.1)),
                None => token_scan_from(a1, 0, line) is None,
            },
        decreases a1.len() - p,
    {
        let v = match buf.fill_request(p + 1) {
            Ok(v) => v,
            Err(e) => {
                return Err(e);
            },
        };
        if v.len() <= p {
            proof {
                assert(v@.len() == a1.len());
                assert(p == a1.len());
                assert(out@ + Seq::<char>::empty() =~= out@);
            }
            return Ok(Some((p, out)));
        }
        let lead = v[p];
        proof {
            assert(lead == a1[p as int]);
        }
        let w = utf8_lead_width(lead);
        if w == 0 {
            return Ok(None);
        }
        let v2 = match buf.fill_request(p + w) {
            Ok(v2) => v2,
            Err(e) => {
                proof {
                    assert(false);
                }
                return Err(e);
            },
        };
        if v2.len() < p + w {
            proof {
                assert(v2@.len() == a1.len());
                assert(out@ + Seq::<char>::empty() =~= out@);
            }
            return Ok(Some((p, out)));
        }
        let mut enc: Vec<u8> = Vec::new();
        let mut t = p;
        while t < p + w
            invariant
                p <= t <= p + w,
                p + w <= v2@.len(),
                enc@ == v2@.subrange(p as int, t as int),
            decreases p + w - t,
        {
            enc.push(v2[t]);
            proof {
                assert(enc@ =~= v2@.subrange(p as int, t + 1));
            }
            t = t + 1;
        }
        let co = decode_front_vec(&enc);
        proof {
            assert(enc@ =~= a1.skip(p as int).take(w as int));
            lemma_decode_front_prefix(a1.skip(p as int), w as int);
        }
        let c = match co {
            Some(c) => c,
            None => {
                return Ok(None);
            },
        };
        let term = if line {
            c == '\r' || c == '\n'
        } else {
            space_char(c)
        };
        if term {
            proof {
                assert(out@ + Seq::<char>::empty() =~= out@);
            }
            return Ok(Some((p, out)));
        }
        let ghost out0 = out@;
        push_char(&mut out, c);
        proof {
            match token_scan_from(a1, p + w as int, line) {
                Some(pr) => {
                    assert(token_scan_from(a1, p as int, line) == Some((pr.0, seq![c] + pr.1)));
                    assert(out0 + (seq![c] + pr.1) =~= out@ + pr.1);
                },
                None => {},
            }
        }
        p = p + w;
    }
}

/// The view of a capture result: the captured text as its codepoints.
pub open spec fn str_result_view(r: Result<Option<String>, SourceError>) -> Result<
    Option<Seq<char>>,
    SourceError,
> {
    match r {
        Ok(opt) => Ok(
            match opt {
                Some(st) => Some(st@),
                None => None,
            },
        ),
        Err(e) => Err(e),
    }
}

/// String capture: processes the input codepoint by codepoint; a dangling
/// partial encoding at the view's tail is re-requested with a larger
/// minimum rather than decoded truncated. The terminator is not consumed
/// as part of the value.
pub fn scan_string<S: ByteSource>(s: &mut Scanner<S>) -> (r: Result<Option<String>, SourceError>)
    requires
        old(s).buf.wf(),
        old(s).buf.available().len() + 4 <= usize::MAX,
    ensures
        str_scan_post(*old(s), *final(s), str_result_view(r)),
{
    match s.skip_prepad() {
        Ok(_) => {},
        Err(e) => {
            return Err(e);
        },
    }
    let line = s.flags & 4 != 0;
    let splus = s.flags & 1 != 0;
    let pr = match token_extract(&mut s.buf, line) {
        Ok(opt) => match opt {
            Some(pr) => pr,
            None => {
                return Ok(None);
            },
        },
        Err(e) => {
            return Err(e);
        },
    };
    let (p, out) = pr;
    if splus && p == 0 {
        return Ok(None);
    }
    s.buf.consume(p);
    let trimmed = s.trim_postpad(out.as_str());
    Ok(Some(trimmed))
}

/// The generic scanning capability: any category-agnostic extraction.
pub trait Read<S: ByteSource>: Sized {
    fn scan(s: &mut Scanner<S>) -> Result<Option<Self>, SourceError>;
}

/// Extraction of integers of any notation.
pub trait Integer<S: ByteSource>: Sized {
    fn scan(s: &mut Scanner<S>) -> Result<Option<Self>, SourceError>;
}

/// Extraction of signed decimal integers by the shared digit scanner.
pub trait Signed<S: ByteSource>: FromDecimal {
    fn scan(s: &mut Scanner<S>) -> (r: Result<Option<Self>, SourceError>)
        requires
            old(s).buf.wf(),
            old(s).buf.available().len() + 4 <= usize::MAX,
        ensures
            digit_scan_post::<S, Self>(*old(s), *final(s), r),
    ;
}

/// Extraction of unsigned decimal integers by the shared digit scanner.
pub trait Unsigned<S: ByteSource>: FromDecimal {
    fn scan(s: &mut Scanner<S>) -> (r: Result<Option<Self>, SourceError>)
        requires
            old(s).buf.wf(),
            old(s).buf.available().len() + 4 <= usize::MAX,
        ensures
            digit_scan_post::<S, Self>(*old(s), *final(s), r),
    ;
}

/// Extraction of single characters.
pub trait Char<S: ByteSource>: Sized {
    fn scan(s: &mut Scanner<S>) -> Result<Option<Self>, SourceError>;
}

/// Extraction of octal-notation integers.
pub trait Octal<S: ByteSource>: Sized {
    fn scan(s: &mut Scanner<S>) -> Result<Option<Self>, SourceError>;
}

/// Extraction of hexadecimal-notation integers.
pub trait Hex<S: ByteSource>: Sized {
    fn scan(s: &mut Scanner<S>) -> Result<Option<Self>, SourceError>;
}

/// Extraction of text by the string capture.
pub trait Str<S: ByteSource>: Sized + View<V = Seq<char>> {
    fn scan(s: &mut Scanner<S>) -> (r: Result<Option<Self>, SourceError>)
        requires
            old(s).buf.wf(),
            old(s).buf.available().len() + 4 <= usize::MAX,
        ensures
            ({
                let mapped: Result<Option<Seq<char>>, SourceError> = match r {
                    Ok(opt) => Ok(
                        match opt {
                            Some(v) => Some(v@),
                            None => None,
                        },
                    ),
                    Err(e) => Err(e),
                };
                str_scan_post(*old(s), *final(s), mapped)
            }),
    ;
}

/// Extraction of binary-notation integers.
pub trait Binary<S: ByteSource>: Sized {
    fn scan(s: &mut Scanner<S>) -> Result<Option<Self>, SourceError>;
}

/// Extraction of values in plain floating notation.
pub trait Float<S: ByteSource>: Sized {
    fn scan(s: &mut Scanner<S>) -> Result<Option<Self>, SourceError>;
}

/// Extraction of values in exponent notation.
pub trait Exp<S: ByteSource>: Sized {
    fn scan(s: &mut Scanner<S>) -> Result<Option<Self>, SourceError>;
}

impl<S: ByteSource> Signed<S> for i8 {
    fn scan(s: &mut Scanner<S>) -> (r: Result<Option<i8>, SourceError>) {
        scan_signed_digits::<S, i8>(s)
    }
}

impl<S: ByteSource> Signed<S> for i16 {
    fn scan(s: &mut Scanner<S>) -> (r: Result<Option<i16>, SourceError>) {
        scan_signed_digits::<S, i16>(s)
    }
}

impl<S: ByteSource> Signed<S> for i32 {
    fn scan(s: &mut Scanner<S>) -> (r: Result<Option<i32>, SourceError>) {
        scan_signed_digits::<S, i32>(s)
    }
}

impl<S: ByteSource> Signed<S> for i64 {
    fn scan(s: &mut Scanner<S>) -> (r: Result<Option<i64>, SourceError>) {
        scan_signed_digits::<S, i64>(s)
    }
}

impl<S: ByteSource> Signed<S> for isize {
    fn scan(s: &mut Scanner<S>) -> (r: Result<Option<isize>, SourceError>) {
        scan_signed_digits::<S, isize>(s)
    }
}

impl<S: ByteSource> Unsigned<S> for u8 {
    fn scan(s: &mut Scanner<S>) -> (r: Result<Option<u8>, SourceError>) {
        scan_signed_digits::<S, u8>(s)
    }
}

impl<S: ByteSource> Unsigned<S> for u16 {
    fn scan(s: &mut Scanner<S>) -> (r: Result<Option<u16>, SourceError>) {
        scan_signed_digits::<S, u16>(s)
    }
}

impl<S: ByteSource> Unsigned<S> for u32 {
    fn scan(s: &mut Scanner<S>) -> (r: Result<Option<u32>, SourceError>) {
        scan_signed_digits::<S, u32>(s)
    }
}

impl<S: ByteSource> Unsigned<S> for u64 {
    fn scan(s: &mut Scanner<S>) -> (r: Result<Option<u64>, SourceError>) {
        scan_signed_digits::<S, u64>(s)
    }
}

impl<S: ByteSource> Unsigned<S> for usize {
    fn scan(s: &mut Scanner<S>) -> (r: Result<Option<usize>, SourceError>) {
        scan_signed_digits::<S, usize>(s)
    }
}

impl<S: ByteSource> Str<S> for String {
    fn scan(s: &mut Scanner<S>) -> (r: Result<Option<String>, SourceError>) {
        scan_string(s)
    }
}

/// Demands a signed value: turns "no match" into the invalid-input failure.
pub fn for_signed<S: ByteSource, T: Signed<S>>(s: &mut Scanner<S>) -> (r: Result<T, ScanError>)
    requires
        old(s).buf.wf(),
        old(s).buf.available().len() + 4 <= usize::MAX,
    ensures
        match r {
            Ok(v) => digit_scan_post::<S, T>(*old(s), *final(s), Ok(Some(v))),
            Err(ScanError::InvalidInput) => digit_scan_post::<S, T>(
                *old(s),
                *final(s),
                Ok(None::<T>),
            ),
            Err(ScanError::Source(e)) => digit_scan_post::<S, T>(*old(s), *final(s), Err(e)),
        },
{
    match T::scan(s) {
        Ok(opt) => match opt {
            Some(v) => Ok(v),
            None => Err(ScanError::InvalidInput),
        },
        Err(e) => Err(ScanError::Source(e)),
    }
}

/// Demands an unsigned value: turns "no match" into the invalid-input
/// failure.
pub fn for_unsigned<S: ByteSource, T: Unsigned<S>>(s: &mut Scanner<S>) -> (r: Result<T, ScanError>)
    requires
        old(s).buf.wf(),
        old(s).buf.available().len() + 4 <= usize::MAX,
    ensures
        match r {
            Ok(v) => digit_scan_post::<S, T>(*old(s), *final(s), Ok(Some(v))),
            Err(ScanError::InvalidInput) => digit_scan_post::<S, T>(
                *old(s),
                *final(s),
                Ok(None::<T>),
            ),
            Err(ScanError::Source(e)) => digit_scan_post::<S, T>(*old(s), *final(s), Err(e)),
        },
{
    match T::scan(s) {
        Ok(opt) => match opt {
            Some(v) => Ok(v),
            None => Err(ScanError::InvalidInput),
        },
        Err(e) => Err(ScanError::Source(e)),
    }
}

/// Demands a captured string: turns "no match" into the invalid-input
/// failure.
pub fn for_string<S: ByteSource>(s: &mut Scanner<S>) -> (r: Result<String, ScanError>)
    requires
        old(s).buf.wf(),
        old(s).buf.available().len() + 4 <= usize::MAX,
    ensures
        match r {
            Ok(v) => str_scan_post(*old(s), *final(s), Ok(Some(v@))),
            Err(ScanError::InvalidInput) => str_scan_post(
                *old(s),
                *final(s),
                Ok(None::<Seq<char>>),
            ),
            Err(ScanError::Source(e)) => str_scan_post(*old(s), *final(s), Err(e)),
        },
{
    match scan_string(s) {
        Ok(opt) => match opt {
            Some(v) => Ok(v),
            None => Err(ScanError::InvalidInput),
        },
        Err(e) => Err(ScanError::Source(e)),
    }
}

/// Demands a value of the Read capability: turns "no match" into the
/// invalid-input failure. The capability's own contract is left to its
/// implementors.
pub fn for_read<S: ByteSource, T: Read<S>>(s: &mut Scanner<S>) -> (r: Result<T, ScanError>) {
    match T::scan(s) {
        Ok(opt) => match opt {
            Some(v) => Ok(v),
            None => Err(ScanError::InvalidInput),
        },
        Err(e) => Err(ScanError::Source(e)),
    }
}

/// Demands a value of the Integer capability: turns "no match" into the
/// invalid-input failure. The capability's own contract is left to its
/// implementors.
pub fn for_integer<S: ByteSource, T: Integer<S>>(s: &mut Scanner<S>) -> (r: Result<T, ScanError>) {
    match T::scan(s) {
        Ok(opt) => match opt {
            Some(v) => Ok(v),
            None => Err(ScanError::InvalidInput),
        },
        Err(e) => Err(ScanError::Source(e)),
    }
}

/// Demands a value of the Char capability: turns "no match" into the
/// invalid-input failure. The capability's own contract is left to its
/// implementors.
pub fn for_char<S: ByteSource, T: Char<S>>(s: &mut Scanner<S>) -> (r: Result<T, ScanError>) {
    match T::scan(s) {
        Ok(opt) => match opt {
            Some(v) => Ok(v),
            None => Err(ScanError::InvalidInput),
        },
        Err(e) => Err(ScanError::Source(e)),
    }
}

/// Demands a value of the Octal capability: turns "no match" into the
/// invalid-input failure. The capability's own contract is left to its
/// implementors.
pub fn for_octal<S: ByteSource, T: Octal<S>>(s: &mut Scanner<S>) -> (r: Result<T, ScanError>) {
    match T::scan(s) {
        Ok(opt) => match opt {
            Some(v) => Ok(v),
            None => Err(ScanError::InvalidInput),
        },
        Err(e) => Err(ScanError::Source(e)),
    }
}

/// Demands a value of the Hex capability: turns "no match" into the
/// invalid-input failure. The capability's own contract is left to its
/// implementors.
pub fn for_hex<S: ByteSource, T: Hex<S>>(s: &mut Scanner<S>) -> (r: Result<T, ScanError>) {
    match T::scan(s) {
        Ok(opt) => match opt {
            Some(v) => Ok(v),
            None => Err(ScanError::InvalidInput),
        },
        Err(e) => Err(ScanError::Source(e)),
    }
}

/// Demands a value of the Binary capability: turns "no match" into the
/// invalid-input failure. The capability's own contract is left to its
/// implementors.
pub fn for_binary<S: ByteSource, T: Binary<S>>(s: &mut Scanner<S>) -> (r: Result<T, ScanError>) {
    match T::scan(s) {
        Ok(opt) => match opt {
            Some(v) => Ok(v),
            None => Err(ScanError::InvalidInput),
        },
        Err(e) => Err(ScanError::Source(e)),
    }
}

/// Demands a value of the Float capability: turns "no match" into the
/// invalid-input failure. The capability's own contract is left to its
/// implementors.
pub fn for_float<S: ByteSource, T: Float<S>>(s: &mut Scanner<S>) -> (r: Result<T, ScanError>) {
    match T::scan(s) {
        Ok(opt) => match opt {
            Some(v) => Ok(v),
            None => Err(ScanError::InvalidInput),
        },
        Err(e) => Err(ScanError::Source(e)),
    }
}

/// Demands a value of the Exp capability: turns "no match" into the
/// invalid-input failure. The capability's own contract is left to its
/// implementors.
pub fn for_exp<S: ByteSource, T: Exp<S>>(s: &mut Scanner<S>) -> (r: Result<T, ScanError>) {
    match T::scan(s) {
        Ok(opt) => match opt {
            Some(v) => Ok(v),
            None => Err(ScanError::InvalidInput),
        },
        Err(e) => Err(ScanError::Source(e)),
    }
}

} // verus!