//! The format parser: a pure, single-pass translation of a format string
//! into an ordered piece sequence, or a descriptive parse error.
//!
//! Grammar, informally: a format is a mix of literals, whitespace runs and
//! `{` arguments; `\` escapes the next codepoint into the literal stream;
//! an argument is an optional position, then an optional `:` scan spec,
//! then `}`; a scan spec is fill/alignment, a sign flag, `#`, a width and a
//! type identifier, each optional, with whitespace permitted between them.

use vstd::prelude::*;
use vstd::string::StrSliceExecFns;
use vstd::string::StringExecFns;
use crate::text::push_char;

verus! {

/// One syntactic unit of a parsed format string.
#[derive(Debug, Clone, PartialEq)]
pub enum Piece {
    Literal(String),
    Whitespace,
    Argument(Argument),
}

/// A placeholder piece requesting a scanned value.
#[derive(Debug, Clone, PartialEq)]
pub struct Argument {
    pub position: Position,
    pub scan: ScanSpec,
}

/// Where an argument's value binds: implicit/sequential, by index, by name,
/// or scanned and discarded.
#[derive(Debug, Clone, PartialEq)]
pub enum Position {
    ArgumentNext,
    ArgumentIs(usize),
    ArgumentNamed(String),
    ArgumentSuppress,
}

/// How one argument's value is scanned and post-processed.
#[derive(Debug, Clone, PartialEq)]
pub struct ScanSpec {
    pub fill: Option<char>,
    pub align: Alignment,
    pub flags: u32,
    pub width: Option<usize>,
    pub ty: String,
}

/// The flag bits of a scan spec; each sets one bit in `ScanSpec::flags`.
#[derive(Debug, Clone, Copy, PartialEq, Eq, Structural)]
pub enum Flags {
    FlagSignPlus,
    FlagSignMinus,
    FlagAlternate,
}

#[derive(Debug, Clone, Copy, PartialEq, Eq, Structural)]
pub enum Alignment {
    AlignLeft,
    AlignRight,
    AlignCenter,
    AlignUnknown,
}

/// The bit `ScanSpec::flags` carries for the given flag.
pub open spec fn spec_flag_mask(f: Flags) -> u32 {
    match f {
        Flags::FlagSignPlus => 1,
        Flags::FlagSignMinus => 2,
        Flags::FlagAlternate => 4,
    }
}

pub fn flag_mask(f: Flags) -> (r: u32)
    ensures
        r == spec_flag_mask(f),
{
    match f {
        Flags::FlagSignPlus => 1,
        Flags::FlagSignMinus => 2,
        Flags::FlagAlternate => 4,
    }
}

/// Mathematical views of the parsed pieces: strings become char sequences.
pub enum PositionV {
    ArgumentNext,
    ArgumentIs(usize),
    ArgumentNamed(Seq<char>),
    ArgumentSuppress,
}

pub struct ScanSpecV {
    pub fill: Option<char>,
    pub align: Alignment,
    pub flags: u32,
    pub width: Option<usize>,
    pub ty: Seq<char>,
}

pub struct ArgumentV {
    pub position: PositionV,
    pub scan: ScanSpecV,
}

pub enum PieceV {
    Literal(Seq<char>),
    Whitespace,
    Argument(ArgumentV),
}

impl View for Position {
    type V = PositionV;

    open spec fn view(&self) -> PositionV {
        match self {
            Position::ArgumentNext => PositionV::ArgumentNext,
            Position::ArgumentIs(n) => PositionV::ArgumentIs(*n),
            Position::ArgumentNamed(s) => PositionV::ArgumentNamed(s@),
            Position::ArgumentSuppress => PositionV::ArgumentSuppress,
        }
    }
}

impl View for ScanSpec {
    type V = ScanSpecV;

    open spec fn view(&self) -> ScanSpecV {
        ScanSpecV {
            fill: self.fill,
            align: self.align,
            flags: self.flags,
            width: self.width,
            ty: self.ty@,
        }
    }
}

impl View for Argument {
    type V = ArgumentV;

    open spec fn view(&self) -> ArgumentV {
        ArgumentV { position: self.position@, scan: self.scan@ }
    }
}

impl View for Piece {
    type V = PieceV;

    open spec fn view(&self) -> PieceV {
        match self {
            Piece::Literal(s) => PieceV::Literal(s@),
            Piece::Whitespace => PieceV::Whitespace,
            Piece::Argument(a) => PieceV::Argument(a@),
        }
    }
}

pub open spec fn pieces_view(ps: Seq<Piece>) -> Seq<PieceV> {
    ps.map_values(|p: Piece| p@)
}

/// Whether the parser's identifier grammar lets this codepoint start an
/// identifier. Named after Unicode's XID_Start derived property.
pub uninterp spec fn xid_start(c: char) -> bool;

/// Whether this codepoint may continue an identifier (Unicode XID_Continue).
pub uninterp spec fn xid_continue(c: char) -> bool;

/// Relies on unicode_ident::is_xid_start: a pure lookup in the Unicode
/// XID_Start table, a function of the codepoint alone.
#[verifier::external_body]
fn is_xid_start_ch(c: char) -> (r: bool)
    ensures
        r == xid_start(c),
{
    unicode_ident::is_xid_start(c)
}

/// Relies on unicode_ident::is_xid_continue: a pure lookup in the Unicode
/// XID_Continue table, a function of the codepoint alone.
#[verifier::external_body]
fn is_xid_continue_ch(c: char) -> (r: bool)
    ensures
        r == xid_continue(c),
{
    unicode_ident::is_xid_continue(c)
}

/// The whitespace the format grammar itself recognizes.
pub open spec fn is_fmt_ws(c: char) -> bool {
    c == ' ' || c == '\t' || c == '\r' || c == '\n'
}

pub open spec fn is_digit(c: char) -> bool {
    '0' <= c && c <= '9'
}

/// The codepoints that interrupt a literal run.
pub open spec fn is_special(c: char) -> bool {
    c == '\\' || c == '{' || c == '}' || is_fmt_ws(c)
}

/// `skip` that tolerates an out-of-range count, so the specification
/// parser's recursion measures stay evidently bounded.
pub open spec fn skip_up_to(s: Seq<char>, n: int) -> Seq<char> {
    if n < 0 {
        s
    } else if n > s.len() {
        Seq::empty()
    } else {
        s.skip(n)
    }
}

pub open spec fn take_up_to(s: Seq<char>, n: int) -> Seq<char> {
    if n < 0 {
        Seq::empty()
    } else if n > s.len() {
        s
    } else {
        s.take(n)
    }
}

/// Length of the leading whitespace run.
pub open spec fn ws_run(s: Seq<char>) -> int
    decreases s.len(),
{
    if s.len() > 0 && is_fmt_ws(s[0]) {
        1 + ws_run(s.drop_first())
    } else {
        0
    }
}

/// Length of the leading digit run.
pub open spec fn digit_run(s: Seq<char>) -> int
    decreases s.len(),
{
    if s.len() > 0 && is_digit(s[0]) {
        1 + digit_run(s.drop_first())
    } else {
        0
    }
}

/// Length of the leading run free of special codepoints.
pub open spec fn lit_run(s: Seq<char>) -> int
    decreases s.len(),
{
    if s.len() > 0 && !is_special(s[0]) {
        1 + lit_run(s.drop_first())
    } else {
        0
    }
}

/// Length of the leading run of codepoints other than `}`.
pub open spec fn nonbrace_run(s: Seq<char>) -> int
    decreases s.len(),
{
    if s.len() > 0 && s[0] != '}' {
        1 + nonbrace_run(s.drop_first())
    } else {
        0
    }
}

/// Length of the leading run of identifier-continue codepoints.
pub open spec fn xid_cont_run(s: Seq<char>) -> int
    decreases s.len(),
{
    if s.len() > 0 && xid_continue(s[0]) {
        1 + xid_cont_run(s.drop_first())
    } else {
        0
    }
}

pub open spec fn trim_ws(s: Seq<char>) -> Seq<char> {
    skip_up_to(s, ws_run(s))
}

pub open spec fn all_ws(s: Seq<char>) -> bool {
    forall|i: int| 0 <= i < s.len() ==> is_fmt_ws(#[trigger] s[i])
}

/// Value of a digit string read in base ten.
pub open spec fn dec_val(s: Seq<char>) -> int
    decreases s.len(),
{
    if s.len() == 0 {
        0
    } else {
        dec_val(s.drop_last()) * 10 + (s.last() as u32 as int - 48)
    }
}

/// Parses an unsigned decimal at the front: the value and the chars
/// consumed. No digits, or a value beyond the machine word, is `None`.
pub open spec fn spec_parse_uint(s: Seq<char>) -> Option<(usize, int)> {
    let d = digit_run(s);
    if d == 0 || dec_val(take_up_to(s, d)) > usize::MAX as int {
        None
    } else {
        Some((dec_val(take_up_to(s, d)) as usize, d))
    }
}

/// Parses an identifier at the front: the number of chars it spans.
pub open spec fn spec_parse_ident(s: Seq<char>) -> Option<int> {
    if s.len() > 0 && xid_start(s[0]) {
        Some(1 + xid_cont_run(skip_up_to(s, 1)))
    } else {
        None
    }
}

/// Parses the optional position at the front of an argument's body.
pub open spec fn spec_parse_position(t: Seq<char>) -> (PositionV, Seq<char>)
    recommends
        t.len() > 0,
{
    if t[0] == '*' {
        (PositionV::ArgumentSuppress, skip_up_to(t, 1))
    } else if is_digit(t[0]) {
        match spec_parse_uint(t) {
            Some((v, d)) => (PositionV::ArgumentIs(v), skip_up_to(t, d)),
            None => (PositionV::ArgumentNext, t),
        }
    } else {
        match spec_parse_ident(t) {
            Some(l) => (PositionV::ArgumentNamed(take_up_to(t, l)), skip_up_to(t, l)),
            None => (PositionV::ArgumentNext, t),
        }
    }
}

/// Tries a fill codepoint followed by an alignment symbol, then an
/// alignment symbol alone; otherwise neither, and the text is reinterpreted
/// from its left-trimmed start.
#[verifier::opaque]
pub open spec fn spec_fill_align(sp: Seq<char>) -> (Option<char>, Alignment, Seq<char>) {
    let s1 = trim_ws(skip_up_to(sp, 1));
    let s2 = trim_ws(skip_up_to(s1, 1));
    if sp.len() > 0 && s1.len() > 0 && s1[0] == '<' {
        (Some(sp[0]), Alignment::AlignLeft, s2)
    } else if sp.len() > 0 && s1.len() > 0 && s1[0] == '^' {
        (Some(sp[0]), Alignment::AlignCenter, s2)
    } else if sp.len() > 0 && s1.len() > 0 && s1[0] == '>' {
        (Some(sp[0]), Alignment::AlignRight, s2)
    } else if sp.len() > 0 && sp[0] == '<' {
        (None, Alignment::AlignLeft, s1)
    } else if sp.len() > 0 && sp[0] == '^' {
        (None, Alignment::AlignCenter, s1)
    } else if sp.len() > 0 && sp[0] == '>' {
        (None, Alignment::AlignRight, s1)
    } else {
        (None, Alignment::AlignUnknown, sp)
    }
}

/// The scan spec an argument carries when no `:` section is present.
pub open spec fn default_scan_spec() -> ScanSpecV {
    ScanSpecV {
        fill: None,
        align: Alignment::AlignUnknown,
        flags: 0,
        width: None,
        ty: Seq::empty(),
    }
}

/// Parses what follows the fill/alignment in a scan spec: sign flag, `#`,
/// width and type identifier, each optional, then nothing but whitespace.
#[verifier::opaque]
pub open spec fn spec_scan_tail(rest0: Seq<char>, fill: Option<char>, align: Alignment) -> Option<
    ScanSpecV,
> {
    let (flags1, rest1) = if rest0.len() > 0 && rest0[0] == '+' {
        (1u32, trim_ws(skip_up_to(rest0, 1)))
    } else if rest0.len() > 0 && rest0[0] == '-' {
        (2u32, trim_ws(skip_up_to(rest0, 1)))
    } else {
        (0u32, rest0)
    };
    let (flags2, rest2) = if rest1.len() > 0 && rest1[0] == '#' {
        ((flags1 | 4u32), trim_ws(skip_up_to(rest1, 1)))
    } else {
        (flags1, rest1)
    };
    let (width, rest3) = match spec_parse_uint(rest2) {
        Some((v, d)) => (Some(v), trim_ws(skip_up_to(rest2, d))),
        None => (None::<usize>, rest2),
    };
    let (ty, rest4) = match spec_parse_ident(rest3) {
        Some(l) => (take_up_to(rest3, l), skip_up_to(rest3, l)),
        None => (Seq::<char>::empty(), rest3),
    };
    if all_ws(rest4) {
        Some(ScanSpecV { fill, align, flags: flags2, width, ty })
    } else {
        None
    }
}

/// Parses the text standing between the position and the closing `}`.
#[verifier::opaque]
pub open spec fn spec_parse_scanspec(body: Seq<char>) -> Option<ScanSpecV> {
    if body.len() > 0 && body[0] == ':' {
        let sp = trim_ws(skip_up_to(body, 1));
        let (fill, align, rest0) = spec_fill_align(sp);
        spec_scan_tail(rest0, fill, align)
    } else {
        if all_ws(body) {
            Some(default_scan_spec())
        } else {
            None
        }
    }
}

/// Parses one argument, `s` standing just after the opening `{`. Yields the
/// argument and how many chars it consumed (through the closing `}`), or
/// `None` on a grammar violation.
#[verifier::opaque]
pub open spec fn spec_parse_argument(s: Seq<char>) -> Option<(ArgumentV, int)> {
    let t = trim_ws(s);
    if t.len() == 0 {
        None
    } else {
        let (pos, u) = spec_parse_position(t);
        let nb = nonbrace_run(u);
        if nb >= u.len() {
            None
        } else {
            let body = take_up_to(u, nb);
            match spec_parse_scanspec(body) {
                Some(sc) => Some(
                    (ArgumentV { position: pos, scan: sc }, s.len() - u.len() + nb + 1),
                ),
                None => None,
            }
        }
    }
}

/// The literal piece standing before the special codepoint at offset `k`.
pub open spec fn rec_head(s: Seq<char>, k: int) -> Seq<PieceV> {
    if k > 0 {
        seq![PieceV::Literal(take_up_to(s, k))]
    } else {
        Seq::empty()
    }
}

/// The recursive core of the format grammar: parses `s`, searching for the
/// next special codepoint from offset `start` (so a just-escaped codepoint
/// is carried into the following literal).
#[verifier::opaque]
pub open spec fn spec_parse_fmt_rec(s: Seq<char>, start: int) -> Option<Seq<PieceV>>
    decreases s.len(),
{
    let off = if 0 <= start <= s.len() {
        start
    } else {
        0
    };
    let run = lit_run(skip_up_to(s, start));
    let k = if run < 0 {
        off
    } else if off + run > s.len() {
        s.len() as int
    } else {
        off + run
    };
    if k >= s.len() {
        if s.len() > 0 {
            Some(seq![PieceV::Literal(s)])
        } else {
            Some(Seq::empty())
        }
    } else {
        let c = s[k];
        let head: Seq<PieceV> = rec_head(s, k);
        let s2 = skip_up_to(s, k + 1);
        if c == '\\' {
            if s2.len() == 0 {
                None
            } else {
                match spec_parse_fmt_rec(s2, 1) {
                    Some(tail) => Some(head + tail),
                    None => None,
                }
            }
        } else if c == '{' {
            match spec_parse_argument(s2) {
                Some((arg, used)) => {
                    let rest = skip_up_to(s2, used);
                    match spec_parse_fmt_rec(rest, 0) {
                        Some(tail) => Some(head + seq![PieceV::Argument(arg)] + tail),
                        None => None,
                    }
                },
                None => None,
            }
        } else if c == '}' {
            None
        } else {
            match spec_parse_fmt_rec(trim_ws(s2), 0) {
                Some(tail) => Some(head + seq![PieceV::Whitespace] + tail),
                None => None,
            }
        }
    }
}

/// What a format string means: its piece sequence, or `None` when it
/// violates the grammar.
pub open spec fn spec_parse_fmt(s: Seq<char>) -> Option<Seq<PieceV>> {
    spec_parse_fmt_rec(s, 0)
}

/// One unfolding of the grammar core when no further special codepoint
/// stands in `s`.
pub proof fn lemma_rec_at_end(s: Seq<char>, start: int)
    requires
        0 <= start <= s.len(),
        lit_run(skip_up_to(s, start)) == s.len() - start,
    ensures
        spec_parse_fmt_rec(s, start) == (if s.len() > 0 {
            Some(seq![PieceV::Literal(s)])
        } else {
            Some(Seq::<PieceV>::empty())
        }),
{
    reveal(spec_parse_fmt_rec);
}

/// One unfolding at an escape codepoint.
pub proof fn lemma_rec_escape(s: Seq<char>, start: int, k: int)
    requires
        0 <= start <= s.len(),
        start <= k < s.len(),
        lit_run(skip_up_to(s, start)) == k - start,
        s[k] == '\\',
    ensures
        spec_parse_fmt_rec(s, start) == (if s.len() - k - 1 == 0 {
            None::<Seq<PieceV>>
        } else {
            match spec_parse_fmt_rec(s.skip(k + 1), 1) {
                Some(t) => Some(rec_head(s, k) + t),
                None => None::<Seq<PieceV>>,
            }
        }),
{
    reveal(spec_parse_fmt_rec);
}

/// One unfolding at an argument opener.
pub proof fn lemma_rec_arg(s: Seq<char>, start: int, k: int)
    requires
        0 <= start <= s.len(),
        start <= k < s.len(),
        lit_run(skip_up_to(s, start)) == k - start,
        s[k] == '{',
    ensures
        spec_parse_fmt_rec(s, start) == (match spec_parse_argument(s.skip(k + 1)) {
            Some((a, used)) => match spec_parse_fmt_rec(skip_up_to(s.skip(k + 1), used), 0) {
                Some(t) => Some(rec_head(s, k) + seq![PieceV::Argument(a)] + t),
                None => None::<Seq<PieceV>>,
            },
            None => None::<Seq<PieceV>>,
        }),
{
    reveal(spec_parse_fmt_rec);
}

/// A bare closing brace outside any argument is always an error.
pub proof fn lemma_rec_brace(s: Seq<char>, start: int, k: int)
    requires
        0 <= start <= s.len(),
        start <= k < s.len(),
        lit_run(skip_up_to(s, start)) == k - start,
        s[k] == '}',
    ensures
        spec_parse_fmt_rec(s, start) is None,
{
    reveal(spec_parse_fmt_rec);
}

/// One unfolding at a whitespace run.
pub proof fn lemma_rec_ws(s: Seq<char>, start: int, k: int)
    requires
        0 <= start <= s.len(),
        start <= k < s.len(),
        lit_run(skip_up_to(s, start)) == k - start,
        is_fmt_ws(s[k]),
    ensures
        spec_parse_fmt_rec(s, start) == (match spec_parse_fmt_rec(trim_ws(s.skip(k + 1)), 0) {
            Some(t) => Some(rec_head(s, k) + seq![PieceV::Whitespace] + t),
            None => None::<Seq<PieceV>>,
        }),
{
    reveal(spec_parse_fmt_rec);
}

pub proof fn lemma_ws_run(s: Seq<char>)
    ensures
        0 <= ws_run(s) <= s.len(),
        forall|j: int| 0 <= j < ws_run(s) ==> is_fmt_ws(#[trigger] s[j]),
        ws_run(s) < s.len() ==> !is_fmt_ws(s[ws_run(s)]),
    decreases s.len(),
{
    if s.len() > 0 && is_fmt_ws(s[0]) {
        lemma_ws_run(s.drop_first());
        assert forall|j: int| 0 <= j < ws_run(s) implies is_fmt_ws(#[trigger] s[j]) by {
            if j > 0 {
                assert(is_fmt_ws(s.drop_first()[j - 1]));
            }
        }
        if ws_run(s) < s.len() {
            assert(s.drop_first()[ws_run(s) - 1] == s[ws_run(s)]);
        }
    }
}

pub proof fn lemma_ws_run_is(s: Seq<char>, k: int)
    requires
        0 <= k <= s.len(),
        forall|j: int| 0 <= j < k ==> is_fmt_ws(#[trigger] s[j]),
        k < s.len() ==> !is_fmt_ws(s[k]),
    ensures
        ws_run(s) == k,
{
    lemma_ws_run(s);
    if ws_run(s) < k {
        assert(is_fmt_ws(s[ws_run(s)]));
    }
    if k < ws_run(s) {
        assert(is_fmt_ws(s[k]));
    }
}

pub proof fn lemma_digit_run(s: Seq<char>)
    ensures
        0 <= digit_run(s) <= s.len(),
        forall|j: int| 0 <= j < digit_run(s) ==> is_digit(#[trigger] s[j]),
        digit_run(s) < s.len() ==> !is_digit(s[digit_run(s)]),
    decreases s.len(),
{
    if s.len() > 0 && is_digit(s[0]) {
        lemma_digit_run(s.drop_first());
        assert forall|j: int| 0 <= j < digit_run(s) implies is_digit(#[trigger] s[j]) by {
            if j > 0 {
                assert(is_digit(s.drop_first()[j - 1]));
            }
        }
        if digit_run(s) < s.len() {
            assert(s.drop_first()[digit_run(s) - 1] == s[digit_run(s)]);
        }
    }
}

pub proof fn lemma_digit_run_is(s: Seq<char>, k: int)
    requires
        0 <= k <= s.len(),
        forall|j: int| 0 <= j < k ==> is_digit(#[trigger] s[j]),
        k < s.len() ==> !is_digit(s[k]),
    ensures
        digit_run(s) == k,
{
    lemma_digit_run(s);
    if digit_run(s) < k {
        assert(is_digit(s[digit_run(s)]));
    }
    if k < digit_run(s) {
        assert(is_digit(s[k]));
    }
}

pub proof fn lemma_lit_run(s: Seq<char>)
    ensures
        0 <= lit_run(s) <= s.len(),
        forall|j: int| 0 <= j < lit_run(s) ==> !is_special(#[trigger] s[j]),
        lit_run(s) < s.len() ==> is_special(s[lit_run(s)]),
    decreases s.len(),
{
    if s.len() > 0 && !is_special(s[0]) {
        lemma_lit_run(s.drop_first());
        assert forall|j: int| 0 <= j < lit_run(s) implies !is_special(#[trigger] s[j]) by {
            if j > 0 {
                assert(!is_special(s.drop_first()[j - 1]));
            }
        }
        if lit_run(s) < s.len() {
            assert(s.drop_first()[lit_run(s) - 1] == s[lit_run(s)]);
        }
    }
}

pub proof fn lemma_lit_run_is(s: Seq<char>, k: int)
    requires
        0 <= k <= s.len(),
        forall|j: int| 0 <= j < k ==> !is_special(#[trigger] s[j]),
        k < s.len() ==> is_special(s[k]),
    ensures
        lit_run(s) == k,
{
    lemma_lit_run(s);
    if lit_run(s) < k {
        assert(!is_special(s[lit_run(s)]));
    }
    if k < lit_run(s) {
        assert(!is_special(s[k]));
    }
}

pub proof fn lemma_nonbrace_run(s: Seq<char>)
    ensures
        0 <= nonbrace_run(s) <= s.len(),
        forall|j: int| 0 <= j < nonbrace_run(s) ==> #[trigger] s[j] != '}',
        nonbrace_run(s) < s.len() ==> s[nonbrace_run(s)] == '}',
    decreases s.len(),
{
    if s.len() > 0 && s[0] != '}' {
        lemma_nonbrace_run(s.drop_first());
        assert forall|j: int| 0 <= j < nonbrace_run(s) implies #[trigger] s[j] != '}' by {
            if j > 0 {
                assert(s.drop_first()[j - 1] != '}');
            }
        }
        if nonbrace_run(s) < s.len() {
            assert(s.drop_first()[nonbrace_run(s) - 1] == s[nonbrace_run(s)]);
        }
    }
}

pub proof fn lemma_nonbrace_run_is(s: Seq<char>, k: int)
    requires
        0 <= k <= s.len(),
        forall|j: int| 0 <= j < k ==> #[trigger] s[j] != '}',
        k < s.len() ==> s[k] == '}',
    ensures
        nonbrace_run(s) == k,
{
    lemma_nonbrace_run(s);
    if nonbrace_run(s) < k {
        assert(s[nonbrace_run(s)] != '}');
    }
    if k < nonbrace_run(s) {
        assert(s[k] != '}');
    }
}

pub proof fn lemma_xid_cont_run(s: Seq<char>)
    ensures
        0 <= xid_cont_run(s) <= s.len(),
        forall|j: int| 0 <= j < xid_cont_run(s) ==> xid_continue(#[trigger] s[j]),
        xid_cont_run(s) < s.len() ==> !xid_continue(s[xid_cont_run(s)]),
    decreases s.len(),
{
    if s.len() > 0 && xid_continue(s[0]) {
        lemma_xid_cont_run(s.drop_first());
        assert forall|j: int| 0 <= j < xid_cont_run(s) implies xid_continue(#[trigger] s[j]) by {
            if j > 0 {
                assert(xid_continue(s.drop_first()[j - 1]));
            }
        }
        if xid_cont_run(s) < s.len() {
            assert(s.drop_first()[xid_cont_run(s) - 1] == s[xid_cont_run(s)]);
        }
    }
}

pub proof fn lemma_xid_cont_run_is(s: Seq<char>, k: int)
    requires
        0 <= k <= s.len(),
        forall|j: int| 0 <= j < k ==> xid_continue(#[trigger] s[j]),
        k < s.len() ==> !xid_continue(s[k]),
    ensures
        xid_cont_run(s) == k,
{
    lemma_xid_cont_run(s);
    if xid_cont_run(s) < k {
        assert(xid_continue(s[xid_cont_run(s)]));
    }
    if k < xid_cont_run(s) {
        assert(xid_continue(s[k]));
    }
}

/// A wholly-whitespace sequence is one whose whitespace run spans it.
pub proof fn lemma_all_ws(s: Seq<char>)
    ensures
        all_ws(s) <==> ws_run(s) == s.len(),
{
    lemma_ws_run(s);
}

fn str_to_chars(s: &str) -> (r: Vec<char>)
    ensures
        r@ == s@,
{
    let n = s.unicode_len();
    let mut r: Vec<char> = Vec::new();
    let mut i: usize = 0;
    while i < n
        invariant
            n == s@.len(),
            i <= n,
            r@ == s@.take(i as int),
        decreases n - i,
    {
        let c = s.get_char(i);
        r.push(c);
        proof {
            assert(r@ =~= s@.take(i + 1));
        }
        i = i + 1;
    }
    proof {
        assert(r@ =~= s@);
    }
    r
}

fn chars_to_string(cs: &Vec<char>, a: usize, b: usize) -> (r: String)
    requires
        a <= b <= cs@.len(),
    ensures
        r@ == cs@.subrange(a as int, b as int),
{
    let mut r = String::new();
    let mut t = a;
    while t < b
        invariant
            a <= t <= b <= cs@.len(),
            r@ == cs@.subrange(a as int, t as int),
        decreases b - t,
    {
        push_char(&mut r, cs[t]);
        proof {
            assert(r@ =~= cs@.subrange(a as int, t + 1));
        }
        t = t + 1;
    }
    r
}

/// First index at or after `i` whose char is not format whitespace.
fn skip_fmt_ws(cs: &Vec<char>, i: usize) -> (j: usize)
    requires
        i <= cs@.len(),
    ensures
        i <= j <= cs@.len(),
        j - i == ws_run(cs@.skip(i as int)),
        cs@.skip(j as int) == trim_ws(cs@.skip(i as int)),
{
    let ghost s = cs@.skip(i as int);
    let n = cs.len();
    let mut j = i;
    while j < n && (cs[j] == ' ' || cs[j] == '\t' || cs[j] == '\r' || cs[j] == '\n')
        invariant
            i <= j <= n,
            n == cs@.len(),
            forall|t: int| i <= t < j ==> is_fmt_ws(#[trigger] cs@[t]),
        decreases n - j,
    {
        j = j + 1;
    }
    proof {
        assert forall|t: int| 0 <= t < j - i implies is_fmt_ws(#[trigger] s[t]) by {
            assert(s[t] == cs@[i + t]);
        }
        if (j - i) < s.len() {
            assert(s[j - i] == cs@[j as int]);
        }
        lemma_ws_run_is(s, j - i);
        assert(cs@.skip(j as int) =~= trim_ws(s));
    }
    j
}

/// First index at or after `i` whose char is special (or the end).
fn find_special_at(cs: &Vec<char>, i: usize) -> (j: usize)
    requires
        i <= cs@.len(),
    ensures
        i <= j <= cs@.len(),
        j - i == lit_run(cs@.skip(i as int)),
        j < cs@.len() ==> is_special(cs@[j as int]),
{
    let ghost s = cs@.skip(i as int);
    let n = cs.len();
    let mut j = i;
    while j < n && !(cs[j] == '\\' || cs[j] == '{' || cs[j] == '}' || cs[j] == ' ' || cs[j]
        == '\t' || cs[j] == '\r' || cs[j] == '\n')
        invariant
            i <= j <= n,
            n == cs@.len(),
            forall|t: int| i <= t < j ==> !is_special(#[trigger] cs@[t]),
        decreases n - j,
    {
        j = j + 1;
    }
    proof {
        assert forall|t: int| 0 <= t < j - i implies !is_special(#[trigger] s[t]) by {
            assert(s[t] == cs@[i + t]);
        }
        if (j - i) < s.len() {
            assert(s[j - i] == cs@[j as int]);
        }
        lemma_lit_run_is(s, j - i);
    }
    j
}

pub proof fn lemma_dec_val_nonneg(s: Seq<char>)
    requires
        forall|j: int| 0 <= j < s.len() ==> is_digit(#[trigger] s[j]),
    ensures
        dec_val(s) >= 0,
    decreases s.len(),
{
    if s.len() > 0 {
        assert(is_digit(s[s.len() - 1]));
        assert forall|j: int| 0 <= j < s.drop_last().len() implies is_digit(
            #[trigger] s.drop_last()[j],
        ) by {
            assert(s.drop_last()[j] == s[j]);
        }
        lemma_dec_val_nonneg(s.drop_last());
    }
}

/// Appending a digit multiplies the value by ten and adds the digit.
pub proof fn lemma_dec_val_step(s: Seq<char>, n: int)
    requires
        0 <= n < s.len(),
    ensures
        dec_val(s.take(n + 1)) == dec_val(s.take(n)) * 10 + (s[n] as u32 as int - 48),
{
    assert(s.take(n + 1).drop_last() =~= s.take(n));
    assert(s.take(n + 1).last() == s[n]);
}

/// A digit string's value only grows as digits are appended.
pub proof fn lemma_dec_val_mono(s: Seq<char>, m: int, n: int)
    requires
        0 <= m <= n <= s.len(),
        forall|j: int| 0 <= j < n ==> is_digit(#[trigger] s[j]),
    ensures
        dec_val(s.take(m)) <= dec_val(s.take(n)),
    decreases n - m,
{
    if m < n {
        lemma_dec_val_mono(s, m, n - 1);
        lemma_dec_val_step(s, n - 1);
        assert forall|j: int| 0 <= j < s.take(n - 1).len() implies is_digit(
            #[trigger] s.take(n - 1)[j],
        ) by {
            assert(s.take(n - 1)[j] == s[j]);
        }
        lemma_dec_val_nonneg(s.take(n - 1));
        assert(dec_val(s.take(n - 1)) * 10 >= dec_val(s.take(n - 1))) by (nonlinear_arith)
            requires
                dec_val(s.take(n - 1)) >= 0,
        ;
    }
}

/// Parses the decimal run at `i`: the value and the index just past it.
/// `None` when no digit stands at `i` or the value does not fit the word.
fn parse_uint_at(cs: &Vec<char>, i: usize) -> (r: Option<(usize, usize)>)
    requires
        i <= cs@.len(),
    ensures
        match r {
            Some(p) => i < p.1 <= cs@.len() && spec_parse_uint(cs@.skip(i as int)) == Some(
                (p.0, p.1 - i as int),
            ),
            None => spec_parse_uint(cs@.skip(i as int)) is None,
        },
{
    let ghost s = cs@.skip(i as int);
    let n = cs.len();
    let mut j = i;
    while j < n && '0' <= cs[j] && cs[j] <= '9'
        invariant
            i <= j <= n,
            n == cs@.len(),
            forall|t: int| i <= t < j ==> is_digit(#[trigger] cs@[t]),
        decreases n - j,
    {
        j = j + 1;
    }
    proof {
        assert forall|t: int| 0 <= t < j - i implies is_digit(#[trigger] s[t]) by {
            assert(s[t] == cs@[i + t]);
        }
        if (j - i) < s.len() {
            assert(s[j - i] == cs@[j as int]);
        }
        lemma_digit_run_is(s, j - i);
    }
    if j == i {
        return None;
    }
    let ghost d = (j - i) as int;
    let mut v: usize = 0;
    let mut t = i;
    while t < j
        invariant
            i <= t <= j <= cs@.len(),
            s == cs@.skip(i as int),
            d == j - i,
            digit_run(s) == d,
            forall|u: int| 0 <= u < d ==> is_digit(#[trigger] s[u]),
            v as int == dec_val(s.take(t - i)),
        decreases j - t,
    {
        let c = cs[t];
        proof {
            assert(is_digit(s[t - i]));
        }
        let digit = (c as u32 - 48) as usize;
        let v10 = match v.checked_mul(10) {
            Some(x) => x,
            None => {
                proof {
                    lemma_dec_val_step(s, t - i);
                    lemma_dec_val_mono(s, t - i + 1, d);
                    assert(dec_val(s.take(t - i)) * 10 > usize::MAX as int);
                    assert(dec_val(s.take(t - i + 1)) > usize::MAX as int);
                    assert(dec_val(take_up_to(s, d)) > usize::MAX as int);
                }
                return None;
            },
        };
        let vn = match v10.checked_add(digit) {
            Some(x) => x,
            None => {
                proof {
                    lemma_dec_val_step(s, t - i);
                    lemma_dec_val_mono(s, t - i + 1, d);
                    assert(dec_val(s.take(t - i + 1)) > usize::MAX as int);
                    assert(dec_val(take_up_to(s, d)) > usize::MAX as int);
                }
                return None;
            },
        };
        proof {
            lemma_dec_val_step(s, t - i);
        }
        v = vn;
        t = t + 1;
    }
    proof {
        assert(s.take(d) == take_up_to(s, d));
    }
    Some((v, j))
}

/// Parses an identifier starting at `i`: the index just past it, or `None`
/// when no identifier-start codepoint stands at `i`.
fn parse_ident_at(cs: &Vec<char>, i: usize) -> (r: Option<usize>)
    requires
        i <= cs@.len(),
    ensures
        match r {
            Some(j) => i < j <= cs@.len() && spec_parse_ident(cs@.skip(i as int)) == Some(
                j - i as int,
            ),
            None => spec_parse_ident(cs@.skip(i as int)) is None,
        },
{
    let ghost s = cs@.skip(i as int);
    let n = cs.len();
    if i == n {
        return None;
    }
    if !is_xid_start_ch(cs[i]) {
        proof {
            assert(s[0] == cs@[i as int]);
        }
        return None;
    }
    let mut j = i + 1;
    loop
        invariant
            i < j <= n,
            n == cs@.len(),
            forall|t: int| i < t < j ==> xid_continue(#[trigger] cs@[t]),
        ensures
            i < j <= n,
            forall|t: int| i < t < j ==> xid_continue(#[trigger] cs@[t]),
            j < n ==> !xid_continue(cs@[j as int]),
        decreases n - j,
    {
        if j == n {
            break;
        }
        if !is_xid_continue_ch(cs[j]) {
            break;
        }
        j = j + 1;
    }
    proof {
        let ghost s1 = s.skip(1);
        assert forall|t: int| 0 <= t < j - i - 1 implies xid_continue(#[trigger] s1[t]) by {
            assert(s1[t] == cs@[i + 1 + t]);
        }
        if (j - i - 1) < s1.len() {
            assert(s1[j - i - 1] == cs@[j as int]);
        }
        lemma_xid_cont_run_is(s1, j - i - 1);
        assert(s[0] == cs@[i as int]);
        assert(skip_up_to(s, 1) == s1);
    }
    Some(j)
}

fn chars_to_vec(cs: &Vec<char>, a: usize, b: usize) -> (r: Vec<char>)
    requires
        a <= b <= cs@.len(),
    ensures
        r@ == cs@.subrange(a as int, b as int),
{
    let mut r: Vec<char> = Vec::new();
    let mut t = a;
    while t < b
        invariant
            a <= t <= b <= cs@.len(),
            r@ == cs@.subrange(a as int, t as int),
        decreases b - t,
    {
        r.push(cs[t]);
        proof {
            assert(r@ =~= cs@.subrange(a as int, t + 1));
        }
        t = t + 1;
    }
    r
}

/// Tries the two-codepoint fill/alignment prefix, then a lone alignment
/// symbol, at the front of the (already left-trimmed) scan-spec text.
fn fill_align_at(body: &Vec<char>, sp_start: usize) -> (r: (Option<char>, Alignment, usize))
    requires
        sp_start <= body@.len(),
    ensures
        sp_start <= r.2 <= body@.len(),
        spec_fill_align(body@.skip(sp_start as int)) == (r.0, r.1, body@.skip(r.2 as int)),
{
    proof {
        reveal(spec_fill_align);
    }
    let ghost b = body@;
    let ghost sp = b.skip(sp_start as int);
    let n = body.len();
    let s1_start = if sp_start < n {
        skip_fmt_ws(body, sp_start + 1)
    } else {
        sp_start
    };
    let ghost s1 = b.skip(s1_start as int);
    proof {
        if sp_start < n {
            assert(b.skip(sp_start + 1) =~= sp.skip(1));
            assert(skip_up_to(sp, 1) == sp.skip(1));
        } else {
            assert(sp =~= Seq::<char>::empty());
            assert(skip_up_to(sp, 1) =~= Seq::<char>::empty());
            assert(trim_ws(skip_up_to(sp, 1)) =~= Seq::<char>::empty());
            assert(s1 =~= Seq::<char>::empty());
        }
        assert(s1 == trim_ws(skip_up_to(sp, 1)));
    }
    let s2_start = if s1_start < n {
        skip_fmt_ws(body, s1_start + 1)
    } else {
        s1_start
    };
    let ghost s2 = b.skip(s2_start as int);
    proof {
        if s1_start < n {
            assert(b.skip(s1_start + 1) =~= s1.skip(1));
            assert(skip_up_to(s1, 1) == s1.skip(1));
        } else {
            assert(s1 =~= Seq::<char>::empty());
            assert(skip_up_to(s1, 1) =~= Seq::<char>::empty());
            assert(trim_ws(skip_up_to(s1, 1)) =~= Seq::<char>::empty());
            assert(s2 =~= Seq::<char>::empty());
        }
        assert(s2 == trim_ws(skip_up_to(s1, 1)));
        if sp_start < n {
            assert(sp[0] == b[sp_start as int]);
        }
        if s1_start < n {
            assert(s1[0] == b[s1_start as int]);
        }
    }
    if sp_start < n && s1_start < n && body[s1_start] == '<' {
        (Some(body[sp_start]), Alignment::AlignLeft, s2_start)
    } else if sp_start < n && s1_start < n && body[s1_start] == '^' {
        (Some(body[sp_start]), Alignment::AlignCenter, s2_start)
    } else if sp_start < n && s1_start < n && body[s1_start] == '>' {
        (Some(body[sp_start]), Alignment::AlignRight, s2_start)
    } else if sp_start < n && body[sp_start] == '<' {
        (None, Alignment::AlignLeft, s1_start)
    } else if sp_start < n && body[sp_start] == '^' {
        (None, Alignment::AlignCenter, s1_start)
    } else if sp_start < n && body[sp_start] == '>' {
        (None, Alignment::AlignRight, s1_start)
    } else {
        (None, Alignment::AlignUnknown, sp_start)
    }
}

/// Parses the sign flag, `#`, width and type identifier of a scan spec.
#[verifier::rlimit(100)]
#[verifier::spinoff_prover]
fn parse_scan_tail(body: &Vec<char>, rest0_start: usize, fill: Option<char>, align: Alignment) -> (r:
    Result<ScanSpec, String>)
    requires
        rest0_start <= body@.len(),
    ensures
        match r {
            Ok(sc) => spec_scan_tail(body@.skip(rest0_start as int), fill, align) == Some(sc@),
            Err(_) => spec_scan_tail(body@.skip(rest0_start as int), fill, align) is None,
        },
{
    proof {
        reveal(spec_scan_tail);
    }
    let ghost b = body@;
    let n = body.len();
    let flags1: u32;
    let rest1_start: usize;
    if rest0_start < n && body[rest0_start] == '+' {
        flags1 = 1;
        rest1_start = skip_fmt_ws(body, rest0_start + 1);
    } else if rest0_start < n && body[rest0_start] == '-' {
        flags1 = 2;
        rest1_start = skip_fmt_ws(body, rest0_start + 1);
    } else {
        flags1 = 0;
        rest1_start = rest0_start;
    }
    proof {
        let rest0 = b.skip(rest0_start as int);
        if rest0_start < n {
            assert(rest0[0] == b[rest0_start as int]);
            if b[rest0_start as int] == '+' || b[rest0_start as int] == '-' {
                assert(b.skip(rest0_start + 1) =~= rest0.skip(1));
                assert(skip_up_to(rest0, 1) == rest0.skip(1));
            }
        }
    }
    let flags2: u32;
    let rest2_start: usize;
    if rest1_start < n && body[rest1_start] == '#' {
        flags2 = flags1 | 4;
        rest2_start = skip_fmt_ws(body, rest1_start + 1);
    } else {
        flags2 = flags1;
        rest2_start = rest1_start;
    }
    proof {
        let rest1 = b.skip(rest1_start as int);
        if rest1_start < n {
            assert(rest1[0] == b[rest1_start as int]);
            if b[rest1_start as int] == '#' {
                assert(b.skip(rest1_start + 1) =~= rest1.skip(1));
                assert(skip_up_to(rest1, 1) == rest1.skip(1));
            }
        }
    }
    let width: Option<usize>;
    let rest3_start: usize;
    match parse_uint_at(body, rest2_start) {
        Some((v, j)) => {
            width = Some(v);
            rest3_start = skip_fmt_ws(body, j);
            proof {
                let rest2 = b.skip(rest2_start as int);
                let d = j - rest2_start as int;
                assert(b.skip(j as int) =~= rest2.skip(d));
                assert(skip_up_to(rest2, d) == rest2.skip(d));
            }
        },
        None => {
            width = None;
            rest3_start = rest2_start;
        },
    }
    let ty: String;
    let rest4_start: usize;
    match parse_ident_at(body, rest3_start) {
        Some(j) => {
            ty = chars_to_string(body, rest3_start, j);
            rest4_start = j;
            proof {
                let rest3 = b.skip(rest3_start as int);
                let l = j - rest3_start as int;
                assert(b.subrange(rest3_start as int, j as int) =~= rest3.take(l));
                assert(take_up_to(rest3, l) == rest3.take(l));
                assert(b.skip(j as int) =~= rest3.skip(l));
                assert(skip_up_to(rest3, l) == rest3.skip(l));
            }
        },
        None => {
            ty = String::new();
            rest4_start = rest3_start;
        },
    }
    let e = skip_fmt_ws(body, rest4_start);
    proof {
        lemma_all_ws(b.skip(rest4_start as int));
    }
    if e == n {
        Ok(ScanSpec { fill, align, flags: flags2, width, ty })
    } else {
        Err(String::from_str("invalid scan spec"))
    }
}

/// Parses the scan-spec text standing between the position and `}`.
fn parse_scanspec(body: &Vec<char>) -> (r: Result<ScanSpec, String>)
    ensures
        match r {
            Ok(sc) => spec_parse_scanspec(body@) == Some(sc@),
            Err(_) => spec_parse_scanspec(body@) is None,
        },
{
    proof {
        reveal(spec_parse_scanspec);
    }
    let ghost b = body@;
    let n = body.len();
    if n > 0 && body[0] == ':' {
        let sp_start = skip_fmt_ws(body, 1);
        proof {
            assert(skip_up_to(b, 1) == b.skip(1));
            assert(b.skip(sp_start as int) == trim_ws(skip_up_to(b, 1)));
        }
        let fa = fill_align_at(body, sp_start);
        parse_scan_tail(body, fa.2, fa.0, fa.1)
    } else {
        let e = skip_fmt_ws(body, 0);
        proof {
            assert(b.skip(0) =~= b);
            lemma_all_ws(b);
        }
        if e == n {
            let sc = ScanSpec {
                fill: None,
                align: Alignment::AlignUnknown,
                flags: 0,
                width: None,
                ty: String::new(),
            };
            proof {
                assert(sc@ == default_scan_spec());
            }
            Ok(sc)
        } else {
            Err(String::from_str("unexpected string after the position"))
        }
    }
}

/// First index at or after `i` holding `}` (or the end).
fn find_brace_at(cs: &Vec<char>, i: usize) -> (j: usize)
    requires
        i <= cs@.len(),
    ensures
        i <= j <= cs@.len(),
        j - i == nonbrace_run(cs@.skip(i as int)),
        j < cs@.len() ==> cs@[j as int] == '}',
{
    let ghost s = cs@.skip(i as int);
    let n = cs.len();
    let mut j = i;
    while j < n && cs[j] != '}'
        invariant
            i <= j <= n,
            n == cs@.len(),
            forall|t: int| i <= t < j ==> #[trigger] cs@[t] != '}',
        decreases n - j,
    {
        j = j + 1;
    }
    proof {
        assert forall|t: int| 0 <= t < j - i implies #[trigger] s[t] != '}' by {
            assert(s[t] == cs@[i + t]);
        }
        if (j - i) < s.len() {
            assert(s[j - i] == cs@[j as int]);
        }
        lemma_nonbrace_run_is(s, j - i);
    }
    j
}

pub proof fn lemma_pieces_view_push(ps: Seq<Piece>, p: Piece)
    ensures
        pieces_view(ps.push(p)) == pieces_view(ps).push(p@),
{
    assert(pieces_view(ps.push(p)) =~= pieces_view(ps).push(p@));
}

/// Parses one argument, `i` standing just after the opening `{`. Returns
/// the argument and the index just past the closing `}`.
#[verifier::rlimit(100)]
#[verifier::spinoff_prover]
fn parse_argument_at(cs: &Vec<char>, i: usize) -> (r: Result<(Argument, usize), String>)
    requires
        i <= cs@.len(),
    ensures
        match r {
            Ok(p) => i <= p.1 <= cs@.len() && spec_parse_argument(cs@.skip(i as int)) == Some(
                (p.0@, p.1 - i as int),
            ),
            Err(_) => spec_parse_argument(cs@.skip(i as int)) is None,
        },
{
    proof {
        reveal(spec_parse_argument);
    }
    let ghost s = cs@.skip(i as int);
    let n = cs.len();
    let t_start = skip_fmt_ws(cs, i);
    let ghost t = cs@.skip(t_start as int);
    if t_start == n {
        proof {
            assert(t =~= Seq::<char>::empty());
        }
        return Err(String::from_str("a premature end of argument"));
    }
    let c0 = cs[t_start];
    proof {
        assert(t[0] == c0);
    }
    let position: Position;
    let u_start: usize;
    if c0 == '*' {
        position = Position::ArgumentSuppress;
        u_start = t_start + 1;
        proof {
            assert(cs@.skip(u_start as int) =~= t.skip(1));
            assert(skip_up_to(t, 1) == t.skip(1));
        }
    } else if '0' <= c0 && c0 <= '9' {
        match parse_uint_at(cs, t_start) {
            Some((v, j)) => {
                position = Position::ArgumentIs(v);
                u_start = j;
                proof {
                    let d = j - t_start as int;
                    assert(cs@.skip(j as int) =~= t.skip(d));
                    assert(skip_up_to(t, d) == t.skip(d));
                }
            },
            None => {
                position = Position::ArgumentNext;
                u_start = t_start;
            },
        }
    } else {
        match parse_ident_at(cs, t_start) {
            Some(j) => {
                position = Position::ArgumentNamed(chars_to_string(cs, t_start, j));
                u_start = j;
                proof {
                    let l = j - t_start as int;
                    assert(cs@.subrange(t_start as int, j as int) =~= t.take(l));
                    assert(take_up_to(t, l) == t.take(l));
                    assert(cs@.skip(j as int) =~= t.skip(l));
                    assert(skip_up_to(t, l) == t.skip(l));
                }
            },
            None => {
                position = Position::ArgumentNext;
                u_start = t_start;
            },
        }
    }
    let ghost u = cs@.skip(u_start as int);
    proof {
        assert(spec_parse_position(t) == (position@, u));
    }
    let brace = find_brace_at(cs, u_start);
    if brace == n {
        proof {
            assert(nonbrace_run(u) >= u.len());
        }
        return Err(String::from_str("a premature end of argument"));
    }
    let body = chars_to_vec(cs, u_start, brace);
    proof {
        let nb = brace - u_start as int;
        assert(u.take(nb) =~= cs@.subrange(u_start as int, brace as int));
        assert(take_up_to(u, nb) == u.take(nb));
    }
    match parse_scanspec(&body) {
        Ok(sc) => {
            let arg = Argument { position, scan: sc };
            proof {
                assert(s.len() - u.len() + (brace - u_start as int) + 1 == brace + 1 - i as int);
            }
            Ok((arg, brace + 1))
        },
        Err(e) => Err(e),
    }
}

/// The parsing loop's invariant: what remains to parse, composed after
/// the pieces already produced, yields the whole format's parse.
pub open spec fn inv_parse(full: Seq<char>, pv: Seq<PieceV>, pos: int, start: int) -> bool {
    match spec_parse_fmt_rec(full.skip(pos), start) {
        Some(tail) => spec_parse_fmt_rec(full, 0) == Some(pv + tail),
        None => spec_parse_fmt_rec(full, 0) is None,
    }
}

proof fn lemma_step_common(full: Seq<char>, pos: int, start: int, j: int)
    requires
        0 <= start <= 1,
        0 <= pos,
        pos + start <= j <= full.len(),
        lit_run(full.skip(pos + start)) == j - (pos + start),
    ensures
        skip_up_to(full.skip(pos), start) == full.skip(pos + start),
        lit_run(skip_up_to(full.skip(pos), start)) == j - pos - start,
{
    let rem = full.skip(pos);
    assert(rem.skip(start) =~= full.skip(pos + start));
    assert(skip_up_to(rem, start) == rem.skip(start));
}

proof fn lemma_step_end(full: Seq<char>, pv: Seq<PieceV>, pos: int, start: int)
    requires
        0 <= start <= 1,
        0 <= pos,
        pos + start <= full.len(),
        lit_run(full.skip(pos + start)) == full.len() - (pos + start),
        inv_parse(full, pv, pos, start),
    ensures
        pos < full.len() ==> spec_parse_fmt_rec(full, 0) == Some(
            pv + seq![PieceV::Literal(full.skip(pos))],
        ),
        pos == full.len() ==> spec_parse_fmt_rec(full, 0) == Some(pv),
{
    let rem = full.skip(pos);
    lemma_step_common(full, pos, start, full.len() as int);
    lemma_rec_at_end(rem, start);
    if pos == full.len() {
        assert(rem =~= Seq::<char>::empty());
        assert(pv + Seq::<PieceV>::empty() =~= pv);
    }
}

proof fn lemma_step_escape(full: Seq<char>, pv: Seq<PieceV>, pos: int, start: int, j: int)
    requires
        0 <= start <= 1,
        0 <= pos,
        pos + start <= j < full.len(),
        lit_run(full.skip(pos + start)) == j - (pos + start),
        full[j] == '\\',
        inv_parse(full, pv, pos, start),
    ensures
        j + 1 == full.len() ==> spec_parse_fmt_rec(full, 0) is None,
        j + 1 < full.len() ==> inv_parse(
            full,
            pv + rec_head(full.skip(pos), j - pos),
            j + 1,
            1,
        ),
{
    let rem = full.skip(pos);
    let k = j - pos;
    lemma_step_common(full, pos, start, j);
    lemma_rec_escape(rem, start, k);
    assert(rem.skip(k + 1) =~= full.skip(j + 1));
    if j + 1 < full.len() {
        match spec_parse_fmt_rec(full.skip(j + 1), 1) {
            Some(t) => {
                assert(pv + (rec_head(rem, k) + t) =~= (pv + rec_head(rem, k)) + t);
            },
            None => {},
        }
    }
}

proof fn lemma_step_brace(full: Seq<char>, pv: Seq<PieceV>, pos: int, start: int, j: int)
    requires
        0 <= start <= 1,
        0 <= pos,
        pos + start <= j < full.len(),
        lit_run(full.skip(pos + start)) == j - (pos + start),
        full[j] == '}',
        inv_parse(full, pv, pos, start),
    ensures
        spec_parse_fmt_rec(full, 0) is None,
{
    let rem = full.skip(pos);
    lemma_step_common(full, pos, start, j);
    lemma_rec_brace(rem, start, j - pos);
}

proof fn lemma_step_ws(full: Seq<char>, pv: Seq<PieceV>, pos: int, start: int, j: int, np: int)
    requires
        0 <= start <= 1,
        0 <= pos,
        pos + start <= j < full.len(),
        lit_run(full.skip(pos + start)) == j - (pos + start),
        is_fmt_ws(full[j]),
        inv_parse(full, pv, pos, start),
        j + 1 <= np <= full.len(),
        full.skip(np) == trim_ws(full.skip(j + 1)),
    ensures
        inv_parse(
            full,
            pv + rec_head(full.skip(pos), j - pos) + seq![PieceV::Whitespace],
            np,
            0,
        ),
{
    let rem = full.skip(pos);
    let k = j - pos;
    lemma_step_common(full, pos, start, j);
    lemma_rec_ws(rem, start, k);
    assert(rem.skip(k + 1) =~= full.skip(j + 1));
    match spec_parse_fmt_rec(trim_ws(full.skip(j + 1)), 0) {
        Some(t) => {
            assert(pv + (rec_head(rem, k) + seq![PieceV::Whitespace] + t) =~= (pv + rec_head(
                rem, k) + seq![PieceV::Whitespace]) + t);
        },
        None => {},
    }
}

proof fn lemma_step_arg(
    full: Seq<char>,
    pv: Seq<PieceV>,
    pos: int,
    start: int,
    j: int,
    a: ArgumentV,
    np: int,
)
    requires
        0 <= start <= 1,
        0 <= pos,
        pos + start <= j < full.len(),
        lit_run(full.skip(pos + start)) == j - (pos + start),
        full[j] == '{',
        inv_parse(full, pv, pos, start),
        j + 1 <= np <= full.len(),
        spec_parse_argument(full.skip(j + 1)) == Some((a, np - (j + 1))),
    ensures
        inv_parse(
            full,
            pv + rec_head(full.skip(pos), j - pos) + seq![PieceV::Argument(a)],
            np,
            0,
        ),
{
    let rem = full.skip(pos);
    let k = j - pos;
    lemma_step_common(full, pos, start, j);
    lemma_rec_arg(rem, start, k);
    assert(rem.skip(k + 1) =~= full.skip(j + 1));
    let used = np - (j + 1);
    assert(full.skip(j + 1).skip(used) =~= full.skip(np));
    assert(skip_up_to(full.skip(j + 1), used) == full.skip(j + 1).skip(used));
    match spec_parse_fmt_rec(full.skip(np), 0) {
        Some(t) => {
            assert(pv + (rec_head(rem, k) + seq![PieceV::Argument(a)] + t) =~= (pv + rec_head(
                rem, k) + seq![PieceV::Argument(a)]) + t);
        },
        None => {},
    }
}

proof fn lemma_step_arg_err(full: Seq<char>, pv: Seq<PieceV>, pos: int, start: int, j: int)
    requires
        0 <= start <= 1,
        0 <= pos,
        pos + start <= j < full.len(),
        lit_run(full.skip(pos + start)) == j - (pos + start),
        full[j] == '{',
        inv_parse(full, pv, pos, start),
        spec_parse_argument(full.skip(j + 1)) is None,
    ensures
        spec_parse_fmt_rec(full, 0) is None,
{
    let rem = full.skip(pos);
    lemma_step_common(full, pos, start, j);
    lemma_rec_arg(rem, start, j - pos);
    assert(rem.skip(j - pos + 1) =~= full.skip(j + 1));
}

/// Parses a format string into its piece sequence, or reports the first
/// grammar violation as a descriptive message. A parse error leaves no
/// partial result behind.
#[verifier::rlimit(100)]
#[verifier::spinoff_prover]
pub fn parse_fmt(s: &str) -> (r: Result<Vec<Piece>, String>)
    ensures
        match r {
            Ok(ps) => spec_parse_fmt(s@) == Some(pieces_view(ps@)),
            Err(_) => spec_parse_fmt(s@) is None,
        },
{
    let cs = str_to_chars(s);
    let n = cs.len();
    let mut pieces: Vec<Piece> = Vec::new();
    let mut pos: usize = 0;
    let mut start: usize = 0;
    proof {
        assert(cs@.skip(0int) =~= cs@);
        match spec_parse_fmt_rec(cs@, 0int) {
            Some(tail) => {
                assert(pieces_view(pieces@) =~= Seq::<PieceV>::empty());
                assert(Seq::<PieceV>::empty() + tail =~= tail);
            },
            None => {},
        }
    }
    loop
        invariant
            cs@ == s@,
            n == cs@.len(),
            pos + start <= n,
            start <= 1,
            inv_parse(cs@, pieces_view(pieces@), pos as int, start as int),
        decreases n - pos,
    {
        let ghost rem = cs@.skip(pos as int);
        let ghost pv0 = pieces_view(pieces@);
        let j = find_special_at(&cs, pos + start);
        proof {
            assert(cs@.skip(pos + start) =~= rem.skip(start as int));
        }
        let ghost k = j - pos;
        if j == n {
            if pos < n {
                let lit = chars_to_string(&cs, pos, n);
                proof {
                    lemma_step_end(cs@, pv0, pos as int, start as int);
                    assert(lit@ =~= rem);
                    lemma_pieces_view_push(pieces@, Piece::Literal(lit));
                    assert(pv0.push(PieceV::Literal(rem)) =~= pv0 + seq![PieceV::Literal(rem)]);
                }
                pieces.push(Piece::Literal(lit));
            } else {
                proof {
                    lemma_step_end(cs@, pv0, pos as int, start as int);
                }
            }
            return Ok(pieces);
        }
        let c = cs[j];
        let ghost head: Seq<PieceV> = rec_head(rem, k);
        if j > pos {
            let lit = chars_to_string(&cs, pos, j);
            proof {
                assert(lit@ =~= rem.take(k));
                assert(take_up_to(rem, k) == rem.take(k));
                lemma_pieces_view_push(pieces@, Piece::Literal(lit));
                assert(pv0.push(PieceV::Literal(rem.take(k))) =~= pv0 + head);
            }
            pieces.push(Piece::Literal(lit));
        } else {
            proof {
                assert(pv0 + head =~= pv0);
            }
        }
        if c == '\\' {
            proof {
                lemma_step_escape(cs@, pv0, pos as int, start as int, j as int);
            }
            if j + 1 == n {
                return Err(String::from_str("an unfinished escape sequence"));
            }
            pos = j + 1;
            start = 1;
        } else if c == '{' {
            match parse_argument_at(&cs, j + 1) {
                Ok((arg, np)) => {
                    proof {
                        lemma_step_arg(
                            cs@,
                            pv0,
                            pos as int,
                            start as int,
                            j as int,
                            arg@,
                            np as int,
                        );
                        lemma_pieces_view_push(pieces@, Piece::Argument(arg));
                        assert((pv0 + head).push(PieceV::Argument(arg@)) =~= pv0 + head
                            + seq![PieceV::Argument(arg@)]);
                    }
                    pieces.push(Piece::Argument(arg));
                    pos = np;
                    start = 0;
                },
                Err(e) => {
                    proof {
                        lemma_step_arg_err(cs@, pv0, pos as int, start as int, j as int);
                    }
                    return Err(e);
                },
            }
        } else if c == '}' {
            proof {
                lemma_step_brace(cs@, pv0, pos as int, start as int, j as int);
            }
            return Err(String::from_str("unexpected closing brace in the literal"));
        } else {
            let np = skip_fmt_ws(&cs, j + 1);
            proof {
                assert(is_fmt_ws(cs@[j as int]));
                lemma_step_ws(cs@, pv0, pos as int, start as int, j as int, np as int);
                lemma_pieces_view_push(pieces@, Piece::Whitespace);
                assert((pv0 + head).push(PieceV::Whitespace) =~= pv0 + head
                    + seq![PieceV::Whitespace]);
            }
            pieces.push(Piece::Whitespace);
            pos = np;
            start = 0;
        }
    }
}

/// Literal round-trip: a non-empty string holding none of the special
/// codepoints (backslash, braces, whitespace) parses to exactly one literal
/// piece equal to the input.
pub proof fn law_literal_round_trip(s: Seq<char>)
    requires
        s.len() > 0,
        forall|i: int| 0 <= i < s.len() ==> !is_special(#[trigger] s[i]),
    ensures
        spec_parse_fmt(s) == Some(seq![PieceV::Literal(s)]),
{
    assert(skip_up_to(s, 0) =~= s);
    lemma_lit_run_is(s, s.len() as int);
    lemma_rec_at_end(s, 0);
}

/// A trailing lone escape is a parse error: any literal run followed by a
/// final unescaped backslash rejects.
pub proof fn law_trailing_escape(t: Seq<char>, s: Seq<char>)
    requires
        forall|i: int| 0 <= i < t.len() ==> !is_special(#[trigger] t[i]),
        s == t.push('\\'),
    ensures
        spec_parse_fmt(s) is None,
{
    assert(skip_up_to(s, 0) =~= s);
    assert forall|i: int| 0 <= i < t.len() implies !is_special(#[trigger] s[i]) by {
        assert(s[i] == t[i]);
    }
    assert(s[t.len() as int] == '\\');
    lemma_lit_run_is(s, t.len() as int);
    lemma_rec_escape(s, 0, t.len() as int);
    assert(s.len() - t.len() - 1 == 0);
}

} // verus!
