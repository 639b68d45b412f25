use read::source::ChunkSource;
use read::buffer::LookaheadBuffer;
use read::parse::Alignment;
use read::parse::ScanSpec;
use read::rt::for_signed;
use read::rt::scan_signed_digits;
use read::rt::scan_string;
use read::rt::ScanError;
use read::rt::Scanner;
use read::rt::Signed;
use read::rt::Str;
use read::rt::Unsigned;

fn buffer_over(chunks: &[&[u8]]) -> LookaheadBuffer<ChunkSource> {
    LookaheadBuffer::new(ChunkSource::new(chunks.iter().map(|c| c.to_vec()).collect()))
}

fn spec_with(fill: Option<char>, align: Alignment, flags: u32) -> ScanSpec {
    ScanSpec { fill, align, flags, width: None, ty: String::new() }
}

fn plain() -> ScanSpec {
    spec_with(None, Alignment::AlignUnknown, 0)
}

#[test]
fn signed_scan_takes_value_and_stops() {
    let buf = buffer_over(&[b"-123abc"]);
    let mut sc = Scanner::new(&plain(), buf);
    let r: Option<i64> = scan_signed_digits(&mut sc).unwrap();
    assert_eq!(r, Some(-123));
    let mut buf = sc.into_buffer();
    assert_eq!(buf.fill_request(3).unwrap(), b"abc".to_vec());
}

#[test]
fn signed_scan_no_match_consumes_nothing() {
    let buf = buffer_over(&[b"abc"]);
    let mut sc = Scanner::new(&plain(), buf);
    let r: Option<i64> = scan_signed_digits(&mut sc).unwrap();
    assert_eq!(r, None);
    let mut buf = sc.into_buffer();
    assert_eq!(buf.fill_request(3).unwrap(), b"abc".to_vec());
}

#[test]
fn mandatory_sign_rejects_unsigned_digits() {
    let buf = buffer_over(&[b"123"]);
    let mut sc = Scanner::new(&spec_with(None, Alignment::AlignUnknown, 1), buf);
    let r: Option<i64> = scan_signed_digits(&mut sc).unwrap();
    assert_eq!(r, None);
}

#[test]
fn mandatory_sign_accepts_signed_digits() {
    let buf = buffer_over(&[b"+123"]);
    let mut sc = Scanner::new(&spec_with(None, Alignment::AlignUnknown, 1), buf);
    let r: Option<i64> = scan_signed_digits(&mut sc).unwrap();
    assert_eq!(r, Some(123));
}

#[test]
fn signed_scan_spans_chunk_boundaries() {
    let buf = buffer_over(&[b"-1", b"2", b"3 "]);
    let mut sc = Scanner::new(&plain(), buf);
    let r: Option<i32> = Signed::scan(&mut sc).unwrap();
    assert_eq!(r, Some(-123));
}

#[test]
fn unsigned_scan_rejects_minus() {
    let buf = buffer_over(&[b"-5"]);
    let mut sc = Scanner::new(&plain(), buf);
    let r: Option<u32> = Unsigned::scan(&mut sc).unwrap();
    // the span "-5" is matched and consumed, but an unsigned type rejects it
    assert_eq!(r, None);
}

#[test]
fn out_of_range_value_is_no_value() {
    let buf = buffer_over(&[b"256"]);
    let mut sc = Scanner::new(&plain(), buf);
    let r: Option<u8> = Unsigned::scan(&mut sc).unwrap();
    assert_eq!(r, None);
}

#[test]
fn extreme_values_round_trip() {
    let buf = buffer_over(&[b"-9223372036854775808"]);
    let mut sc = Scanner::new(&plain(), buf);
    let r: Option<i64> = Signed::scan(&mut sc).unwrap();
    assert_eq!(r, Some(i64::MIN));

    let buf = buffer_over(&[b"18446744073709551615"]);
    let mut sc = Scanner::new(&plain(), buf);
    let r: Option<u64> = Unsigned::scan(&mut sc).unwrap();
    assert_eq!(r, Some(u64::MAX));
}

#[test]
fn prepad_is_skipped_for_left_alignment() {
    let buf = buffer_over(&[b"***42rest"]);
    let mut sc = Scanner::new(&spec_with(Some('*'), Alignment::AlignLeft, 0), buf);
    let r: Option<u32> = scan_signed_digits(&mut sc).unwrap();
    assert_eq!(r, Some(42));
    let mut buf = sc.into_buffer();
    assert_eq!(buf.fill_request(4).unwrap(), b"rest".to_vec());
}

#[test]
fn postpad_is_skipped_for_right_alignment() {
    let buf = buffer_over(&[b"42***rest"]);
    let mut sc = Scanner::new(&spec_with(Some('*'), Alignment::AlignRight, 0), buf);
    let r: Option<u32> = scan_signed_digits(&mut sc).unwrap();
    assert_eq!(r, Some(42));
    let mut buf = sc.into_buffer();
    assert_eq!(buf.fill_request(4).unwrap(), b"rest".to_vec());
}

#[test]
fn whitespace_prepad_by_default() {
    let buf = buffer_over(&[b"  \t7 x"]);
    let mut sc = Scanner::new(&spec_with(None, Alignment::AlignCenter, 0), buf);
    let r: Option<u32> = scan_signed_digits(&mut sc).unwrap();
    assert_eq!(r, Some(7));
    let mut buf = sc.into_buffer();
    assert_eq!(buf.fill_request(1).unwrap(), b"x".to_vec());
}

#[test]
fn for_signed_demands_a_value() {
    let buf = buffer_over(&[b"xyz"]);
    let mut sc = Scanner::new(&plain(), buf);
    let r: Result<i64, ScanError> = for_signed(&mut sc);
    assert_eq!(r, Err(ScanError::InvalidInput));
}

#[test]
fn string_capture_stops_at_whitespace() {
    let buf = buffer_over(&[b"hello world"]);
    let mut sc = Scanner::new(&plain(), buf);
    let r = scan_string(&mut sc).unwrap();
    assert_eq!(r, Some("hello".to_string()));
    let mut buf = sc.into_buffer();
    // the terminator is not consumed as part of the value
    assert_eq!(buf.fill_request(6).unwrap(), b" world".to_vec());
}

#[test]
fn line_mode_stops_before_carriage_return() {
    let buf = buffer_over(&[b"line1\r\nrest"]);
    let mut sc = Scanner::new(&spec_with(None, Alignment::AlignUnknown, 4), buf);
    let r = scan_string(&mut sc).unwrap();
    assert_eq!(r, Some("line1".to_string()));
    let mut buf = sc.into_buffer();
    assert_eq!(buf.fill_request(6).unwrap(), b"\r\nrest".to_vec());
}

#[test]
fn line_mode_takes_interior_spaces() {
    let buf = buffer_over(&[b"a b c\nd"]);
    let mut sc = Scanner::new(&spec_with(None, Alignment::AlignUnknown, 4), buf);
    let r = scan_string(&mut sc).unwrap();
    assert_eq!(r, Some("a b c".to_string()));
}

#[test]
fn string_capture_decodes_split_codepoint() {
    // the encoding of one codepoint split across two chunk deliveries
    let buf = buffer_over(&[&[b'a', 0xe4], &[0xbd, 0xa0, b' ', b'x']]);
    let mut sc = Scanner::new(&plain(), buf);
    let r: Option<String> = Str::scan(&mut sc).unwrap();
    assert_eq!(r, Some("a\u{4f60}".to_string()));
}

#[test]
fn string_capture_of_whole_input_at_exhaustion() {
    let buf = buffer_over(&[b"word"]);
    let mut sc = Scanner::new(&plain(), buf);
    let r = scan_string(&mut sc).unwrap();
    assert_eq!(r, Some("word".to_string()));
}

#[test]
fn empty_capture_fails_under_mandatory_flag() {
    let buf = buffer_over(&[b" x"]);
    let mut sc = Scanner::new(&spec_with(None, Alignment::AlignUnknown, 1), buf);
    let r = scan_string(&mut sc).unwrap();
    assert_eq!(r, None);
}

#[test]
fn trailing_fill_is_trimmed_not_consumed() {
    let buf = buffer_over(&[b"abc**"]);
    let mut sc = Scanner::new(&spec_with(Some('*'), Alignment::AlignRight, 0), buf);
    let r = scan_string(&mut sc).unwrap();
    assert_eq!(r, Some("abc".to_string()));
}

#[test]
fn trailing_whitespace_is_trimmed_without_fill() {
    // line mode captures up to the carriage return; right alignment trims
    // the trailing spaces off the materialized value
    let buf = buffer_over(&[b"abc  \rz"]);
    let mut sc = Scanner::new(&spec_with(None, Alignment::AlignRight, 4), buf);
    let r = scan_string(&mut sc).unwrap();
    assert_eq!(r, Some("abc".to_string()));
}

#[test]
fn malformed_encoding_is_no_capture() {
    let buf = buffer_over(&[&[0xff, b'a']]);
    let mut sc = Scanner::new(&plain(), buf);
    let r = scan_string(&mut sc).unwrap();
    assert_eq!(r, None);
}

#[test]
fn source_error_propagates() {
    let buf = buffer_over(&[]);
    let mut sc = Scanner::new(&plain(), buf);
    let r: Result<Option<i64>, _> = scan_signed_digits(&mut sc);
    assert!(r.is_err());
}
