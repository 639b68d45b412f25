use read::source::ByteSource;
use read::source::ChunkSource;
use read::buffer::BufferedSource;
use read::buffer::LookaheadBuffer;

fn chunked(chunks: &[&[u8]]) -> ChunkSource {
    ChunkSource::new(chunks.iter().map(|c| c.to_vec()).collect())
}

#[test]
fn test_simulated_buffer() {
    let mut b = chunked(&[]);
    assert!(b.fill().is_err());

    let mut b = chunked(&[&[1, 2, 3]]);
    assert_eq!(b.fill().unwrap(), vec![1, 2, 3]);
    b.consume(1);
    assert_eq!(b.fill().unwrap(), vec![2, 3]);
    b.consume(1);
    assert_eq!(b.fill().unwrap(), vec![3]);
    b.consume(1);
    assert!(b.fill().is_err());

    let mut b = chunked(&[&[1, 2], &[3, 4]]);
    assert_eq!(b.fill().unwrap(), vec![1, 2]);
    b.consume(1);
    assert_eq!(b.fill().unwrap(), vec![2]);
    b.consume(1);
    assert_eq!(b.fill().unwrap(), vec![3, 4]);
    b.consume(2);
    assert!(b.fill().is_err());

    let mut b = chunked(&[&[1, 2, 3], &[], &[4]]);
    assert_eq!(b.fill().unwrap(), vec![1, 2, 3]);
    assert_eq!(b.fill().unwrap(), vec![1, 2, 3]);
    b.consume(3);
    assert_eq!(b.fill().unwrap(), vec![]);
    assert_eq!(b.fill().unwrap(), vec![4]);
    b.consume(1);
    assert!(b.fill().is_err());
}

#[test]
fn test_fill_empty() {
    let b = chunked(&[]);
    let mut lab = LookaheadBuffer::new(b);
    assert!(lab.fill().is_err());
}

#[test]
fn test_fill_no_lookahead() {
    let b = chunked(&[&[1, 2, 3]]);
    let mut lab = LookaheadBuffer::new(b);
    assert_eq!(lab.fill().unwrap(), vec![1, 2, 3]);
    lab.consume(1);
    assert_eq!(lab.fill().unwrap(), vec![2, 3]);
    lab.consume(1);
    assert_eq!(lab.fill().unwrap(), vec![3]);
    lab.consume(1);
    assert!(lab.fill().is_err());

    let b = chunked(&[&[1, 2], &[3, 4]]);
    let mut lab = LookaheadBuffer::new(b);
    assert_eq!(lab.fill().unwrap(), vec![1, 2]);
    lab.consume(1);
    assert_eq!(lab.fill().unwrap(), vec![2]);
    lab.consume(1);
    assert_eq!(lab.fill().unwrap(), vec![3, 4]);
    lab.consume(2);
    assert!(lab.fill().is_err());
}

#[test]
fn test_fill_no_lookahead_with_nop_fill() {
    let b = chunked(&[&[1, 2, 3], &[], &[4]]);
    let mut lab = LookaheadBuffer::new(b);
    assert_eq!(lab.fill().unwrap(), vec![1, 2, 3]);
    assert_eq!(lab.fill().unwrap(), vec![1, 2, 3]);
    lab.consume(3);
    assert_eq!(lab.fill().unwrap(), vec![4]); // will immediately pull the next buffer
    lab.consume(1);
    assert!(lab.fill().is_err());
}

#[test]
fn test_fill_excess_lookahead() {
    let b = chunked(&[&[1, 2, 3]]);
    let mut lab = LookaheadBuffer::new(b);
    assert_eq!(lab.fill_request(5).unwrap(), vec![1, 2, 3]);
    assert_eq!(lab.fill_request(0).unwrap(), vec![1, 2, 3]);
    lab.consume(2);
    assert_eq!(lab.fill_request(2).unwrap(), vec![3]);
    assert_eq!(lab.fill_request(0).unwrap(), vec![3]);
    lab.consume(1);
    assert!(lab.fill_request(0).is_err());
}

#[test]
fn test_fill_multiple_calls() {
    let b = chunked(&[&[1, 2, 3], &[4], &[5, 6, 7]]);
    let mut lab = LookaheadBuffer::new(b);
    assert_eq!(lab.fill_request(2).unwrap(), vec![1, 2, 3]);
    lab.consume(2);
    assert_eq!(lab.fill_request(3).unwrap(), vec![3, 4, 5, 6, 7]);
    assert_eq!(lab.fill_request(0).unwrap(), vec![3, 4, 5, 6, 7]);
    lab.consume(1);
    assert_eq!(lab.fill_request(0).unwrap(), vec![4, 5, 6, 7]);
}

#[test]
fn repeated_fill_is_idempotent() {
    let b = chunked(&[&[9, 8, 7], &[6]]);
    let mut lab = LookaheadBuffer::new(b);
    let v1 = lab.fill_request(0).unwrap();
    let v2 = lab.fill_request(0).unwrap();
    let v3 = lab.fill_request(0).unwrap();
    assert_eq!(v1, v2);
    assert_eq!(v2, v3);
}

#[test]
fn consumption_never_exceeds_returned() {
    let b = chunked(&[&[1, 2], &[3, 4, 5]]);
    let mut lab = LookaheadBuffer::new(b);
    let v = lab.fill_request(4).unwrap();
    assert_eq!(v.len(), 5);
    lab.consume(2);
    lab.consume(3);
    // everything the view returned is consumed; the source is now exhausted
    assert!(lab.fill_request(1).is_err());
}

#[test]
fn lookahead_consistency() {
    let b = chunked(&[&[1], &[2], &[3], &[4]]);
    let mut lab = LookaheadBuffer::new(b);
    let big = lab.fill_request(3).unwrap();
    let small = lab.fill_request(2).unwrap();
    assert_eq!(&small[..3], &big[..3]);
}

#[test]
fn chunk_boundaries_are_transparent() {
    let one = chunked(&[&[1, 2, 3]]);
    let three = chunked(&[&[1], &[2], &[3]]);
    let mut a = LookaheadBuffer::new(one);
    let mut b = LookaheadBuffer::new(three);
    let va = a.fill_request(3).unwrap();
    let vb = b.fill_request(3).unwrap();
    assert_eq!(&va[..3], &vb[..3]);
    a.consume(3);
    b.consume(3);
    assert!(a.fill_request(1).is_err());
    assert!(b.fill_request(1).is_err());
}

#[test]
fn peek_does_not_consume() {
    let b = chunked(&[&[65, 66]]);
    let mut lab = LookaheadBuffer::new(b);
    assert_eq!(lab.peek_byte().unwrap(), Some(65));
    assert_eq!(lab.peek_byte().unwrap(), Some(65));
    assert_eq!(lab.peek_char().unwrap(), Some('A'));
    lab.consume(1);
    assert_eq!(lab.peek_char().unwrap(), Some('B'));
}

#[test]
fn peek_char_decodes_across_chunks() {
    // one multi-byte codepoint split across two chunk deliveries
    let b = chunked(&[&[0xe4], &[0xbd, 0xa0, 0x21]]);
    let mut lab = LookaheadBuffer::new(b);
    assert_eq!(lab.peek_char().unwrap(), Some('\u{4f60}'));
    lab.consume(3);
    assert_eq!(lab.peek_char().unwrap(), Some('!'));
}

#[test]
fn peek_char_rejects_truncated_encoding() {
    let b = chunked(&[&[0xe4, 0xbd]]);
    let mut lab = LookaheadBuffer::new(b);
    assert_eq!(lab.peek_char().unwrap(), None);
}

#[test]
fn read_pad_char_counts_multibyte_pads() {
    // two copies of a two-byte codepoint, then a mismatch
    let b = chunked(&[&[0xc2, 0xa0, 0xc2], &[0xa0, 0x58]]);
    let mut lab = LookaheadBuffer::new(b);
    assert_eq!(lab.read_pad_char('\u{a0}').unwrap(), 2);
    assert_eq!(lab.peek_byte().unwrap(), Some(0x58));
}

#[test]
fn read_pad_char_ascii_fast_path() {
    let b = chunked(&[b"aaab".as_slice()]);
    let mut lab = LookaheadBuffer::new(b);
    assert_eq!(lab.read_pad_char('a').unwrap(), 3);
    assert_eq!(lab.peek_byte().unwrap(), Some(b'b'));
}

#[test]
fn read_copies_and_consumes() {
    let b = chunked(&[&[1, 2, 3, 4]]);
    let mut lab = LookaheadBuffer::new(b);
    assert_eq!(lab.read(2).unwrap(), vec![1, 2]);
    assert_eq!(lab.read(10).unwrap(), vec![3, 4]);
}

#[test]
fn buffer_composes_as_a_source() {
    let inner = LookaheadBuffer::new(chunked(&[&[1, 2], &[3]]));
    let mut outer = LookaheadBuffer::new(BufferedSource::new(inner));
    assert_eq!(outer.fill_request(3).unwrap(), vec![1, 2, 3]);
    outer.consume(3);
    assert!(outer.fill_request(1).is_err());
}
