use ctftools::error::Error;
use ctftools::search::Matcher;
use ctftools::stream::{ByteStream, SinkBuffer};

#[test]
fn read_exact_returns_prefix() {
    let mut s = ByteStream::new(b"hello world".to_vec());
    assert_eq!(s.read_exact(5).unwrap(), b"hello".to_vec());
    assert_eq!(s.read_to_end(), b" world".to_vec());
}

#[test]
fn read_exact_short_read_fails() {
    let mut s = ByteStream::new(b"abc".to_vec());
    assert_eq!(s.read_exact(4), Err(Error::ShortRead));
}

#[test]
fn read_lines_concatenates() {
    let mut s = ByteStream::new(b"ab\ncd\nrest".to_vec());
    assert_eq!(s.read_lines(2).unwrap(), b"ab\ncd\n".to_vec());
    assert_eq!(s.read_to_end(), b"rest".to_vec());
}

#[test]
fn read_lines_incomplete_line_fails() {
    let mut s = ByteStream::new(b"ab\ncd".to_vec());
    assert_eq!(s.read_lines(2), Err(Error::ShortRead));
}

#[test]
fn read_until_inclusive_keeps_terminator() {
    let mut s = ByteStream::new(b"key=value;tail".to_vec());
    assert_eq!(s.read_until(b';', true).unwrap(), b"key=value;".to_vec());
    assert_eq!(s.read_to_end(), b"tail".to_vec());
}

#[test]
fn read_until_exclusive_drops_terminator() {
    let mut s = ByteStream::new(b"12ab rest".to_vec());
    assert_eq!(s.read_until(b' ', false).unwrap(), b"12ab".to_vec());
    assert_eq!(s.read_to_end(), b"rest".to_vec());
}

#[test]
fn read_until_missing_byte_fails() {
    let mut s = ByteStream::new(b"no terminator".to_vec());
    assert_eq!(s.read_until(b';', true), Err(Error::ShortRead));
}

#[test]
fn search_consume_positions_after_match() {
    let mut s = ByteStream::new(b"xxabcyy".to_vec());
    assert_eq!(s.search(b"abc", true).unwrap(), b"xxabc".to_vec());
    assert_eq!(s.read_to_end(), b"yy".to_vec());
}

#[test]
fn search_keep_positions_before_match() {
    let mut s = ByteStream::new(b"xxabcyy".to_vec());
    assert_eq!(s.search(b"abc", false).unwrap(), b"xx".to_vec());
    assert_eq!(s.read_exact(3).unwrap(), b"abc".to_vec());
    assert_eq!(s.read_to_end(), b"yy".to_vec());
}

#[test]
fn search_pattern_split_at_refill_boundary() {
    // The pattern is split exactly where a buffer refill lands.
    let mut s = ByteStream::new(b"xxa".to_vec());
    s.push_chunk(b"bcyy");
    assert_eq!(s.search(b"abc", true).unwrap(), b"xxabc".to_vec());
    assert_eq!(s.read_to_end(), b"yy".to_vec());
}

#[test]
fn search_replays_invalidated_partial_match() {
    // Against "aaab", scanning for "aab" must replay the first matched 'a'
    // into the output once the longer attempt fails.
    let mut s = ByteStream::new(b"aaab".to_vec());
    assert_eq!(s.search(b"aab", false).unwrap(), b"a".to_vec());
    assert_eq!(s.read_exact(3).unwrap(), b"aab".to_vec());
}

#[test]
fn search_missing_pattern_fails() {
    let mut s = ByteStream::new(b"abababab".to_vec());
    assert_eq!(s.search(b"abc", true), Err(Error::PatternNotFound));
}

#[test]
fn search_empty_pattern_matches_at_once() {
    let mut s = ByteStream::new(b"data".to_vec());
    assert_eq!(s.search(b"", true).unwrap(), b"".to_vec());
    assert_eq!(s.read_to_end(), b"data".to_vec());
}

#[test]
fn matcher_feed_across_chunks() {
    let mut m = Matcher::new(b"abc".to_vec());
    assert_eq!(m.feed(b"xxa"), 3);
    assert!(!m.is_done());
    assert_eq!(m.feed(b"bczz"), 2);
    assert!(m.is_done());
    assert_eq!(m.into_output(), b"xx".to_vec());
}

#[test]
fn matcher_stops_right_after_match() {
    let mut m = Matcher::new(b"ab".to_vec());
    let used = m.feed(b"zabq");
    assert_eq!(used, 3);
    assert!(m.is_done());
    assert_eq!(m.output(), &b"z".to_vec());
}

#[test]
fn read_lines_zero_reads_nothing() {
    let mut s = ByteStream::new(b"ab\n".to_vec());
    assert_eq!(s.read_lines(0).unwrap(), b"".to_vec());
    assert_eq!(s.read_to_end(), b"ab\n".to_vec());
}

#[test]
fn read_exact_zero_reads_nothing() {
    let mut s = ByteStream::new(b"ab".to_vec());
    assert_eq!(s.read_exact(0).unwrap(), b"".to_vec());
    assert_eq!(s.read_to_end(), b"ab".to_vec());
}

#[test]
fn search_pattern_longer_than_stream_fails() {
    let mut s = ByteStream::new(b"ab".to_vec());
    assert_eq!(s.search(b"abc", true), Err(Error::PatternNotFound));
}

#[test]
fn sink_records_writes_in_order() {
    let mut sink = SinkBuffer::new();
    sink.write(b"\x01\x02");
    sink.write_str("mid");
    sink.write_line("end");
    assert_eq!(sink.take_contents(), b"\x01\x02midend\n".to_vec());
}

#[test]
fn write_line_read_lines_round_trip() {
    // An echo peer: what write_line sends, read_lines(1) hands back with
    // its newline.
    let mut sink = SinkBuffer::new();
    sink.write_line("ping");
    let mut s = ByteStream::new(sink.take_contents());
    assert_eq!(s.read_lines(1).unwrap(), b"ping\n".to_vec());
}
