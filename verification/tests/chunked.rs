use turso_io::chunked::{find_crlf, drain_line, parse_chunk_size, trim_ows, Advance, ChunkError, ChunkedDecoder};

fn decode(max: usize, input: &[u8]) -> (Result<Advance, ChunkError>, Vec<u8>, Vec<u8>) {
    let mut decoder = ChunkedDecoder::new(max);
    let mut in_buf = input.to_vec();
    let mut out = Vec::new();
    let result = decoder.advance(&mut in_buf, &mut out);
    (result, in_buf, out)
}

#[test]
fn whole_chunked_body_is_decoded() {
    let (result, rest, out) = decode(100, b"5\r\nhello\r\n6\r\n world\r\n0\r\n\r\nmore");
    assert_eq!(result, Ok(Advance::Done));
    assert_eq!(out, b"hello world");
    assert_eq!(rest, b"more");
}

#[test]
fn decoder_is_done_only_at_the_end() {
    let mut decoder = ChunkedDecoder::new(100);
    assert!(!decoder.is_done());
    let mut in_buf = b"0\r\n\r\n".to_vec();
    let mut out = Vec::new();
    assert_eq!(decoder.advance(&mut in_buf, &mut out), Ok(Advance::Done));
    assert!(decoder.is_done());
    assert_eq!(decoder.advance(&mut in_buf, &mut out), Ok(Advance::Done));
    assert!(out.is_empty());
}

#[test]
fn one_byte_at_a_time_decodes_the_same() {
    let body = b"A;ext=1\r\n0123456789\r\n1\r\nx\r\n0\r\nTrailer: 1\r\n\r\n";
    let mut decoder = ChunkedDecoder::new(100);
    let mut in_buf = Vec::new();
    let mut out = Vec::new();
    let mut last = Ok(Advance::NeedMore);
    for b in body.iter() {
        in_buf.push(*b);
        last = decoder.advance(&mut in_buf, &mut out);
        assert!(last.is_ok());
    }
    assert_eq!(last, Ok(Advance::Done));
    assert_eq!(out, b"0123456789x");
    assert!(in_buf.is_empty());
}

#[test]
fn progress_and_need_more_are_told_apart() {
    let mut decoder = ChunkedDecoder::new(100);
    let mut in_buf = b"3".to_vec();
    let mut out = Vec::new();
    assert_eq!(decoder.advance(&mut in_buf, &mut out), Ok(Advance::NeedMore));
    in_buf.extend_from_slice(b"\r\nab");
    assert_eq!(decoder.advance(&mut in_buf, &mut out), Ok(Advance::Progress));
    assert_eq!(decoder.advance(&mut in_buf, &mut out), Ok(Advance::NeedMore));
    in_buf.extend_from_slice(b"c\r\n");
    assert_eq!(decoder.advance(&mut in_buf, &mut out), Ok(Advance::Progress));
    assert_eq!(out, b"abc");
}

#[test]
fn chunk_errors_are_told_apart() {
    let mut long = vec![b'0'; 8193];
    long.extend_from_slice(b"\r\n");
    assert_eq!(decode(100, &long).0, Err(ChunkError::SizeLineTooLong));
    assert_eq!(decode(100, b"\r\n").0, Err(ChunkError::EmptySize));
    assert_eq!(decode(100, b" ;x\r\n").0, Err(ChunkError::EmptySize));
    assert_eq!(decode(100, b"1g\r\n").0, Err(ChunkError::InvalidHexDigit));
    assert_eq!(decode(100, b"ffffffffffffffffffff\r\n").0, Err(ChunkError::SizeOverflow));
    assert_eq!(decode(4, b"5\r\nhello\r\n").0, Err(ChunkError::TooLarge { limit: 4 }));
    assert_eq!(decode(5, b"5\r\nhelloXX").0, Err(ChunkError::MissingCrlf));
    let mut trailers = b"0\r\n".to_vec();
    for _ in 0..40 {
        trailers.extend_from_slice(&vec![b't'; 1000]);
        trailers.extend_from_slice(b"\r\n");
    }
    assert_eq!(decode(100, &trailers).0, Err(ChunkError::TrailersTooLarge));
}

#[test]
fn limits_of_a_chunked_body_are_inclusive() {
    let (result, _, out) = decode(5, b"5\r\nhello\r\n0\r\n\r\n");
    assert_eq!(result, Ok(Advance::Done));
    assert_eq!(out.len(), 5);
    let mut line = b"1;".to_vec();
    line.extend_from_slice(&vec![b'x'; 8190]);
    line.extend_from_slice(b"\r\na\r\n0\r\n\r\n");
    assert_eq!(decode(5, &line).0, Ok(Advance::Done));
}

#[test]
fn nothing_is_decoded_of_a_chunk_that_is_too_large() {
    let (result, rest, out) = decode(7, b"5\r\nhello\r\n3\r\nabc\r\n0\r\n\r\n");
    assert_eq!(result, Err(ChunkError::TooLarge { limit: 7 }));
    assert_eq!(out, b"hello");
    assert_eq!(rest, b"abc\r\n0\r\n\r\n");
}

#[test]
fn chunk_sizes_are_read() {
    assert_eq!(parse_chunk_size(b"0"), Ok(0));
    assert_eq!(parse_chunk_size(b"1aF"), Ok(0x1af));
    assert_eq!(parse_chunk_size(b" \t10\t ; name=value"), Ok(16));
    assert_eq!(parse_chunk_size(b"ffffffffffffffff"), Ok(usize::MAX));
    assert_eq!(parse_chunk_size(b"10000000000000000"), Err(ChunkError::SizeOverflow));
    assert_eq!(parse_chunk_size(b"1 0"), Err(ChunkError::InvalidHexDigit));
}

#[test]
fn an_overflow_before_a_bad_digit_is_reported_first() {
    assert_eq!(parse_chunk_size(b"10000000000000000z"), Err(ChunkError::SizeOverflow));
    assert_eq!(parse_chunk_size(b"1z0000000000000000000"), Err(ChunkError::InvalidHexDigit));
}

#[test]
fn lines_are_found_and_drained() {
    assert_eq!(find_crlf(b"ab\r\ncd\r\n"), Some(2));
    assert_eq!(find_crlf(b"ab\r"), None);
    assert_eq!(find_crlf(b""), None);
    assert_eq!(find_crlf(b"\r\r\n"), Some(1));
    let mut buf = b"ab\r\ncd".to_vec();
    assert_eq!(drain_line(&mut buf, 2), b"ab");
    assert_eq!(buf, b"cd");
}

#[test]
fn optional_white_space_is_trimmed() {
    assert_eq!(trim_ows(b" \t a b\t "), b"a b");
    assert_eq!(trim_ows(b" \t"), b"");
    assert_eq!(trim_ows(b"\na"), b"\na");
}
