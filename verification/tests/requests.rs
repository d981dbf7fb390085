use turso_io::parts::extract_boundary;
use turso_io::request::{head_status, ContentType, ContentTypeError, HeadStatus, OwnedRequest, ParsedHead, RequestError};

fn with_headers(headers: &[(&str, &[u8])]) -> OwnedRequest {
    OwnedRequest {
        method: "GET".to_string(),
        path: "/".to_string(),
        version: 1,
        headers: headers.iter().map(|h| (h.0.to_string(), h.1.to_vec())).collect(),
        buf: Vec::new(),
        body_offset: 0,
    }
}

fn head() -> ParsedHead {
    ParsedHead {
        method: Some("GET".to_string()),
        path: Some("/x".to_string()),
        version: Some(1),
        headers: vec![("a".to_string(), b"1".to_vec())],
        body_offset: 3,
    }
}

#[test]
fn a_request_is_parsed() {
    let buf = b"POST /db/7?q HTTP/1.1\r\nHost: x\r\nContent-Length:  12 \r\n\r\nbody".to_vec();
    let req = OwnedRequest::from_buf(buf.clone()).unwrap();
    assert_eq!(req.method, "POST");
    assert_eq!(req.path, "/db/7?q");
    assert_eq!(req.version, 1);
    assert_eq!(req.headers.len(), 2);
    assert_eq!(req.headers[0], ("Host".to_string(), b"x".to_vec()));
    assert_eq!(req.header_raw("content-length"), Some(&b"12"[..]));
    assert_eq!(&req.buf[req.body_offset..], b"body");
    assert_eq!(req.buf, buf);
}

#[test]
fn heads_are_told_apart() {
    assert_eq!(head_status(b""), HeadStatus::Partial);
    assert_eq!(head_status(b"GET / HTTP/1.1\r\nA: b\r\n"), HeadStatus::Partial);
    assert_eq!(head_status(b"GET / HTTP/1.1\r\nA: b\r\n\r\nmore"), HeadStatus::Complete);
    assert_eq!(head_status(b"GET / HTTP/9.9\r\n\r\n"), HeadStatus::Malformed);
    assert_eq!(OwnedRequest::from_buf(b"GET /".to_vec()).err(), Some(RequestError::Partial));
    assert_eq!(OwnedRequest::from_buf(b"\0\0\0".to_vec()).err(), Some(RequestError::Malformed));
}

#[test]
fn too_many_headers_are_refused() {
    let mut buf = b"GET / HTTP/1.1\r\n".to_vec();
    for _ in 0..64 {
        buf.extend_from_slice(b"A: b\r\n");
    }
    let mut more = buf.clone();
    buf.extend_from_slice(b"\r\n");
    assert_eq!(OwnedRequest::from_buf(buf).unwrap().headers.len(), 64);
    more.extend_from_slice(b"A: b\r\n\r\n");
    assert_eq!(head_status(&more), HeadStatus::Malformed);
}

#[test]
fn a_request_is_made_of_its_head() {
    let req = OwnedRequest::from_head(b"abcde".to_vec(), Some(head())).unwrap();
    assert_eq!(req.method, "GET");
    assert_eq!(req.path, "/x");
    assert_eq!(req.body_offset, 3);
    assert_eq!(req.headers, vec![("a".to_string(), b"1".to_vec())]);
    assert_eq!(req.buf, b"abcde");
}

#[test]
fn heads_with_gaps_are_refused() {
    let refused = |h: Option<ParsedHead>| OwnedRequest::from_head(Vec::new(), h).err();
    assert_eq!(refused(None), Some(RequestError::Partial));
    assert_eq!(refused(Some(ParsedHead { method: None, ..head() })), Some(RequestError::MissingMethod));
    assert_eq!(refused(Some(ParsedHead { path: None, ..head() })), Some(RequestError::MissingPath));
    assert_eq!(refused(Some(ParsedHead { version: None, ..head() })), Some(RequestError::MissingVersion));
    let unnamed = vec![("a".to_string(), Vec::new()), (String::new(), Vec::new())];
    assert_eq!(refused(Some(ParsedHead { headers: unnamed, ..head() })), Some(RequestError::EmptyHeaderName));
}

#[test]
fn headers_are_looked_up_in_any_case() {
    let req = with_headers(&[("X-One", b" First "), ("x-one", b"second"), ("Bin", b"\xff")]);
    assert_eq!(req.header_raw("X-ONE"), Some(&b" First "[..]));
    assert_eq!(req.header("x-ONE"), Some("First"));
    assert_eq!(req.header_lowercase("x-one"), Some("first".to_string()));
    assert_eq!(req.header("bin"), None);
    assert_eq!(req.header_lowercase("bin"), None);
    assert_eq!(req.header("none"), None);
    assert_eq!(req.header_raw("bin"), Some(&b"\xff"[..]));
    let wide = with_headers(&[("a", "\u{2003}\u{c4}B\u{a0}".as_bytes())]);
    assert_eq!(wide.header("A"), Some("\u{c4}B"));
    assert_eq!(wide.header_lowercase("A"), Some("\u{c4}b".to_string()));
}

#[test]
fn chunked_codings_are_found() {
    let chunked = |v: &[u8]| with_headers(&[("Transfer-Encoding", v)]).is_chunked();
    assert!(chunked(b"chunked"));
    assert!(chunked(b"gzip, Chunked "));
    assert!(!chunked(b"gzip"));
    assert!(!chunked(b"chunkedx"));
    assert!(!chunked(b""));
    assert!(!with_headers(&[]).is_chunked());
}

#[test]
fn content_lengths_are_read() {
    let length = |v: &[u8]| with_headers(&[("content-length", v)]).content_length();
    assert_eq!(length(b"12"), Some(12));
    assert_eq!(length(b" +7 "), Some(7));
    assert_eq!(length(b"007"), Some(7));
    assert_eq!(length(b"18446744073709551615"), Some(u64::MAX));
    assert_eq!(length(b"18446744073709551616"), None);
    assert_eq!(length(b"-1"), None);
    assert_eq!(length(b"+"), None);
    assert_eq!(length(b""), None);
    assert_eq!(length(b"1 2"), None);
    assert_eq!(with_headers(&[]).content_length(), None);
}

#[test]
fn content_types_are_read() {
    let of = |v: &[u8]| with_headers(&[("Content-Type", v)]).content_type();
    assert!(matches!(of(b"Application/JSON; charset=utf-8"), Ok(ContentType::Json)));
    assert!(matches!(of(b";; multipart/form-data ; Boundary = \"a=b\" "), Ok(ContentType::MultiPart(b)) if b == "a=b"));
    assert!(matches!(of(b"multipart/form-data; x; boundary=\"\"q\"\""), Ok(ContentType::MultiPart(b)) if b == "q"));
    assert_eq!(of(b"multipart/form-data; boundary").err(), Some(ContentTypeError::MissingBoundaryValue));
    assert_eq!(of(b"multipart/form-data; boundary=\"\"").err(), Some(ContentTypeError::EmptyBoundary));
    assert_eq!(of(b"multipart/form-data; charset=x").err(), Some(ContentTypeError::MissingBoundary));
    assert_eq!(of(b"text/plain").err(), Some(ContentTypeError::Unsupported));
    assert_eq!(of(b" ; ").err(), Some(ContentTypeError::Empty));
    assert_eq!(with_headers(&[]).content_type().err(), Some(ContentTypeError::Missing));
    assert_eq!(of(b"\xff").err(), Some(ContentTypeError::Missing));
}

#[test]
fn a_request_ends_with_its_head() {
    let head = b"POST /db/7 HTTP/1.1\r\nHost: example\r\nContent-Length: 4\r\n\r\n";
    for k in 0..head.len() {
        assert!(OwnedRequest::from_buf(head[..k].to_vec()).is_err());
    }
    for more in [&b""[..], &b"body"[..], &b"\r\n\r\nGET / HTTP/9"[..]] {
        let mut buf = head.to_vec();
        buf.extend_from_slice(more);
        let req = OwnedRequest::from_buf(buf.clone()).unwrap();
        assert_eq!(req.body_offset, head.len());
        assert_eq!(req.path, "/db/7");
        assert_eq!(req.headers.len(), 2);
        assert_eq!(req.buf, buf);
    }
}

#[test]
fn both_ways_to_read_a_boundary_agree() {
    for boundary in ["b", "----WebKit=7", "\u{c4}\u{130}x"] {
        let value = format!("multipart/form-data; boundary={boundary}");
        let req = with_headers(&[("content-type", value.as_bytes())]);
        assert!(matches!(req.content_type(), Ok(ContentType::MultiPart(b)) if b == boundary));
        assert_eq!(extract_boundary(&value).unwrap(), boundary);
    }
}
