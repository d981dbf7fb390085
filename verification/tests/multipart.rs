use turso_io::bytes::find_subsequence;
use turso_io::chunked::ChunkError;
use turso_io::multipart::{BodyEvent, BodyTurn, MultipartBodyProgram};
use turso_io::parser::MultipartError;
use turso_io::parts::{extract_boundary, parse_part_headers, BoundaryError, DispositionView, JsonError, MultipartPart, PartContent, PartDisposition, PartHeaders, PartHeadersView, PartRouter};

fn by_type(headers: &PartHeaders) -> PartDisposition {
    match &headers.content_type {
        Some(ct) if ct.contains("json") => PartDisposition::Buffer,
        _ => match &headers.filename {
            Some(name) => PartDisposition::StreamToFile(format!("/dev/{name}")),
            None => PartDisposition::Discard,
        },
    }
}

/// Hands the pieces of a body to a program whose files are kept in memory.
fn drive<R: PartRouter>(
    program: &mut MultipartBodyProgram<R>,
    pieces: &[&[u8]],
) -> (Result<(), MultipartError>, Vec<(String, Vec<u8>)>, Vec<usize>) {
    let mut files: Vec<(String, Vec<u8>)> = Vec::new();
    let mut asked = Vec::new();
    let mut next = 0;
    let mut event = BodyEvent::Nothing;
    loop {
        assert!(program.can_step(&event));
        event = match program.step(event) {
            Err(error) => return (Err(error), files, asked),
            Ok(BodyTurn::Complete) => return (Ok(()), files, asked),
            Ok(BodyTurn::Recv(len)) => {
                asked.push(len);
                if next < pieces.len() {
                    next += 1;
                    let piece = pieces[next - 1];
                    BodyEvent::Received { result: piece.len() as i32, buf: piece.to_vec() }
                } else {
                    BodyEvent::Received { result: 0, buf: Vec::new() }
                }
            }
            Ok(BodyTurn::CreateFile(path)) => {
                files.push((path, Vec::new()));
                BodyEvent::FileDone
            }
            Ok(BodyTurn::WriteFile(data)) => {
                files.last_mut().unwrap().1.extend_from_slice(&data);
                BodyEvent::FileDone
            }
            Ok(BodyTurn::FlushFile) => BodyEvent::FileDone,
        };
    }
}

const BODY: &[u8] = b"preamble\r\n--XX\r\nContent-Disposition: form-data; name=\"meta\"\r\nContent-Type: application/json\r\n\r\n{\"a\":1}\r\n--XX\r\nContent-Disposition: form-data; name=doc; filename=\"a.pdf\"\r\nContent-Type: application/pdf\r\n\r\n%PDF \r\n--X not yet\r\n--XX\r\nContent-Disposition: form-data; name=\"note\"\r\n\r\nignored\r\n--XX--\r\ntail";

fn check_parts(parts: &[MultipartPart]) {
    assert_eq!(parts.len(), 3);
    assert_eq!(parts[0].headers.name.as_deref(), Some("meta"));
    assert_eq!(parts[0].bytes(), Some(&b"{\"a\":1}"[..]));
    assert_eq!(parts[0].json(), Ok(&b"{\"a\":1}"[..]));
    assert!(parts[0].is_json());
    assert_eq!(parts[1].headers.filename.as_deref(), Some("a.pdf"));
    assert_eq!(parts[1].file_path(), Some("/dev/a.pdf"));
    assert_eq!(parts[1].file_bytes_written(), 18);
    assert_eq!(parts[1].json(), Err(JsonError::Streamed));
    assert!(parts[1].is_pdf());
    assert_eq!(parts[1].bytes(), None);
    assert!(matches!(parts[2].content, PartContent::Discarded));
    assert_eq!(parts[2].json(), Err(JsonError::Discarded));
    assert_eq!(parts[2].file_bytes_written(), 0);
    assert_eq!(parts[2].file_path(), None);
}

#[test]
fn a_body_in_one_piece_is_parsed() {
    let mut program = MultipartBodyProgram::new(false, Some(BODY.len() as u64), "XX", BODY.to_vec(), by_type);
    let (result, files, asked) = drive(&mut program, &[]);
    assert_eq!(result, Ok(()));
    assert!(asked.is_empty());
    assert_eq!(files, vec![("/dev/a.pdf".to_string(), b"%PDF \r\n--X not yet".to_vec())]);
    check_parts(program.parts());
}

#[test]
fn the_cut_of_a_body_does_not_matter() {
    for size in [1usize, 2, 3, 5, 7, 64] {
        let pieces: Vec<&[u8]> = BODY.chunks(size).collect();
        let mut program = MultipartBodyProgram::new(false, Some(BODY.len() as u64), "XX", Vec::new(), by_type);
        let (result, files, _) = drive(&mut program, &pieces);
        assert_eq!(result, Ok(()));
        assert_eq!(files.len(), 1);
        assert_eq!(files[0].1, b"%PDF \r\n--X not yet");
        check_parts(program.parts());
    }
}

#[test]
fn a_chunked_body_is_parsed() {
    let mut raw = Vec::new();
    for chunk in BODY.chunks(50) {
        raw.extend_from_slice(format!("{:x}\r\n", chunk.len()).as_bytes());
        raw.extend_from_slice(chunk);
        raw.extend_from_slice(b"\r\n");
    }
    raw.extend_from_slice(b"0\r\n\r\n");
    let pieces: Vec<&[u8]> = raw.chunks(13).collect();
    let mut program = MultipartBodyProgram::new(true, None, "XX", Vec::new(), by_type);
    let (result, files, asked) = drive(&mut program, &pieces);
    assert_eq!(result, Ok(()));
    assert_eq!(files[0].1.len(), 18);
    assert!(asked.iter().all(|len| *len == 32768));
    check_parts(program.parts());
}

#[test]
fn a_broken_chunk_is_an_error() {
    let mut program = MultipartBodyProgram::new(true, None, "XX", Vec::new(), by_type);
    let (result, _, _) = drive(&mut program, &[b"zz\r\n"]);
    assert_eq!(result, Err(MultipartError::Chunk(ChunkError::InvalidHexDigit)));
}

#[test]
fn reads_are_bounded_by_what_is_left() {
    let mut program = MultipartBodyProgram::new(false, Some(100000), "XX", vec![b'a'; 10], by_type);
    match program.step(BodyEvent::Nothing) {
        Ok(BodyTurn::Recv(len)) => assert_eq!(len, 32768),
        _ => panic!("expected to receive"),
    }
    match program.step(BodyEvent::Received { result: 99980, buf: vec![b'a'; 99980] }) {
        Ok(BodyTurn::Recv(len)) => assert_eq!(len, 10),
        _ => panic!("expected to receive"),
    }
    let mut open = MultipartBodyProgram::new(false, None, "XX", Vec::new(), by_type);
    match open.step(BodyEvent::Nothing) {
        Ok(BodyTurn::Recv(len)) => assert_eq!(len, 32768),
        _ => panic!("expected to receive"),
    }
}

#[test]
fn a_truncated_body_is_an_error() {
    let cut = &BODY[..BODY.len() - 20];
    let mut program = MultipartBodyProgram::new(false, Some(cut.len() as u64), "XX", Vec::new(), by_type);
    let (result, _, _) = drive(&mut program, &[cut]);
    assert_eq!(result, Err(MultipartError::Truncated));
    let mut gone = MultipartBodyProgram::new(false, None, "XX", cut.to_vec(), by_type);
    assert_eq!(drive(&mut gone, &[]).0, Err(MultipartError::Truncated));
}

#[test]
fn socket_errors_and_huge_results_end_a_body() {
    let mut program = MultipartBodyProgram::new(false, None, "XX", Vec::new(), by_type);
    let failed = BodyEvent::Received { result: -1, buf: Vec::new() };
    assert!(program.can_step(&failed));
    assert_eq!(program.step(failed).err(), Some(MultipartError::Socket));
    let odd = BodyEvent::Received { result: -2, buf: Vec::new() };
    assert!(program.can_step(&odd));
    assert_eq!(
        program.step(odd).err(),
        Some(MultipartError::BodyTooLarge { limit: 134217728 })
    );
    assert!(!program.can_step(&BodyEvent::Received { result: 2, buf: Vec::new() }));
}

#[test]
fn limits_can_be_set() {
    let body = b"--b\r\nContent-Type: text/json\r\n\r\n12345\r\n--b--";
    let mut small = MultipartBodyProgram::new(false, None, "b", body.to_vec(), by_type);
    small.set_max_buffered_part(4);
    assert_eq!(drive(&mut small, &[]).0, Err(MultipartError::PartTooLarge { limit: 4 }));
    let mut exact = MultipartBodyProgram::new(false, None, "b", body.to_vec(), by_type);
    exact.set_max_buffered_part(5);
    assert_eq!(drive(&mut exact, &[]).0, Ok(()));
    let mut total = MultipartBodyProgram::new(false, None, "b", Vec::new(), by_type);
    total.set_max_total_body(10);
    assert_eq!(drive(&mut total, &[body]).0, Err(MultipartError::BodyTooLarge { limit: 10 }));
}

#[test]
fn a_part_that_grows_past_the_limit_is_refused_before_its_end() {
    let head = b"--b\r\nContent-Type: json\r\n\r\n";
    let mut program = MultipartBodyProgram::new(false, None, "b", head.to_vec(), by_type);
    program.set_max_buffered_part(8);
    let (result, _, _) = drive(&mut program, &[&[b'x'; 20]]);
    assert_eq!(result, Err(MultipartError::PartTooLarge { limit: 8 }));
}

#[test]
fn malformed_boundaries_and_headers_are_errors() {
    let mut first = MultipartBodyProgram::new(false, None, "b", b"--bXX".to_vec(), by_type);
    assert_eq!(drive(&mut first, &[]).0, Err(MultipartError::MalformedBoundary));
    let mut later = MultipartBodyProgram::new(false, None, "b", b"--b\r\n\r\n\r\nbody\r\n--bXX".to_vec(), by_type);
    assert_eq!(drive(&mut later, &[]).0, Err(MultipartError::MalformedBoundary));
    assert_eq!(later.parts().len(), 1);
    let mut text = MultipartBodyProgram::new(false, None, "b", b"--b\r\n\xff\xfe\r\n\r\n".to_vec(), by_type);
    assert_eq!(drive(&mut text, &[]).0, Err(MultipartError::HeadersNotUtf8));
    let mut long = b"--b\r\n".to_vec();
    long.extend_from_slice(&vec![b'h'; 65537]);
    let mut headers = MultipartBodyProgram::new(false, None, "b", long, by_type);
    assert_eq!(drive(&mut headers, &[]).0, Err(MultipartError::HeadersTooLarge));
}

#[test]
fn an_empty_multipart_body_has_no_parts() {
    let mut program = MultipartBodyProgram::new(false, None, "b", b"--b--\r\n".to_vec(), by_type);
    assert_eq!(drive(&mut program, &[]).0, Ok(()));
    assert!(program.into_parts().is_empty());
}

#[test]
fn parts_are_found_by_name_and_taken() {
    let body = b"--b\r\nContent-Disposition: form-data; name=x\r\n\r\n1\r\n--b\r\nContent-Disposition: form-data; name=\"x\"\r\nContent-Type: json\r\n\r\n2\r\n--b--";
    let mut program = MultipartBodyProgram::new(false, None, "b", body.to_vec(), by_type);
    assert_eq!(drive(&mut program, &[]).0, Ok(()));
    assert!(matches!(program.part_by_name("x").unwrap().content, PartContent::Discarded));
    assert!(program.part_by_name("y").is_none());
    let parts = program.take_parts();
    assert_eq!(parts.len(), 2);
    assert_eq!(parts[1].bytes(), Some(&b"2"[..]));
    assert!(program.parts().is_empty());
}

#[test]
fn what_follows_the_last_boundary_is_ignored() {
    let mut body = BODY.to_vec();
    body.extend_from_slice(b"\r\n--XX\r\n\r\nnot a part\r\n--XX--");
    let mut program = MultipartBodyProgram::new(false, None, "XX", body, by_type);
    assert_eq!(drive(&mut program, &[]).0, Ok(()));
    check_parts(program.parts());
}

fn to_file(_: &PartHeaders) -> PartDisposition {
    PartDisposition::StreamToFile("f".to_string())
}

#[test]
fn failing_files_end_a_body() {
    let body = b"--b\r\n\r\n\r\nabc\r\n--b--";
    let mut create = MultipartBodyProgram::new(false, None, "b", body.to_vec(), to_file);
    assert!(matches!(create.step(BodyEvent::Nothing), Ok(BodyTurn::CreateFile(path)) if path == "f"));
    assert_eq!(create.step(BodyEvent::FileFailed).err(), Some(MultipartError::CreateFailed));
    let mut write = MultipartBodyProgram::new(false, None, "b", body.to_vec(), to_file);
    assert!(matches!(write.step(BodyEvent::Nothing), Ok(BodyTurn::CreateFile(_))));
    assert!(matches!(write.step(BodyEvent::FileDone), Ok(BodyTurn::WriteFile(data)) if data == b"abc"));
    assert_eq!(write.step(BodyEvent::FileFailed).err(), Some(MultipartError::WriteFailed));
    let mut flush = MultipartBodyProgram::new(false, None, "b", body.to_vec(), to_file);
    assert!(matches!(flush.step(BodyEvent::Nothing), Ok(BodyTurn::CreateFile(_))));
    assert!(matches!(flush.step(BodyEvent::FileDone), Ok(BodyTurn::WriteFile(_))));
    assert!(matches!(flush.step(BodyEvent::FileDone), Ok(BodyTurn::FlushFile)));
    assert_eq!(flush.step(BodyEvent::FileFailed).err(), Some(MultipartError::FlushFailed));
    assert!(flush.parts().is_empty());
}

#[test]
fn little_is_held_back_of_a_streamed_part() {
    let mut program = MultipartBodyProgram::new(false, None, "b", b"--b\r\n\r\n\r\n".to_vec(), to_file);
    assert!(matches!(program.step(BodyEvent::Nothing), Ok(BodyTurn::CreateFile(_))));
    assert!(matches!(program.step(BodyEvent::FileDone), Ok(BodyTurn::Recv(_))));
    let more = BodyEvent::Received { result: 10, buf: b"0123456789".to_vec() };
    assert!(matches!(program.step(more), Ok(BodyTurn::WriteFile(data)) if data == b"012345"));
}

#[test]
fn an_empty_streamed_part_is_flushed_without_a_write() {
    let mut program = MultipartBodyProgram::new(false, None, "b", b"--b\r\n\r\n\r\n\r\n--b--".to_vec(), to_file);
    assert!(matches!(program.step(BodyEvent::Nothing), Ok(BodyTurn::CreateFile(_))));
    assert!(matches!(program.step(BodyEvent::FileDone), Ok(BodyTurn::FlushFile)));
    assert!(matches!(program.step(BodyEvent::FileDone), Ok(BodyTurn::Complete)));
    assert_eq!(program.parts()[0].file_bytes_written(), 0);
}

#[test]
fn boundaries_are_extracted() {
    let ok = |s: &str| extract_boundary(s).unwrap();
    assert_eq!(ok("multipart/form-data; boundary=----WebKitFormBoundary7MA4YWxk"), "----WebKitFormBoundary7MA4YWxk");
    assert_eq!(ok("Multipart/Mixed;BOUNDARY=\"a b\"; x=y"), "a b");
    assert_eq!(ok("multipart/form-data; boundary= q "), "q");
    assert_eq!(ok("multipart/form-data; boundary=\""), "\"");
    assert_eq!(ok("multipart/form-data; boundary=\u{c4}\u{d6}"), "\u{c4}\u{d6}");
    assert_eq!(extract_boundary("text/plain; boundary=x"), Err(BoundaryError::NotMultipart));
    assert_eq!(extract_boundary("multipart/form-data"), Err(BoundaryError::Missing));
    assert_eq!(extract_boundary("multipart/form-data; boundary=\"\""), Err(BoundaryError::Empty));
    assert_eq!(extract_boundary("multipart/form-data; boundary="), Err(BoundaryError::Empty));
}

#[test]
fn part_headers_are_parsed() {
    let raw = b"CONTENT-TYPE:  Text/Plain \r\nnonsense\r\nContent-Disposition: form-data; NAME=\"n\"; FileName=f.txt\r\nX-Other: 1";
    let headers = parse_part_headers(raw).unwrap();
    assert_eq!(headers.content_type.as_deref(), Some("Text/Plain"));
    assert_eq!(headers.name.as_deref(), Some("n"));
    assert_eq!(headers.filename.as_deref(), Some("f.txt"));
    let empty = parse_part_headers(b"").unwrap();
    assert!(empty.name.is_none() && empty.filename.is_none() && empty.content_type.is_none());
    assert!(parse_part_headers(b"\xff").is_none());
    let twice = parse_part_headers(b"Content-Type: a\r\nContent-Type: b\r\nContent-Disposition: x; name=1\r\nContent-Disposition: y").unwrap();
    assert_eq!(twice.content_type.as_deref(), Some("b"));
    assert_eq!(twice.name.as_deref(), Some("1"));
}

#[test]
fn part_types_ignore_case() {
    let part = |ct: &str| MultipartPart {
        headers: PartHeaders { name: None, filename: None, content_type: Some(ct.to_string()) },
        content: PartContent::Discarded,
    };
    assert!(part("Application/JSON; charset=utf-8").is_json());
    assert!(!part("Application/JSON").is_pdf());
    assert!(part("APPLICATION/PDF").is_pdf());
    assert!(part("application/vnd.openxmlformats-officedocument.WordprocessingML.document").is_docx());
    assert!(part("\u{c4}").content_type_contains("\u{e4}"));
    assert!(!part("\u{c4}").content_type_contains("\u{c4}"));
    let none = MultipartPart { headers: PartHeaders::default(), content: PartContent::Discarded };
    assert!(!none.is_json());
}

#[test]
fn byte_patterns_are_found() {
    assert_eq!(find_subsequence(b"abcabc", b"ca"), Some(2));
    assert_eq!(find_subsequence(b"abc", b"abcd"), None);
    assert_eq!(find_subsequence(b"abc", b""), None);
    assert_eq!(find_subsequence(b"aab", b"ab"), Some(1));
    assert_eq!(find_subsequence(b"abc", b"abc"), Some(0));
}

#[test]
fn a_closure_can_route() {
    let limit = 3usize;
    let router = move |h: &PartHeaders| -> PartDisposition {
        match h.name.as_deref() {
            Some(name) if name.len() < limit => PartDisposition::Buffer,
            _ => PartDisposition::Discard,
        }
    };
    let body = b"--b\r\nContent-Disposition: form-data; name=ab\r\n\r\n1\r\n--b\r\nContent-Disposition: form-data; name=abc\r\n\r\n2\r\n--b--";
    let mut program = MultipartBodyProgram::new(false, None, "b", body.to_vec(), router);
    assert_eq!(drive(&mut program, &[]).0, Ok(()));
    assert_eq!(program.parts()[0].bytes(), Some(&b"1"[..]));
    assert_eq!(program.parts()[1].bytes(), None);
}

fn in_chunks(body: &[u8], size: usize) -> Vec<u8> {
    let mut raw = Vec::new();
    for chunk in body.chunks(size) {
        raw.extend_from_slice(format!("{:x}\r\n", chunk.len()).as_bytes());
        raw.extend_from_slice(chunk);
        raw.extend_from_slice(b"\r\n");
    }
    raw.extend_from_slice(b"0\r\n\r\n");
    raw
}

#[test]
fn chunks_read_with_the_head_are_decoded() {
    let raw = in_chunks(BODY, 37);
    for cut in 0..raw.len() + 1 {
        let mut program = MultipartBodyProgram::new(true, None, "XX", raw[..cut].to_vec(), by_type);
        let rest = &raw[cut..];
        let pieces: Vec<&[u8]> = if rest.is_empty() { Vec::new() } else { vec![rest] };
        let (result, files, _) = drive(&mut program, &pieces);
        assert_eq!(result, Ok(()));
        assert_eq!(files[0].1, b"%PDF \r\n--X not yet");
        check_parts(program.parts());
    }
    let mut small = MultipartBodyProgram::new(true, None, "B", b"2\r\n".to_vec(), by_type);
    let (result, _, _) = drive(&mut small, &[b"--\r\n3\r\nB--\r\n0\r\n\r\n"]);
    assert_eq!(result, Ok(()));
}

#[test]
fn a_body_may_be_cut_behind_what_was_read_with_the_head() {
    for cut in 0..BODY.len() + 1 {
        let length = Some(BODY.len() as u64);
        let mut program = MultipartBodyProgram::new(false, length, "XX", BODY[..cut].to_vec(), by_type);
        let rest = &BODY[cut..];
        let pieces: Vec<&[u8]> = rest.chunks(11).collect();
        let (result, _, _) = drive(&mut program, &pieces);
        assert_eq!(result, Ok(()));
        check_parts(program.parts());
    }
}

#[test]
fn the_total_is_limited_from_the_first_step_on() {
    let body = b"--b\r\n\r\n\r\nx\r\n--b--";
    let mut whole = MultipartBodyProgram::new(false, None, "b", body.to_vec(), by_type);
    whole.set_max_total_body(0);
    assert_eq!(drive(&mut whole, &[]).0, Err(MultipartError::BodyTooLarge { limit: 0 }));
    let mut short = MultipartBodyProgram::new(false, None, "b", body.to_vec(), by_type);
    short.set_max_total_body(body.len() as u64 - 1);
    assert!(drive(&mut short, &[]).0.is_err());
    let mut exact = MultipartBodyProgram::new(false, None, "b", body.to_vec(), by_type);
    exact.set_max_total_body(body.len() as u64);
    assert_eq!(drive(&mut exact, &[]).0, Ok(()));
    let mut gone = MultipartBodyProgram::new(false, None, "b", body[..9].to_vec(), by_type);
    gone.set_max_total_body(4);
    let end = BodyEvent::Received { result: 0, buf: Vec::new() };
    assert_eq!(gone.step(end).err(), Some(MultipartError::BodyTooLarge { limit: 4 }));
    let raw = in_chunks(body, 5);
    let mut chunked = MultipartBodyProgram::new(true, None, "b", raw[..7].to_vec(), by_type);
    chunked.set_max_total_body(raw.len() as u64 - 1);
    let rest = &raw[7..];
    assert!(drive(&mut chunked, &[rest]).0.is_err());
}

#[test]
fn large_parts_are_streamed_past_the_limit_of_memory() {
    let mut body = b"--b\r\n\r\n\r\n".to_vec();
    body.extend_from_slice(&vec![b'x'; 3000000]);
    body.extend_from_slice(b"\r\n--b--\r\n");
    let mut program = MultipartBodyProgram::new(false, Some(body.len() as u64), "b", Vec::new(), to_file);
    let pieces: Vec<&[u8]> = body.chunks(32768).collect();
    let (result, files, _) = drive(&mut program, &pieces);
    assert_eq!(result, Ok(()));
    assert_eq!(files[0].1.len(), 3000000);
    assert_eq!(program.parts()[0].file_bytes_written(), 3000000);
}

#[test]
fn boundaries_behind_ascii_are_found_in_any_case() {
    assert_eq!(extract_boundary("Multipart/Form-Data; BOUNDARY=\u{c4}\u{130}").unwrap(), "\u{c4}\u{130}");
    assert_eq!(extract_boundary("multipart/x; a=\u{3a3}; boundary=q").unwrap(), "q");
}

/// Keeps the first part in memory, streams the second, and discards the others.
struct InTurn {
    asked: usize,
}

impl PartRouter for InTurn {
    fn ready(&self) -> bool {
        true
    }

    fn routes(&self, _headers: PartHeadersView, _disposition: DispositionView, _after: Self) -> bool {
        true
    }

    fn route(&mut self, _headers: &PartHeaders) -> PartDisposition {
        self.asked += 1;
        match self.asked {
            1 => PartDisposition::Buffer,
            2 => PartDisposition::StreamToFile("/dev/a.pdf".to_string()),
            _ => PartDisposition::Discard,
        }
    }
}

#[test]
fn routers_may_keep_a_state() {
    for cut in 0..BODY.len() + 1 {
        let length = Some(BODY.len() as u64);
        let router = InTurn { asked: 0 };
        let mut program = MultipartBodyProgram::new(false, length, "XX", BODY[..cut].to_vec(), router);
        let pieces: Vec<&[u8]> = BODY[cut..].chunks(17).collect();
        let (result, files, _) = drive(&mut program, &pieces);
        assert_eq!(result, Ok(()));
        assert_eq!(files, vec![("/dev/a.pdf".to_string(), b"%PDF \r\n--X not yet".to_vec())]);
        assert!(program.is_received());
        check_parts(program.parts());
    }
    let raw = in_chunks(BODY, 21);
    for cut in 0..raw.len() + 1 {
        let router = InTurn { asked: 0 };
        let mut program = MultipartBodyProgram::new(true, None, "XX", raw[..cut].to_vec(), router);
        assert!(!program.is_received());
        let pieces: Vec<&[u8]> = raw[cut..].chunks(23).collect();
        let (result, _, _) = drive(&mut program, &pieces);
        assert_eq!(result, Ok(()));
        check_parts(program.parts());
    }
}
