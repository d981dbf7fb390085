use turso_io::parts::{PartDisposition, PartHeaders, PartRouter};
use turso_io::request::OwnedRequest;
use turso_io::response::{encode_head, encode_http1_response_head, Response, METHOD_NOT_ALLOWED, NOT_FOUND};
use turso_io::routes::{get_route_handler, EmbedRouter, HealthCheckProgram, HttpErrorProgram, RouteError, RouteEvent, RouteHandler, RouteTurn};

const HEALTH: &[u8] = b"HTTP/1.1 200 OK\r\ncontent-type: text/plain\r\ncontent-length: 7\r\n\r\nrunning";

fn request(method: &str, path: &str) -> OwnedRequest {
    OwnedRequest {
        method: method.to_string(),
        path: path.to_string(),
        version: 1,
        headers: Vec::new(),
        buf: Vec::new(),
        body_offset: 0,
    }
}

fn upload(headers: &[(&str, &str)], body: &[u8]) -> OwnedRequest {
    let mut buf = b"head".to_vec();
    buf.extend_from_slice(body);
    OwnedRequest {
        headers: headers.iter().map(|h| (h.0.to_string(), h.1.as_bytes().to_vec())).collect(),
        buf,
        body_offset: 4,
        ..request("POST", "/db/a")
    }
}

fn sent(turn: Result<RouteTurn, RouteError>) -> (Vec<u8>, bool) {
    match turn {
        Ok(RouteTurn::Send { bytes, required }) => (bytes, required),
        _ => panic!("expected an answer"),
    }
}

fn answer(method: &str, path: &str) -> Vec<u8> {
    let mut handler = get_route_handler(request(method, path));
    let (bytes, required) = sent(handler.step(RouteEvent::Nothing));
    assert!(required);
    handler.submitted();
    assert!(matches!(handler.step(RouteEvent::Nothing), Ok(RouteTurn::Complete)));
    bytes
}

#[test]
fn heads_are_written() {
    let mut out = b"x".to_vec();
    let response = Response {
        status: 201,
        headers: vec![("a".to_string(), b"1".to_vec()), ("b".to_string(), b"\xff".to_vec())],
    };
    encode_http1_response_head(&response, &mut out);
    assert_eq!(out, b"xHTTP/1.1 201 Created\r\na: 1\r\nb: \xff\r\n\r\n");
    let mut out = Vec::new();
    encode_http1_response_head(&Response { status: 799, headers: Vec::new() }, &mut out);
    assert_eq!(out, b"HTTP/1.1 799 \r\n\r\n");
    let mut out = Vec::new();
    encode_head(418, "Tea", &Vec::new(), &mut out);
    assert_eq!(out, b"HTTP/1.1 418 Tea\r\n\r\n");
}

#[test]
fn health_checks_are_answered() {
    assert_eq!(answer("GET", "/"), HEALTH);
    assert_eq!(answer("DELETE", ""), HEALTH);
    assert_eq!(answer("GET", " //?/db/x "), HEALTH);
    assert_eq!(answer("GET", "/db/17"), HEALTH);
}

#[test]
fn unknown_paths_are_not_found() {
    let expected = b"HTTP/1.1 404 Not Found\r\n\r\n";
    assert_eq!(answer("GET", "/x"), expected);
    assert_eq!(answer("GET", "/db"), expected);
    assert_eq!(answer("POST", "/db/a/b"), expected);
    assert_eq!(answer("POST", "/DB/a"), expected);
}

#[test]
fn other_methods_are_not_allowed() {
    let expected = b"HTTP/1.1 405 Method Not Allowed\r\n\r\n";
    assert_eq!(answer("PUT", "/db/a"), expected);
    assert_eq!(answer("get", "db/a/"), expected);
}

#[test]
fn query_fragment_and_slashes_do_not_matter() {
    for path in ["/db/a", "db/a", "//db///a//", "/db/a?x=/y", "/db/a#f?g", "/db/a/?"] {
        match get_route_handler(request("POST", path)) {
            RouteHandler::Embed(program) => assert_eq!(program.id(), "a"),
            _ => panic!("expected an upload"),
        }
    }
}

#[test]
fn programs_answer_on_their_own() {
    let mut health = HealthCheckProgram::new();
    assert_eq!(sent(Ok(health.step())).0, HEALTH);
    health.submitted();
    assert!(matches!(health.step(), RouteTurn::Complete));
    let mut error = HttpErrorProgram::new(NOT_FOUND);
    assert_eq!(sent(Ok(error.step())).0, b"HTTP/1.1 404 Not Found\r\n\r\n");
    assert_eq!(sent(Ok(error.step())).0, b"HTTP/1.1 404 Not Found\r\n\r\n");
    error.submitted();
    assert!(matches!(error.step(), RouteTurn::Complete));
    let mut handler = RouteHandler::http_error(METHOD_NOT_ALLOWED);
    assert_eq!(sent(handler.step(RouteEvent::FileDone)).0, b"HTTP/1.1 405 Method Not Allowed\r\n\r\n");
}

#[test]
fn uploads_that_are_no_parts_are_refused() {
    let bad = b"HTTP/1.1 400 Bad Request\r\n\r\n";
    for headers in [
        &[][..],
        &[("content-type", "application/json")][..],
        &[("content-type", "multipart/form-data")][..],
        &[("content-type", "multipart/form-data; boundary=b"), ("content-length", "5"), ("transfer-encoding", "chunked")][..],
    ] {
        let mut handler = get_route_handler(upload(headers, b""));
        let (bytes, required) = sent(handler.step(RouteEvent::Nothing));
        assert_eq!(bytes, bad);
        assert!(required);
        handler.submitted();
        assert!(matches!(handler.step(RouteEvent::Nothing), Ok(RouteTurn::Complete)));
    }
}

const PARTS: &[u8] = b"--b\r\nContent-Disposition: form-data; name=m\r\nContent-Type: application/json\r\n\r\n{}\r\n--b\r\nContent-Disposition: form-data; name=f; filename=x.pdf\r\n\r\ndata\r\n--b--\r\n";

fn parts_request(body: &[u8]) -> OwnedRequest {
    let length = format!("{}", PARTS.len());
    upload(&[("Content-Type", "multipart/form-data; boundary=b"), ("Content-Length", &length)], body)
}

#[test]
fn an_upload_is_received_and_answered() {
    let mut handler = get_route_handler(parts_request(&PARTS[..50]));
    match handler.step(RouteEvent::Nothing) {
        Ok(RouteTurn::Recv(len)) => assert_eq!(len, PARTS.len() - 50),
        _ => panic!("expected to receive"),
    }
    let rest = RouteEvent::Received { result: (PARTS.len() - 50) as i32, buf: PARTS[50..].to_vec() };
    assert!(handler.can_step(&rest));
    assert!(matches!(handler.step(rest), Ok(RouteTurn::CreateFile(path)) if path == "/tmp/x.pdf"));
    assert!(matches!(handler.step(RouteEvent::FileDone), Ok(RouteTurn::WriteFile(data)) if data == b"data"));
    assert!(matches!(handler.step(RouteEvent::FileDone), Ok(RouteTurn::FlushFile)));
    assert!(matches!(handler.step(RouteEvent::FileDone), Ok(RouteTurn::Deserialize)));
    match &handler {
        RouteHandler::Embed(program) => {
            let parts = program.parts().unwrap();
            assert_eq!(parts.len(), 2);
            assert_eq!(parts[0].json(), Ok(&b"{}"[..]));
            assert_eq!(parts[1].file_path(), Some("/tmp/x.pdf"));
        }
        _ => panic!("expected an upload"),
    }
    let (bytes, required) = sent(handler.step(RouteEvent::Deserialized(true)));
    assert_eq!(bytes, b"HTTP/1.1 200 OK\r\n\r\n");
    assert!(!required);
    let again = sent(handler.step(RouteEvent::Nothing));
    assert_eq!(again, (b"HTTP/1.1 200 OK\r\n\r\n".to_vec(), true));
    handler.submitted();
    assert!(matches!(handler.step(RouteEvent::Nothing), Ok(RouteTurn::Complete)));
}

#[test]
fn what_cannot_be_deserialized_is_an_error() {
    let body = b"--b--";
    let mut handler = get_route_handler(parts_request(body));
    assert!(matches!(handler.step(RouteEvent::Nothing), Ok(RouteTurn::Deserialize)));
    assert_eq!(handler.step(RouteEvent::Deserialized(false)).err(), Some(RouteError::NotDeserialized));
}

#[test]
fn refused_bodies_are_bad_requests() {
    let bad = b"HTTP/1.1 400 Bad Request\r\n\r\n".to_vec();
    let mut malformed = get_route_handler(parts_request(b"--bXX"));
    assert_eq!(sent(malformed.step(RouteEvent::Nothing)), (bad.clone(), false));
    let mut gone = get_route_handler(parts_request(b"--b\r\n"));
    assert!(matches!(gone.step(RouteEvent::Nothing), Ok(RouteTurn::Recv(_))));
    assert_eq!(sent(gone.step(RouteEvent::Received { result: 0, buf: Vec::new() })), (bad.clone(), false));
    let mut failed = get_route_handler(parts_request(PARTS));
    assert!(matches!(failed.step(RouteEvent::Nothing), Ok(RouteTurn::CreateFile(_))));
    assert_eq!(sent(failed.step(RouteEvent::FileFailed)), (bad, false));
    match &failed {
        RouteHandler::Embed(program) => assert!(program.parts().is_none()),
        _ => panic!("expected an upload"),
    }
}

#[test]
fn uploads_are_routed_by_type_and_name() {
    let mut router = EmbedRouter;
    let mut headers = PartHeaders { name: None, filename: Some("f".to_string()), content_type: Some("text/json".to_string()) };
    assert!(matches!(router.route(&headers), PartDisposition::Buffer));
    headers.content_type = Some("text/JSON".to_string());
    assert!(matches!(router.route(&headers), PartDisposition::StreamToFile(path) if path == "/tmp/f"));
    headers.filename = None;
    assert!(matches!(router.route(&headers), PartDisposition::Discard));
}

#[test]
fn chunked_uploads_begin_behind_the_head() {
    let headers = [("Content-Type", "multipart/form-data; boundary=b"), ("Transfer-Encoding", "chunked")];
    let mut handler = get_route_handler(upload(&headers, b"5\r\n--b"));
    assert!(matches!(handler.step(RouteEvent::Nothing), Ok(RouteTurn::Recv(32768))));
    let rest = b"--\r\n0\r\n\r\n";
    let event = RouteEvent::Received { result: rest.len() as i32, buf: rest.to_vec() };
    assert!(matches!(handler.step(event), Ok(RouteTurn::Deserialize)));
}

#[test]
fn deserialized_parts_count_only_once_all_are_received() {
    let mut handler = get_route_handler(parts_request(&PARTS[..50]));
    for ok in [true, false] {
        match handler.step(RouteEvent::Deserialized(ok)) {
            Ok(RouteTurn::Recv(len)) => assert_eq!(len, PARTS.len() - 50),
            _ => panic!("expected to receive"),
        }
    }
    let rest = RouteEvent::Received { result: (PARTS.len() - 50) as i32, buf: PARTS[50..].to_vec() };
    assert!(matches!(handler.step(rest), Ok(RouteTurn::CreateFile(_))));
    assert!(matches!(handler.step(RouteEvent::Deserialized(true)), Ok(RouteTurn::CreateFile(_))));
    assert!(matches!(handler.step(RouteEvent::FileDone), Ok(RouteTurn::WriteFile(_))));
    assert!(matches!(handler.step(RouteEvent::FileDone), Ok(RouteTurn::FlushFile)));
    assert!(matches!(handler.step(RouteEvent::FileDone), Ok(RouteTurn::Deserialize)));
    let (bytes, _) = sent(handler.step(RouteEvent::Deserialized(true)));
    assert_eq!(bytes, b"HTTP/1.1 200 OK\r\n\r\n");
    let (again, _) = sent(handler.step(RouteEvent::Deserialized(false)));
    assert_eq!(again, bytes);
}
