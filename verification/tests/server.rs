use turso_io::completion::{AppCompletion, SockAddr};
use turso_io::routes::{RouteEvent, RouteTurn};
use turso_io::runtime::{ProgramWaker, RunTurn, RuntimeInner};
use turso_io::server::{begin_response, ClientError, HandleHttpClient, HttpServer};
use turso_io::request::OwnedRequest;

fn received(data: &[u8]) -> RouteEvent {
    RouteEvent::Received { result: data.len() as i32, buf: data.to_vec() }
}

#[test]
fn a_request_is_collected_and_answered() {
    let mut client = HandleHttpClient::new();
    assert!(client.handler().is_none());
    assert!(matches!(client.step(RouteEvent::Nothing), Ok(RouteTurn::Recv(64))));
    assert!(matches!(client.step(received(b"GET / HTTP/1.1\r\n")), Ok(RouteTurn::Recv(64))));
    match client.step(received(b"\r\n")) {
        Ok(RouteTurn::Send { bytes, required }) => {
            assert!(bytes.starts_with(b"HTTP/1.1 200 OK\r\n"));
            assert!(bytes.ends_with(b"\r\n\r\nrunning"));
            assert!(required);
        }
        _ => panic!("expected an answer"),
    }
    assert!(client.handler().is_some());
    client.submitted();
    assert!(client.can_step(&RouteEvent::Nothing));
    assert!(matches!(client.step(RouteEvent::Nothing), Ok(RouteTurn::Complete)));
}

#[test]
fn clients_that_are_gone_are_closed() {
    for result in [0, -1] {
        let mut client = HandleHttpClient::new();
        assert!(matches!(client.step(RouteEvent::Nothing), Ok(RouteTurn::Recv(64))));
        let gone = RouteEvent::Received { result, buf: Vec::new() };
        assert!(matches!(client.step(gone), Ok(RouteTurn::Complete)));
    }
}

#[test]
fn malformed_requests_are_errors() {
    let mut client = HandleHttpClient::new();
    assert_eq!(client.step(received(b"\0\0\0\r\n\r\n")).err(), Some(ClientError::Malformed));
}

#[test]
fn uploads_reach_their_handler() {
    let mut client = HandleHttpClient::new();
    let head = b"POST /db/9 HTTP/1.1\r\nContent-Type: multipart/form-data; boundary=b\r\nContent-Length: 5\r\n\r\n--b";
    match client.step(received(head)) {
        Ok(RouteTurn::Recv(len)) => assert_eq!(len, 2),
        _ => panic!("expected to receive"),
    }
    assert!(matches!(client.step(received(b"--")), Ok(RouteTurn::Deserialize)));
    let failed = client.step(RouteEvent::Deserialized(false));
    assert!(matches!(failed.err(), Some(ClientError::Route(_))));
}

#[test]
fn an_answer_begins_with_the_first_step() {
    let request = OwnedRequest {
        method: "GET".to_string(),
        path: "/nowhere".to_string(),
        version: 1,
        headers: Vec::new(),
        buf: Vec::new(),
        body_offset: 0,
    };
    let (_, turn) = begin_response(request);
    assert!(matches!(turn, Ok(RouteTurn::Send { bytes, .. }) if bytes == b"HTTP/1.1 404 Not Found\r\n\r\n"));
}

#[test]
fn connections_are_served() {
    let mut runtime = RuntimeInner::new();
    let server = HttpServer::new();
    assert!(server.can_step(None));
    assert_eq!(server.step(None), None);
    let mut completion = AppCompletion::new_accept(ProgramWaker::new(None));
    if let AppCompletion::Accept(c) = &mut completion {
        assert!(!server.can_step(Some(c)));
        c.set_sockaddr(SockAddr { sa_family: 2, sa_data: [0u8; 14] }, 16);
        assert!(!server.can_step(Some(c)));
    }
    completion.callback(12, &mut runtime);
    if let AppCompletion::Accept(c) = &completion {
        assert!(server.can_step(Some(c)));
        assert_eq!(server.step(Some(c)), Some(12));
    }
    if let AppCompletion::Accept(c) = &mut completion {
        c.set_sockaddr(SockAddr { sa_family: 10, sa_data: [0u8; 14] }, 16);
        assert!(!server.can_step(Some(c)));
    }
    let id = server.serve(&mut runtime, 40);
    assert_eq!(runtime.step(), RunTurn::Run { id, program: 40 });
    HandleHttpClient::new().close_connection(ProgramWaker::new(None), &mut runtime);
    assert!(runtime.is_registered(id));
    HandleHttpClient::new().close_connection(ProgramWaker::new(Some(id)), &mut runtime);
    assert!(!runtime.is_registered(id));
}
