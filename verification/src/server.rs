//! The server, and the programs that serve its clients.

use vstd::prelude::*;

use crate::bytes::append_bytes;
use crate::completion::AcceptCompletion;
use crate::request::{head_status, request_head, request_of, HeadStatus, HeadView, OwnedRequest, RequestError, RequestView, MAX_HEADERS};
use crate::request_laws::law_requests_are_what_was_sent;
use crate::routes::{get_route_handler, handler_counts, handler_for, handler_step, handler_submitted, opens_upload, route_view, HandlerView, RouteError, RouteEvent, RouteHandler, RouteTurn, RouteTurnView};
use crate::runtime::{deregistered, next_id, queued, registered, ProgramWaker, RuntimeInner, RuntimeView};

verus! {

/// The address family of IPv4.
pub const AF_INET: u16 = 2;

/// How many bytes of a request are asked for at once.
pub const REQUEST_READ: usize = 64;

/// The runtime once `program` was registered and queued.
pub open spec fn served(v: RuntimeView, program: u64) -> RuntimeView {
    queued(registered(v, program), next_id(v.storage) as usize)
}

/// Accepts connections.
pub struct HttpServer;

impl HttpServer {
    pub fn new() -> (server: Self) {
        HttpServer
    }

    /// Whether a connection can be served: only IPv4 is, and it must have been
    /// accepted.
    pub fn can_step(&self, accepted: Option<&AcceptCompletion>) -> (yes: bool)
        ensures
            yes == servable(accepted),
    {
        match accepted {
            None => true,
            Some(c) => c.sockaddr().sa_family == AF_INET && c.result().is_some(),
        }
    }

    /// The connection to register before the next one is accepted: the one
    /// that was accepted, if any was.
    pub fn step(&self, accepted: Option<&AcceptCompletion>) -> (fd: Option<i32>)
        requires
            servable(accepted),
        ensures
            fd == match accepted {
                Some(c) => c.outcome(),
                None => None,
            },
            accepted is Some ==> fd is Some,
    {
        match accepted {
            None => None,
            Some(c) => c.result(),
        }
    }

    /// Registers and queues the program that serves a connection.
    pub fn serve(&self, runtime: &mut RuntimeInner, program: u64) -> (id: usize)
        ensures
            id == next_id(old(runtime)@.storage),
            !old(runtime)@.storage.programs.contains_key(id),
            final(runtime)@ == served(old(runtime)@, program),
    {
        let id: usize = runtime.register(program);
        runtime.queue(id);
        id
    }
}

/// A connection can be served: it comes over IPv4 and was accepted.
pub open spec fn servable(accepted: Option<&AcceptCompletion>) -> bool {
    accepted matches Some(c) ==> c.address().sa_family == AF_INET && c.outcome() is Some
}

/// Why a client is not served.
#[derive(Debug, Clone, Copy, PartialEq, Eq, Structural)]
pub enum ClientError {
    /// The head of its request cannot be parsed.
    Malformed,
    /// Its request is none.
    Request(RequestError),
    /// The handler of its request gave up.
    Route(RouteError),
}

/// A client program, mathematically.
pub enum ClientView {
    /// The head of the request is being received.
    Receiving(Seq<u8>),
    /// The request is being answered.
    Responding(HandlerView),
}

/// The first step of the handler that answers a request.
pub open spec fn first_step(request: RequestView) -> (
    HandlerView,
    Result<RouteTurnView, RouteError>,
) {
    handler_step(handler_for(request), RouteEvent::Nothing)
}

/// The client program once `buf` was received, and what it answers.
pub open spec fn head_received(buf: Seq<u8>) -> (ClientView, Result<RouteTurnView, ClientError>) {
    match request_head(buf, MAX_HEADERS as nat) {
        Err(_) => (ClientView::Receiving(buf), Err(ClientError::Malformed)),
        Ok(None) => (
            ClientView::Receiving(buf),
            Ok(RouteTurnView::Recv(REQUEST_READ as nat)),
        ),
        Ok(Some(head)) => match request_of(buf, Some(head)) {
            Err(error) => (
                ClientView::Receiving(Seq::empty()),
                Err(ClientError::Request(error)),
            ),
            Ok(request) => match first_step(request) {
                (handler, Ok(turn)) => (ClientView::Responding(handler), Ok(turn)),
                (_, Err(error)) => (
                    ClientView::Receiving(Seq::empty()),
                    Err(ClientError::Route(error)),
                ),
            },
        },
    }
}

/// The client program after a step, and what it answers. It is complete once
/// the connection is to be closed.
pub open spec fn client_step(v: ClientView, event: RouteEvent) -> (
    ClientView,
    Result<RouteTurnView, ClientError>,
) {
    match v {
        ClientView::Receiving(buf) => match event {
            RouteEvent::Received { result, buf: data } => if result == 0 || result == -1 {
                (v, Ok(RouteTurnView::Complete))
            } else {
                head_received(buf + data@)
            },
            _ => head_received(buf),
        },
        ClientView::Responding(handler) => match handler_step(handler, event) {
            (next, Ok(turn)) => (ClientView::Responding(next), Ok(turn)),
            (next, Err(error)) => (ClientView::Responding(next), Err(ClientError::Route(error))),
        },
    }
}

/// The result of the socket still counts.
pub open spec fn client_counts(v: ClientView, event: RouteEvent) -> bool {
    v matches ClientView::Responding(handler) ==> handler_counts(handler, event)
}

/// A result, with the view of what it holds.
pub open spec fn client_view(result: Result<RouteTurn, ClientError>) -> Result<
    RouteTurnView,
    ClientError,
> {
    match result {
        Ok(turn) => Ok(turn@),
        Err(error) => Err(error),
    }
}

/// The runtime once the program of `waker` was deregistered.
pub open spec fn closed_for(v: RuntimeView, waker: ProgramWaker) -> RuntimeView {
    match waker.program() {
        Some(id) => deregistered(v, id),
        None => v,
    }
}

/// Begins to answer a request.
pub fn begin_response(request: OwnedRequest) -> (begun: (
    RouteHandler,
    Result<RouteTurn, RouteError>,
))
    requires
        opens_upload(request@) ==> request.wf(),
    ensures
        first_step(request@) == (begun.0@, route_view(begun.1)),
        begun.0.wf(),
{
    let mut handler = get_route_handler(request);
    let result = handler.step(RouteEvent::Nothing);
    (handler, result)
}

enum ClientState {
    Receiving(Vec<u8>),
    Responding(RouteHandler),
}

/// Serves one client: receives its request and answers it.
pub struct HandleHttpClient {
    state: ClientState,
}

impl View for HandleHttpClient {
    type V = ClientView;

    closed spec fn view(&self) -> ClientView {
        match self.state {
            ClientState::Receiving(buf) => ClientView::Receiving(buf@),
            ClientState::Responding(handler) => ClientView::Responding(handler@),
        }
    }
}

impl HandleHttpClient {
    /// The program is in order.
    pub closed spec fn wf(&self) -> bool {
        self.state matches ClientState::Responding(handler) ==> handler.wf()
    }

    /// A program for a client that has sent nothing yet.
    pub fn new() -> (program: Self)
        ensures
            program@ == ClientView::Receiving(Seq::empty()),
            program.wf(),
    {
        HandleHttpClient { state: ClientState::Receiving(Vec::new()) }
    }

    /// The handler that answers the request, once there is one.
    pub fn handler(&self) -> (handler: Option<&RouteHandler>)
        ensures
            match self@ {
                ClientView::Responding(view) => handler is Some && handler->0@ == view,
                _ => handler is None,
            },
    {
        match &self.state {
            ClientState::Receiving(_) => None,
            ClientState::Responding(handler) => Some(handler),
        }
    }

    /// Whether the result of the socket still counts.
    pub fn can_step(&self, event: &RouteEvent) -> (yes: bool)
        ensures
            yes == client_counts(self@, *event),
    {
        match &self.state {
            ClientState::Receiving(_) => true,
            ClientState::Responding(handler) => handler.can_step(event),
        }
    }

    /// Goes on after `event`, until something is needed from the outside.
    pub fn step(&mut self, event: RouteEvent) -> (result: Result<RouteTurn, ClientError>)
        requires
            old(self).wf(),
            client_counts(old(self)@, event),
        ensures
            client_step(old(self)@, event) == (final(self)@, client_view(result)),
            final(self).wf(),
    {
        match &mut self.state {
            ClientState::Responding(handler) => {
                return match handler.step(event) {
                    Ok(turn) => Ok(turn),
                    Err(error) => Err(ClientError::Route(error)),
                };
            },
            ClientState::Receiving(buf) => {
                match event {
                    RouteEvent::Received { result, buf: data } => {
                        if result == 0 || result == -1 {
                            return Ok(RouteTurn::Complete);
                        }
                        append_bytes(buf, data.as_slice());
                    },
                    _ => {},
                }
                match head_status(buf.as_slice()) {
                    HeadStatus::Malformed => {
                        return Err(ClientError::Malformed);
                    },
                    HeadStatus::Partial => {
                        return Ok(RouteTurn::Recv(REQUEST_READ));
                    },
                    HeadStatus::Complete => {},
                }
            },
        }
        self.respond()
    }

    /// Begins to answer the request, whose head is complete.
    fn respond(&mut self) -> (result: Result<RouteTurn, ClientError>)
        requires
            old(self)@ matches ClientView::Receiving(buf) && request_head(
                buf,
                MAX_HEADERS as nat,
            ) matches Ok(Some(_)),
        ensures
            head_received(old(self)@->Receiving_0) == (final(self)@, client_view(result)),
            final(self).wf(),
    {
        let mut req_buf: Vec<u8> = Vec::new();
        match &mut self.state {
            ClientState::Receiving(buf) => std::mem::swap(buf, &mut req_buf),
            ClientState::Responding(_) => {},
        }
        let request = match OwnedRequest::from_buf(req_buf) {
            Ok(request) => request,
            Err(error) => {
                return Err(ClientError::Request(error));
            },
        };
        let (handler, result) = begin_response(request);
        match result {
            Ok(turn) => {
                self.state = ClientState::Responding(handler);
                Ok(turn)
            },
            Err(error) => Err(ClientError::Route(error)),
        }
    }

    /// Notes that what was wanted sent was handed to the socket.
    pub fn submitted(&mut self)
        requires
            old(self).wf(),
        ensures
            final(self)@ == match old(self)@ {
                ClientView::Responding(handler) => ClientView::Responding(
                    handler_submitted(handler),
                ),
                other => other,
            },
            final(self).wf(),
    {
        match &mut self.state {
            ClientState::Receiving(_) => {},
            ClientState::Responding(handler) => handler.submitted(),
        }
    }

    /// Deregisters the program of a connection that is to be closed.
    pub fn close_connection(&self, waker: ProgramWaker, runtime: &mut RuntimeInner)
        requires
            waker.program() matches Some(id) ==> old(runtime)@.storage.programs.contains_key(id),
        ensures
            final(runtime)@ == closed_for(old(runtime)@, waker),
    {
        match waker.id() {
            Some(id) => {
                let _ = runtime.deregister(id);
            },
            None => {},
        }
    }
}

/// As long as its request is not complete, a client is asked for more, and
/// what it sends is kept in order.
pub proof fn law_requests_are_collected(buf: Seq<u8>, result: i32, data: Vec<u8>)
    requires
        result != 0 && result != -1,
    ensures
        request_head(buf + data@, MAX_HEADERS as nat) == Ok::<Option<HeadView>, ()>(None)
            ==> client_step(
            ClientView::Receiving(buf),
            RouteEvent::Received { result, buf: data },
        ) == (
            ClientView::Receiving(buf + data@),
            Ok::<RouteTurnView, ClientError>(RouteTurnView::Recv(REQUEST_READ as nat)),
        ),
{
}

/// Whatever is sent to a client is the last word: once it was handed to the
/// socket, the connection is to be closed.
pub proof fn law_answered_clients_are_closed(v: ClientView, event: RouteEvent, later: RouteEvent)
    ensures
        ({
            let (next, result) = client_step(v, event);
            result is Ok && result->Ok_0 is Send ==> {
                &&& next is Responding
                &&& client_step(
                    ClientView::Responding(handler_submitted(next->Responding_0)),
                    later,
                ).1 == Ok::<RouteTurnView, ClientError>(RouteTurnView::Complete)
            }
        }),
{
}

/// Once the head of its request is complete, a client is answered by the handler
/// for the request that was sent, which has all bytes that arrived, and is asked
/// for what that wants first.
pub proof fn law_complete_requests_are_answered(
    buf: Seq<u8>,
    result: i32,
    data: Vec<u8>,
    head: HeadView,
)
    requires
        result != 0 && result != -1,
        head.method is Some,
        head.path is Some,
        head.version is Some,
        forall|i: int| 0 <= i < head.headers.len() ==> (#[trigger] head.headers[i]).0.len() > 0,
    ensures
        request_head(buf + data@, 64) == Ok::<Option<HeadView>, ()>(Some(head)) ==> {
            let request = RequestView {
                method: head.method->0,
                path: head.path->0,
                version: head.version->0,
                headers: head.headers,
                buf: buf + data@,
                body_offset: head.body_offset,
            };
            let (handler, turn) = handler_step(handler_for(request), RouteEvent::Nothing);
            turn is Ok ==> client_step(
                ClientView::Receiving(buf),
                RouteEvent::Received { result, buf: data },
            ) == (
                ClientView::Responding(handler),
                Ok::<RouteTurnView, ClientError>(turn->Ok_0),
            )
        },
{
    law_requests_are_what_was_sent(buf + data@, head);
}

/// A client that has sent nothing is asked for 64 bytes of its request, one that is
/// gone is closed, and one whose request cannot be parsed is an error.
pub proof fn law_clients_without_requests(buf: Seq<u8>, result: i32, data: Vec<u8>)
    ensures
        request_head(buf, 64) == Ok::<Option<HeadView>, ()>(None) ==> client_step(
            ClientView::Receiving(buf),
            RouteEvent::Nothing,
        ) == (
            ClientView::Receiving(buf),
            Ok::<RouteTurnView, ClientError>(RouteTurnView::Recv(64)),
        ),
        result != 0 && result != -1 && request_head(buf + data@, 64) == Ok::<Option<HeadView>, ()>(
            None,
        ) ==> client_step(
            ClientView::Receiving(buf),
            RouteEvent::Received { result, buf: data },
        ) == (
            ClientView::Receiving(buf + data@),
            Ok::<RouteTurnView, ClientError>(RouteTurnView::Recv(64)),
        ),
        result == 0 || result == -1 ==> client_step(
            ClientView::Receiving(buf),
            RouteEvent::Received { result, buf: data },
        ) == (
            ClientView::Receiving(buf),
            Ok::<RouteTurnView, ClientError>(RouteTurnView::Complete),
        ),
        result != 0 && result != -1 && request_head(buf + data@, 64) is Err ==> client_step(
            ClientView::Receiving(buf),
            RouteEvent::Received { result, buf: data },
        ).1 == Err::<RouteTurnView, ClientError>(ClientError::Malformed),
{
}

/// A client whose request is being answered gets what its handler wants, and the
/// handler gets all that happens.
pub proof fn law_clients_get_what_their_handlers_want(handler: HandlerView, event: RouteEvent)
    ensures
        ({
            let (next, turn) = handler_step(handler, event);
            client_step(ClientView::Responding(handler), event) == (
                ClientView::Responding(next),
                match turn {
                    Ok(turn) => Ok::<RouteTurnView, ClientError>(turn),
                    Err(error) => Err(ClientError::Route(error)),
                },
            )
        }),
{
}

/// A connection that is served has a program of its own, stored under an id that
/// was free and waiting to run behind all others, and one that is closed has none
/// any more. No other program changes.
pub proof fn law_served_connections_have_programs(v: RuntimeView, program: u64, waker: ProgramWaker)
    requires
        v.queue.items.len() < v.queue.capacity,
        0 <= next_id(v.storage) <= usize::MAX,
    ensures
        ({
            let id = next_id(v.storage) as usize;
            let after = served(v, program);
            &&& after.storage.programs == v.storage.programs.insert(id, Some(program))
            &&& after.queue.items == v.queue.items.push(id)
            &&& after.queue.capacity == v.queue.capacity
        }),
        waker.program() matches Some(id) ==> {
            &&& closed_for(v, waker).storage.programs == v.storage.programs.remove(id)
            &&& closed_for(v, waker).queue == v.queue
        },
        waker.program() is None ==> closed_for(v, waker) == v,
{
}

} // verus!
