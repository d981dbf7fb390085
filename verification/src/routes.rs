//! Routes: which program answers a request, and how it does.

use vstd::prelude::*;
use vstd::utf8::encode_utf8;

use crate::bytes::append_bytes;
use crate::multipart::{answer, fresh_body, parses, prepared, steps_to, still_counts, turn_view, BodyEvent, BodyTurn, BodyTurnView, BodyView, MultipartBodyProgram};
use crate::multipart_laws::{decides_by, law_routers_keep_to_their_routing, lemma_prepared_keeps_asked, parse_by};
use crate::parser::{all_received, parser_wf, part_views, MultipartError, ParseEnd};
use crate::parser_laws::Routing;
use crate::parts::{contains_str, DispositionView, MultipartPart, PartDisposition, PartHeaders, PartHeadersView, PartRouter, PartView};
use crate::request::{chunked_body, content_type_in, header_views, length_of_body, ContentType, ContentTypeView, OwnedRequest, RequestView};
use crate::response::{encode_http1_response_head, head_bytes, reason_phrase, Response, BAD_REQUEST, METHOD_NOT_ALLOWED, NOT_FOUND, OK};
use crate::seqs::{lemma_until_is, until};
use crate::text::{chars_of, contains_text, decimal, decimal_bytes, filled, filled_of, is_text, split_at_char, split_chars, string_of, texts, trim_whitespace, trimmed};

verus! {

/// What happened since the last step of a route handler.
pub enum RouteEvent {
    /// Nothing that the handler asked for.
    Nothing,
    /// The socket received: its result, and the bytes of the buffer.
    Received { result: i32, buf: Vec<u8> },
    /// The work on a file was done.
    FileDone,
    /// The work on a file failed.
    FileFailed,
    /// The JSON parts of the body were deserialized, or could not be.
    Deserialized(bool),
}

/// What a route handler wants done before its next step.
pub enum RouteTurn {
    /// Nothing: the request is answered.
    Complete,
    /// As many bytes received at most.
    Recv(usize),
    /// A new file at this path.
    CreateFile(String),
    /// These bytes at the end of the file.
    WriteFile(Vec<u8>),
    /// The file flushed.
    FlushFile,
    /// The JSON parts of the body deserialized.
    Deserialize,
    /// These bytes sent. Where `required`, it is an error if they cannot be
    /// handed to the socket.
    Send { bytes: Vec<u8>, required: bool },
}

/// [`RouteTurn`], with texts as their characters.
pub enum RouteTurnView {
    Complete,
    Recv(nat),
    CreateFile(Seq<char>),
    WriteFile(Seq<u8>),
    FlushFile,
    Deserialize,
    Send { bytes: Seq<u8>, required: bool },
}

impl View for RouteTurn {
    type V = RouteTurnView;

    open spec fn view(&self) -> RouteTurnView {
        match self {
            RouteTurn::Complete => RouteTurnView::Complete,
            RouteTurn::Recv(len) => RouteTurnView::Recv(*len as nat),
            RouteTurn::CreateFile(path) => RouteTurnView::CreateFile(path@),
            RouteTurn::WriteFile(data) => RouteTurnView::WriteFile(data@),
            RouteTurn::FlushFile => RouteTurnView::FlushFile,
            RouteTurn::Deserialize => RouteTurnView::Deserialize,
            RouteTurn::Send { bytes, required } => RouteTurnView::Send {
                bytes: bytes@,
                required: *required,
            },
        }
    }
}

/// Why a route handler gives up.
#[derive(Debug, Clone, Copy, PartialEq, Eq, Structural)]
pub enum RouteError {
    /// A JSON part of the body could not be deserialized.
    NotDeserialized,
}

/// A result, with the view of what it holds.
pub open spec fn route_view(result: Result<RouteTurn, RouteError>) -> Result<
    RouteTurnView,
    RouteError,
> {
    match result {
        Ok(turn) => Ok(turn@),
        Err(error) => Err(error),
    }
}

/// The headers of the answer to a health check.
pub open spec fn health_headers() -> Seq<(Seq<char>, Seq<u8>)> {
    seq![
        ("content-type"@, encode_utf8("text/plain"@)),
        ("content-length"@, decimal(encode_utf8("running"@).len())),
    ]
}

/// The answer to a health check.
pub open spec fn health_response() -> Seq<u8> {
    head_bytes(OK, reason_phrase(OK), health_headers()) + encode_utf8("running"@)
}

/// An answer that is only a status.
pub open spec fn status_response(status: u16) -> Seq<u8> {
    head_bytes(status, reason_phrase(status), Seq::empty())
}

/// The turn of a program that only sends: it sends, and once that was handed
/// to the socket it is done.
pub open spec fn sending_turn(sending: bool, bytes: Seq<u8>) -> RouteTurnView {
    if sending {
        RouteTurnView::Complete
    } else {
        RouteTurnView::Send { bytes, required: true }
    }
}

/// Answers a health check.
pub struct HealthCheckProgram {
    sending: bool,
}

impl HealthCheckProgram {
    /// The answer was handed to the socket.
    pub closed spec fn sending(&self) -> bool {
        self.sending
    }

    pub fn new() -> (program: Self)
        ensures
            !program.sending(),
    {
        HealthCheckProgram { sending: false }
    }

    pub fn step(&self) -> (turn: RouteTurn)
        ensures
            turn@ == sending_turn(self.sending(), health_response()),
    {
        if self.sending {
            return RouteTurn::Complete;
        }
        let body = "running".as_bytes();
        let mut headers: Vec<(String, Vec<u8>)> = Vec::new();
        let plain = vstd::slice::slice_to_vec("text/plain".as_bytes());
        headers.push((string_from("content-type"), plain));
        headers.push((string_from("content-length"), decimal_bytes(body.len() as u64)));
        let response = Response { status: OK, headers };
        assert(header_views(response.headers@) =~= health_headers());
        let mut bytes: Vec<u8> = Vec::new();
        encode_http1_response_head(&response, &mut bytes);
        append_bytes(&mut bytes, body);
        assert(bytes@ =~= health_response());
        RouteTurn::Send { bytes, required: true }
    }

    /// Notes that the answer was handed to the socket.
    pub fn submitted(&mut self)
        ensures
            final(self).sending(),
    {
        self.sending = true;
    }
}

/// An owned copy of a text.
pub fn string_from(text: &str) -> (s: String)
    ensures
        s@ == text@,
{
    let chars = chars_of(text);
    string_of(chars.as_slice())
}

/// Answers with a status only.
pub struct HttpErrorProgram {
    status: u16,
    sending: bool,
}

impl HttpErrorProgram {
    /// The status that is answered.
    pub closed spec fn status(&self) -> u16 {
        self.status
    }

    /// The answer was handed to the socket.
    pub closed spec fn sending(&self) -> bool {
        self.sending
    }

    pub fn new(status: u16) -> (program: Self)
        ensures
            program.status() == status,
            !program.sending(),
    {
        HttpErrorProgram { status, sending: false }
    }

    /// The answer.
    fn response(&self) -> (bytes: Vec<u8>)
        ensures
            bytes@ == status_response(self.status()),
    {
        let response = Response { status: self.status, headers: Vec::new() };
        assert(header_views(response.headers@) =~= Seq::empty());
        let mut bytes: Vec<u8> = Vec::new();
        encode_http1_response_head(&response, &mut bytes);
        assert(bytes@ =~= status_response(self.status()));
        bytes
    }

    pub fn step(&self) -> (turn: RouteTurn)
        ensures
            turn@ == sending_turn(self.sending(), status_response(self.status())),
    {
        if self.sending {
            RouteTurn::Complete
        } else {
            RouteTurn::Send { bytes: self.response(), required: true }
        }
    }

    /// Notes that the answer was handed to the socket.
    pub fn submitted(&mut self)
        ensures
            final(self).sending(),
            final(self).status() == old(self).status(),
    {
        self.sending = true;
    }
}

/// How the parts of an upload are consumed: JSON is kept in memory, files are
/// written to the directory for temporary files, and all else is discarded.
pub open spec fn embed_choice(headers: PartHeadersView) -> DispositionView {
    if headers.content_type matches Some(content_type) && contains_text(content_type, "json"@) {
        DispositionView::Buffer
    } else {
        match headers.filename {
            Some(name) => DispositionView::StreamToFile("/tmp/"@ + name),
            None => DispositionView::Discard,
        }
    }
}

/// The routing of the parts of an upload, which is by their headers alone.
pub open spec fn embed_routing() -> Routing {
    |before: Seq<PartView>, headers: PartHeadersView| embed_choice(headers)
}

/// Routes the parts of an upload.
pub struct EmbedRouter;

impl PartRouter for EmbedRouter {
    open spec fn ready(&self) -> bool {
        true
    }

    open spec fn routes(
        &self,
        headers: PartHeadersView,
        disposition: DispositionView,
        after: Self,
    ) -> bool {
        disposition == embed_choice(headers)
    }

    fn route(&mut self, headers: &PartHeaders) -> (disposition: PartDisposition) {
        match &headers.content_type {
            Some(content_type) => {
                if contains_str(content_type.as_str(), "json") {
                    return PartDisposition::Buffer;
                }
            },
            None => {},
        }
        match &headers.filename {
            Some(name) => {
                let mut path = string_from("/tmp/");
                path.append(name.as_str());
                PartDisposition::StreamToFile(path)
            },
            None => PartDisposition::Discard,
        }
    }
}

/// The body of an upload after a step, and what it answers.
pub open spec fn upload_step(b: BodyView, event: BodyEvent) -> (
    BodyView,
    Result<BodyTurnView, MultipartError>,
) {
    match prepared(b, event) {
        (ready, Some(error)) => (ready, Err(error)),
        (ready, None) => {
            let (parser, end) = parse_by(ready.parser, embed_routing());
            let next = BodyView { parser, ..ready };
            (next, answer(next, end))
        },
    }
}

/// An upload, mathematically.
pub enum EmbedView {
    /// The body is being received.
    Receiving(BodyView),
    /// A status is being answered; `sending` once it was handed to the socket.
    Responding { status: u16, sending: bool },
}

/// The upload that a request begins.
pub open spec fn fresh_embed(request: RequestView) -> EmbedView {
    let chunked = chunked_body(request.headers);
    let length = length_of_body(request.headers);
    match content_type_in(request.headers) {
        Ok(ContentTypeView::MultiPart(boundary)) if !(chunked && length is Some) =>
            EmbedView::Receiving(
            fresh_body(
                chunked,
                length,
                boundary,
                request.buf.skip(request.body_offset as int),
            ),
        ),
        _ => EmbedView::Responding { status: BAD_REQUEST, sending: false },
    }
}

/// What the body wants done, as the upload asks for it.
pub open spec fn body_turn(turn: BodyTurnView) -> RouteTurnView {
    match turn {
        BodyTurnView::Complete => RouteTurnView::Deserialize,
        BodyTurnView::Recv(len) => RouteTurnView::Recv(len),
        BodyTurnView::CreateFile(path) => RouteTurnView::CreateFile(path),
        BodyTurnView::WriteFile(data) => RouteTurnView::WriteFile(data),
        BodyTurnView::FlushFile => RouteTurnView::FlushFile,
    }
}

/// Answers with `status` from now on, whether or not the first try succeeds.
pub open spec fn raised(status: u16) -> (EmbedView, Result<RouteTurnView, RouteError>) {
    (
        EmbedView::Responding { status, sending: false },
        Ok(RouteTurnView::Send { bytes: status_response(status), required: false }),
    )
}

/// What happened to the body.
pub open spec fn body_event(event: RouteEvent) -> BodyEvent {
    match event {
        RouteEvent::Received { result, buf } => BodyEvent::Received { result, buf },
        RouteEvent::FileDone => BodyEvent::FileDone,
        RouteEvent::FileFailed => BodyEvent::FileFailed,
        _ => BodyEvent::Nothing,
    }
}

/// The upload after a step, and what it answers. That parts were deserialized
/// counts only once all of them are received.
pub open spec fn embed_step(v: EmbedView, event: RouteEvent) -> (
    EmbedView,
    Result<RouteTurnView, RouteError>,
) {
    match v {
        EmbedView::Responding { status, sending } => (
            v,
            Ok(sending_turn(sending, status_response(status))),
        ),
        EmbedView::Receiving(body) => match event {
            RouteEvent::Deserialized(ok) if all_received(body.parser) => if ok {
                raised(OK)
            } else {
                (v, Err(RouteError::NotDeserialized))
            },
            _ => match upload_step(body, body_event(event)) {
                (next, Ok(turn)) => (EmbedView::Receiving(next), Ok(body_turn(turn))),
                (_, Err(_)) => raised(BAD_REQUEST),
            },
        },
    }
}

/// The upload once what it wanted sent was handed to the socket.
pub open spec fn embed_submitted(v: EmbedView) -> EmbedView {
    match v {
        EmbedView::Receiving(_) => v,
        EmbedView::Responding { status, .. } => EmbedView::Responding { status, sending: true },
    }
}

enum EmbedState {
    ReceivingBody(MultipartBodyProgram<EmbedRouter>),
    Responding(HttpErrorProgram),
}

/// Receives an upload and answers it.
pub struct EmbedFileProgram {
    id: String,
    state: EmbedState,
}

impl View for EmbedFileProgram {
    type V = EmbedView;

    closed spec fn view(&self) -> EmbedView {
        match self.state {
            EmbedState::ReceivingBody(body) => EmbedView::Receiving(body@),
            EmbedState::Responding(program) => EmbedView::Responding {
                status: program.status(),
                sending: program.sending(),
            },
        }
    }
}

impl EmbedFileProgram {
    /// What the upload is for.
    pub closed spec fn id_text(&self) -> Seq<char> {
        self.id@
    }

    /// The upload is in order.
    pub open spec fn wf(&self) -> bool {
        self@ matches EmbedView::Receiving(body) ==> parser_wf(body.parser)
    }

    /// The program for an upload.
    pub fn new(req: OwnedRequest, id: String) -> (program: Self)
        requires
            fresh_embed(req@) is Receiving ==> req.wf(),
        ensures
            program@ == fresh_embed(req@),
            program.id_text() == id@,
            program.wf(),
    {
        let boundary = match req.content_type() {
            Ok(ContentType::MultiPart(boundary)) => boundary,
            _ => {
                let refusal = EmbedState::Responding(HttpErrorProgram::new(BAD_REQUEST));
                return EmbedFileProgram { id, state: refusal };
            },
        };
        let chunked = req.is_chunked();
        let content_length = req.content_length();
        if chunked && content_length.is_some() {
            let refusal = EmbedState::Responding(HttpErrorProgram::new(BAD_REQUEST));
            return EmbedFileProgram { id, state: refusal };
        }
        let mut buf = req.buf;
        let body_buf = buf.split_off(req.body_offset);
        assert(body_buf@ =~= req.buf@.skip(req.body_offset as int));
        let body = MultipartBodyProgram::new(
            chunked,
            content_length,
            boundary.as_str(),
            body_buf,
            EmbedRouter,
        );
        EmbedFileProgram { id, state: EmbedState::ReceivingBody(body) }
    }

    /// What the upload is for.
    pub fn id(&self) -> (id: &str)
        ensures
            id@ == self.id_text(),
    {
        self.id.as_str()
    }

    /// The parts received so far; none once the upload is being answered.
    pub fn parts(&self) -> (parts: Option<&[MultipartPart]>)
        ensures
            match self@ {
                EmbedView::Receiving(body) => parts is Some && part_views(parts->0@)
                    == body.parser.parts,
                _ => parts is None,
            },
    {
        match &self.state {
            EmbedState::ReceivingBody(body) => Some(body.parts()),
            EmbedState::Responding(_) => None,
        }
    }

    /// Whether the result of the socket still counts.
    pub fn can_step(&self, event: &RouteEvent) -> (yes: bool)
        ensures
            yes == embed_counts(self@, *event),
    {
        match &self.state {
            EmbedState::ReceivingBody(body) => match event {
                RouteEvent::Received { result, .. } => {
                    let received = BodyEvent::Received { result: *result, buf: Vec::new() };
                    body.can_step(&received)
                },
                _ => true,
            },
            EmbedState::Responding(_) => true,
        }
    }

    /// Answers with `status` from now on, whether or not the first try succeeds.
    fn raise_http_error(&mut self, status: u16) -> (turn: RouteTurn)
        ensures
            raised(status) == (final(self)@, Ok::<RouteTurnView, RouteError>(turn@)),
            final(self).id_text() == old(self).id_text(),
    {
        let program = HttpErrorProgram::new(status);
        let bytes = program.response();
        self.state = EmbedState::Responding(program);
        RouteTurn::Send { bytes, required: false }
    }

    /// Goes on after `event`, until something is needed from the outside.
    pub fn step(&mut self, event: RouteEvent) -> (result: Result<RouteTurn, RouteError>)
        requires
            old(self).wf(),
            embed_counts(old(self)@, event),
        ensures
            embed_step(old(self)@, event) == (final(self)@, route_view(result)),
            final(self).id_text() == old(self).id_text(),
            final(self).wf(),
    {
        let event = match event {
            RouteEvent::Deserialized(ok) => {
                let received = match &self.state {
                    EmbedState::Responding(_) => false,
                    EmbedState::ReceivingBody(body) => body.is_received(),
                };
                if received {
                    if !ok {
                        return Err(RouteError::NotDeserialized);
                    }
                    return Ok(self.raise_http_error(OK));
                }
                BodyEvent::Nothing
            },
            RouteEvent::Nothing => BodyEvent::Nothing,
            RouteEvent::Received { result, buf } => BodyEvent::Received { result, buf },
            RouteEvent::FileDone => BodyEvent::FileDone,
            RouteEvent::FileFailed => BodyEvent::FileFailed,
        };
        let ghost happened = event;
        let outcome = match &mut self.state {
            EmbedState::Responding(program) => {
                return Ok(program.step());
            },
            EmbedState::ReceivingBody(body) => {
                let ghost before = *body;
                let outcome = body.step(event);
                proof {
                    lemma_upload_step(before, happened, *body, outcome);
                }
                outcome
            },
        };
        match outcome {
            Ok(BodyTurn::Complete) => Ok(RouteTurn::Deserialize),
            Ok(BodyTurn::Recv(len)) => Ok(RouteTurn::Recv(len)),
            Ok(BodyTurn::CreateFile(path)) => Ok(RouteTurn::CreateFile(path)),
            Ok(BodyTurn::WriteFile(data)) => Ok(RouteTurn::WriteFile(data)),
            Ok(BodyTurn::FlushFile) => Ok(RouteTurn::FlushFile),
            Err(_) => Ok(self.raise_http_error(BAD_REQUEST)),
        }
    }

    /// Notes that what was wanted sent was handed to the socket.
    pub fn submitted(&mut self)
        ensures
            final(self)@ == embed_submitted(old(self)@),
            final(self).id_text() == old(self).id_text(),
    {
        match &mut self.state {
            EmbedState::ReceivingBody(_) => {},
            EmbedState::Responding(program) => {
                program.submitted();
            },
        }
    }
}

/// The result of the socket still counts.
pub open spec fn embed_counts(v: EmbedView, event: RouteEvent) -> bool {
    v matches EmbedView::Receiving(body) ==> still_counts(body, body_event(event))
}

/// A step of the body is the step of an upload.
proof fn lemma_upload_step(
    before: MultipartBodyProgram<EmbedRouter>,
    event: BodyEvent,
    after: MultipartBodyProgram<EmbedRouter>,
    outcome: Result<BodyTurn, MultipartError>,
)
    requires
        parser_wf(before@.parser),
        steps_to(
            prepared(before@, event),
            before.router(),
            after@,
            after.router(),
            turn_view(outcome),
        ),
    ensures
        upload_step(before@, event) == (after@, turn_view(outcome)),
{
    let (ready, error) = prepared(before@, event);
    if error is None {
        let (choices, end) = choose|choices: Seq<(DispositionView, EmbedRouter)>, end: ParseEnd|
            #[trigger] parses(
                ready.parser,
                before.router(),
                choices,
                after@.parser,
                after.router(),
                end,
            ) && turn_view(outcome) == answer(after@, end);
        let known = |router: EmbedRouter, asked: Seq<PartHeadersView>| true;
        assert(decides_by::<EmbedRouter>(embed_routing(), known));
        lemma_prepared_keeps_asked(before@, event);
        law_routers_keep_to_their_routing(
            ready.parser,
            before.router(),
            choices,
            after@.parser,
            after.router(),
            end,
            embed_routing(),
            known,
        );
    }
}

/// The program that answers a request.
pub enum RouteHandler {
    HealthCheck(HealthCheckProgram),
    HttpError(HttpErrorProgram),
    Embed(EmbedFileProgram),
}

/// [`RouteHandler`], mathematically.
pub enum HandlerView {
    HealthCheck { sending: bool },
    HttpError { status: u16, sending: bool },
    Embed { upload: EmbedView, id: Seq<char> },
}

impl View for RouteHandler {
    type V = HandlerView;

    open spec fn view(&self) -> HandlerView {
        match self {
            RouteHandler::HealthCheck(program) => HandlerView::HealthCheck {
                sending: program.sending(),
            },
            RouteHandler::HttpError(program) => HandlerView::HttpError {
                status: program.status(),
                sending: program.sending(),
            },
            RouteHandler::Embed(program) => HandlerView::Embed {
                upload: program@,
                id: program.id_text(),
            },
        }
    }
}

/// The handler after a step, and what it answers.
pub open spec fn handler_step(v: HandlerView, event: RouteEvent) -> (
    HandlerView,
    Result<RouteTurnView, RouteError>,
) {
    match v {
        HandlerView::HealthCheck { sending } => (
            v,
            Ok(sending_turn(sending, health_response())),
        ),
        HandlerView::HttpError { status, sending } => (
            v,
            Ok(sending_turn(sending, status_response(status))),
        ),
        HandlerView::Embed { upload, id } => {
            let (next, result) = embed_step(upload, event);
            (HandlerView::Embed { upload: next, id }, result)
        },
    }
}

/// The handler once what it wanted sent was handed to the socket.
pub open spec fn handler_submitted(v: HandlerView) -> HandlerView {
    match v {
        HandlerView::HealthCheck { .. } => HandlerView::HealthCheck { sending: true },
        HandlerView::HttpError { status, .. } => HandlerView::HttpError { status, sending: true },
        HandlerView::Embed { upload, id } => HandlerView::Embed {
            upload: embed_submitted(upload),
            id,
        },
    }
}

/// The result of the socket still counts.
pub open spec fn handler_counts(v: HandlerView, event: RouteEvent) -> bool {
    v matches HandlerView::Embed { upload, .. } ==> embed_counts(upload, event)
}

impl RouteHandler {
    /// The handler is in order.
    pub open spec fn wf(&self) -> bool {
        self matches RouteHandler::Embed(program) ==> program.wf()
    }

    pub fn health_check() -> (handler: Self)
        ensures
            handler@ == (HandlerView::HealthCheck { sending: false }),
            handler.wf(),
    {
        RouteHandler::HealthCheck(HealthCheckProgram::new())
    }

    pub fn http_error(status: u16) -> (handler: Self)
        ensures
            handler@ == (HandlerView::HttpError { status, sending: false }),
            handler.wf(),
    {
        RouteHandler::HttpError(HttpErrorProgram::new(status))
    }

    pub fn db_post(req: OwnedRequest, id: String) -> (handler: Self)
        requires
            fresh_embed(req@) is Receiving ==> req.wf(),
        ensures
            handler@ == (HandlerView::Embed { upload: fresh_embed(req@), id: id@ }),
            handler.wf(),
    {
        RouteHandler::Embed(EmbedFileProgram::new(req, id))
    }

    /// Whether the result of the socket still counts.
    pub fn can_step(&self, event: &RouteEvent) -> (yes: bool)
        ensures
            yes == handler_counts(self@, *event),
    {
        match self {
            RouteHandler::Embed(program) => program.can_step(event),
            _ => true,
        }
    }

    /// Goes on after `event`, until something is needed from the outside.
    pub fn step(&mut self, event: RouteEvent) -> (result: Result<RouteTurn, RouteError>)
        requires
            old(self).wf(),
            handler_counts(old(self)@, event),
        ensures
            handler_step(old(self)@, event) == (final(self)@, route_view(result)),
            final(self).wf(),
    {
        match self {
            RouteHandler::HealthCheck(program) => Ok(program.step()),
            RouteHandler::HttpError(program) => Ok(program.step()),
            RouteHandler::Embed(program) => program.step(event),
        }
    }

    /// Notes that what was wanted sent was handed to the socket.
    pub fn submitted(&mut self)
        requires
            old(self).wf(),
        ensures
            final(self)@ == handler_submitted(old(self)@),
            final(self).wf(),
    {
        match self {
            RouteHandler::HealthCheck(program) => program.submitted(),
            RouteHandler::HttpError(program) => program.submitted(),
            RouteHandler::Embed(program) => program.submitted(),
        }
    }
}

/// Tells the characters that begin a query or a fragment from all others.
pub open spec fn begins_tail() -> spec_fn(char) -> bool {
    |c: char| c == '?' || c == '#'
}

/// The path of a request target, without query and fragment.
pub open spec fn path_of(target: Seq<char>) -> Seq<char> {
    let text = trimmed(target);
    text.take(until(text, begins_tail()) as int)
}

/// The segments of a path.
pub open spec fn segments(path: Seq<char>) -> Seq<Seq<char>> {
    filled(split_at_char(path, '/'))
}

/// Where a request is routed to.
pub enum Route {
    HealthCheck,
    HttpError(u16),
    DbPost(Seq<char>),
}

/// Where a request is routed to, by its method and the segments of its path.
pub open spec fn route_by(method: Seq<char>, parts: Seq<Seq<char>>) -> Route {
    if parts.len() == 0 {
        Route::HealthCheck
    } else if parts.len() == 2 && parts[0] == "db"@ {
        if method == "POST"@ {
            Route::DbPost(parts[1])
        } else if method == "GET"@ {
            Route::HealthCheck
        } else {
            Route::HttpError(METHOD_NOT_ALLOWED)
        }
    } else {
        Route::HttpError(NOT_FOUND)
    }
}

/// Where a request is routed to.
pub open spec fn route_of(method: Seq<char>, target: Seq<char>) -> Route {
    route_by(method, segments(path_of(target)))
}

/// The handler that answers a request.
pub open spec fn handler_for(request: RequestView) -> HandlerView {
    match route_of(request.method, request.path) {
        Route::HealthCheck => HandlerView::HealthCheck { sending: false },
        Route::HttpError(status) => HandlerView::HttpError { status, sending: false },
        Route::DbPost(id) => HandlerView::Embed { upload: fresh_embed(request), id },
    }
}

/// A request is for an upload that is accepted.
pub open spec fn opens_upload(request: RequestView) -> bool {
    route_of(request.method, request.path) is DbPost && fresh_embed(request) is Receiving
}

/// Cuts query and fragment off.
fn cut_tail(text: &[char]) -> (path: &[char])
    ensures
        path@ == text@.take(until(text@, begins_tail()) as int),
{
    let mut at: usize = 0;
    while at < text.len() && text[at] != '?' && text[at] != '#'
        invariant
            at <= text@.len(),
            forall|i: int| 0 <= i < at ==> #[trigger] text@[i] != '?' && text@[i] != '#',
        decreases text@.len() - at,
    {
        at += 1;
    }
    proof {
        lemma_until_is(text@, begins_tail(), at as nat);
    }
    let path = vstd::slice::slice_subrange(text, 0, at);
    assert(path@ =~= text@.take(at as int));
    path
}

/// Whether two texts are the same.
fn same_text(a: &str, b: &str) -> (same: bool)
    ensures
        same == (a@ == b@),
{
    let chars = chars_of(a);
    is_text(chars.as_slice(), b)
}

/// The handler that answers a request.
pub fn get_route_handler(req: OwnedRequest) -> (handler: RouteHandler)
    requires
        opens_upload(req@) ==> req.wf(),
    ensures
        handler@ == handler_for(req@),
        handler.wf(),
{
    let target = chars_of(req.path.as_str());
    let path = cut_tail(trim_whitespace(target.as_slice()));
    let pieces = split_chars(path, '/');
    let found = filled_of(&pieces);
    let ghost parts = segments(path_of(req.path@));
    assert(texts(found@) == parts);
    if found.len() == 0 {
        return RouteHandler::health_check();
    }
    assert(parts[0] == found@[0]@);
    if found.len() == 2 && is_text(found[0], "db") {
        assert(parts[1] == found@[1]@);
        if same_text(req.method.as_str(), "POST") {
            let id = string_of(found[1]);
            return RouteHandler::db_post(req, id);
        }
        if same_text(req.method.as_str(), "GET") {
            return RouteHandler::health_check();
        }
        return RouteHandler::http_error(METHOD_NOT_ALLOWED);
    }
    RouteHandler::http_error(NOT_FOUND)
}

} // verus!
