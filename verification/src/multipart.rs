//! Receiving a multipart body.

use vstd::prelude::*;

use crate::bytes::{append_bytes, crlf_crlf, lemma_find, CR, DASH, LF};
use crate::chunked::{fresh_decoder, run, Advance, ChunkedDecoder, DecoderView, RunEnd};
use crate::chunked_laws::law_decoding_settles;
use crate::parser::{all_received, begin_part, end_of, file_done, file_failed, fresh_parser, lemma_move_consumes, parse_move, parse_run, parser_wf, part_views, wait_rank, Move, MultipartError, ParseEnd, ParsePause, ParserView, PartParser, Pause};
use crate::parts::{DispositionView, MultipartPart, PartHeadersView, PartRouter};
use crate::receive::{as_count, count_of};
use crate::text::{chars_of, is_text};

verus! {

/// The most bytes that the chunks of a multipart body may decode to.
pub const MAX_DECODED: usize = 67108864;

/// The most bytes of a part that are kept in memory, unless set otherwise.
pub const DEFAULT_BUFFERED_PART: usize = 2097152;

/// The most bytes of a whole body, unless set otherwise.
pub const DEFAULT_TOTAL_BODY: u64 = 134217728;

/// The most bytes that are asked for at once.
pub const DEFAULT_READ: usize = 32768;

/// What happened since the last step of a body program.
pub enum BodyEvent {
    /// Nothing that the program asked for.
    Nothing,
    /// The socket received: its result, and the bytes of the buffer.
    Received { result: i32, buf: Vec<u8> },
    /// The work on a file was done.
    FileDone,
    /// The work on a file failed.
    FileFailed,
}

/// What a body program wants done before its next step.
pub enum BodyTurn {
    /// Nothing: the body is complete.
    Complete,
    /// As many bytes received at most.
    Recv(usize),
    /// A new file at this path.
    CreateFile(String),
    /// These bytes at the end of the file.
    WriteFile(Vec<u8>),
    /// The file flushed.
    FlushFile,
}

/// [`BodyTurn`], with texts as their characters.
pub enum BodyTurnView {
    Complete,
    Recv(nat),
    CreateFile(Seq<char>),
    WriteFile(Seq<u8>),
    FlushFile,
}

impl View for BodyTurn {
    type V = BodyTurnView;

    open spec fn view(&self) -> BodyTurnView {
        match self {
            BodyTurn::Complete => BodyTurnView::Complete,
            BodyTurn::Recv(len) => BodyTurnView::Recv(*len as nat),
            BodyTurn::CreateFile(path) => BodyTurnView::CreateFile(path@),
            BodyTurn::WriteFile(data) => BodyTurnView::WriteFile(data@),
            BodyTurn::FlushFile => BodyTurnView::FlushFile,
        }
    }
}

/// A body program, mathematically.
pub struct BodyView {
    pub chunked: bool,
    pub content_length: Option<u64>,
    /// The bytes received so far.
    pub received: nat,
    /// Bytes in the chunked encoding that are not decoded yet.
    pub raw: Seq<u8>,
    pub decoder: Option<DecoderView>,
    /// No more bytes are to come.
    pub network_done: bool,
    pub parser: ParserView,
    /// The most bytes of the whole body.
    pub max_total: nat,
}

/// The program after the socket received, and the error that ends it, if any.
pub open spec fn collected(b: BodyView, result: i32, buf: Seq<u8>) -> (
    BodyView,
    Option<MultipartError>,
) {
    if result == 0 {
        (BodyView { network_done: true, ..b }, None)
    } else if result == -1 {
        (b, Some(MultipartError::Socket))
    } else {
        let received = b.received + as_count(result);
        let counted = BodyView { received, ..b };
        if received > b.max_total {
            (counted, Some(MultipartError::BodyTooLarge { limit: b.max_total as u64 }))
        } else if b.chunked {
            (BodyView { raw: b.raw + buf, ..counted }, None)
        } else {
            (
                BodyView {
                    parser: ParserView { buf: b.parser.buf + buf, ..b.parser },
                    ..counted
                },
                None,
            )
        }
    }
}

/// The program once it was checked whether all expected bytes arrived.
pub open spec fn network_checked(b: BodyView) -> BodyView {
    if !b.chunked && (b.content_length matches Some(length) && b.received >= length) {
        BodyView { network_done: true, ..b }
    } else {
        b
    }
}

/// The program once all chunks were decoded that can be.
pub open spec fn chunks_decoded(b: BodyView) -> (BodyView, Option<MultipartError>) {
    match b.decoder {
        None => (b, None),
        Some(decoder) => {
            let r = run(decoder, b.raw);
            let next = BodyView {
                raw: r.rest,
                decoder: Some(r.decoder),
                network_done: b.network_done || r.end is Done,
                parser: ParserView { buf: b.parser.buf + r.out, ..b.parser },
                ..b
            };
            match r.end {
                RunEnd::Fail(error) => (next, Some(MultipartError::Chunk(error))),
                _ => (next, None),
            }
        },
    }
}

/// The error that ends a program whose body is too long, if it is.
pub open spec fn total_checked(b: BodyView) -> Option<MultipartError> {
    if b.received > b.max_total {
        Some(MultipartError::BodyTooLarge { limit: b.max_total as u64 })
    } else {
        None
    }
}

/// The program when it is about to parse what arrived, and the error that ends
/// it before, if any.
pub open spec fn ready_to_parse(b: BodyView) -> (BodyView, Option<MultipartError>) {
    match total_checked(b) {
        Some(error) => (b, Some(error)),
        None => chunks_decoded(network_checked(b)),
    }
}

/// The program when it is about to parse what the socket received, and the
/// error that ends it before, if any.
pub open spec fn received(b: BodyView, result: i32, data: Seq<u8>) -> (
    BodyView,
    Option<MultipartError>,
) {
    match collected(b, result, data) {
        (next, None) => ready_to_parse(next),
        (next, Some(error)) => (next, Some(error)),
    }
}

/// The program when it is about to parse, and the error that ends it before, if any.
pub open spec fn prepared(b: BodyView, event: BodyEvent) -> (BodyView, Option<MultipartError>) {
    match event {
        BodyEvent::Nothing => ready_to_parse(b),
        BodyEvent::Received { result, buf } => received(b, result, buf@),
        BodyEvent::FileDone => match total_checked(b) {
            Some(error) => (b, Some(error)),
            None => match file_done(b.parser) {
                Move::Next(parser) => (BodyView { parser, ..b }, None),
                Move::Stop(parser, _) => (BodyView { parser, ..b }, None),
                Move::Fail(parser, error) => (BodyView { parser, ..b }, Some(error)),
            },
        },
        BodyEvent::FileFailed => {
            let (parser, error) = file_failed(b.parser);
            (BodyView { parser, ..b }, Some(error))
        },
    }
}

/// The result of the socket still counts.
pub open spec fn still_counts(b: BodyView, event: BodyEvent) -> bool {
    event matches BodyEvent::Received { result, .. } ==> result == 0 || result == -1 || b.received
        + as_count(result) <= u64::MAX
}

/// From `p`, with `router` asked for each part, and `choices` what it chose
/// and what it was from then on, the parser comes to `q`, `after` and `end`.
pub open spec fn parses<R: PartRouter>(
    p: ParserView,
    router: R,
    choices: Seq<(DispositionView, R)>,
    q: ParserView,
    after: R,
    end: ParseEnd,
) -> bool
    decreases choices.len(),
{
    let (halted, halt) = parse_run(p);
    match halt {
        ParseEnd::Stop(Pause::Route(headers)) => {
            &&& choices.len() > 0
            &&& router.routes(headers, choices[0].0, choices[0].1)
            &&& parses(
                begin_part(halted, headers, choices[0].0),
                choices[0].1,
                choices.skip(1),
                q,
                after,
                end,
            )
        },
        _ => choices.len() == 0 && q == halted && after == router && end == halt,
    }
}

/// Whether a program that was made ready to parse, with `router` asked for
/// each part, may come to `next`, `after` and `turn`. Where the program ended
/// before, it is as it was left.
pub open spec fn steps_to<R: PartRouter>(
    ready: (BodyView, Option<MultipartError>),
    router: R,
    next: BodyView,
    after: R,
    turn: Result<BodyTurnView, MultipartError>,
) -> bool {
    match ready.1 {
        Some(error) => next == ready.0 && after == router && turn == Err::<
            BodyTurnView,
            MultipartError,
        >(error),
        None => {
            &&& next == (BodyView { parser: next.parser, ..ready.0 })
            &&& exists|choices: Seq<(DispositionView, R)>, end: ParseEnd| #[trigger]
                parses(ready.0.parser, router, choices, next.parser, after, end) && turn == answer(
                    next,
                    end,
                )
        },
    }
}

/// The most bytes to receive next.
pub open spec fn read_size(b: BodyView) -> nat {
    match b.content_length {
        Some(length) if !b.chunked => {
            let left = (length as nat - b.received) as int;
            if left < 0 {
                0
            } else if left < DEFAULT_READ {
                left as nat
            } else {
                DEFAULT_READ as nat
            }
        },
        _ => DEFAULT_READ as nat,
    }
}

/// What the program answers once its parser came to `end`.
pub open spec fn answer(b: BodyView, end: ParseEnd) -> Result<BodyTurnView, MultipartError> {
    match end {
        ParseEnd::Fail(error) => Err(error),
        ParseEnd::Stop(pause) => match pause {
            Pause::Create(path) => Ok(BodyTurnView::CreateFile(path)),
            Pause::Write(data) => Ok(BodyTurnView::WriteFile(data)),
            Pause::Flush => Ok(BodyTurnView::FlushFile),
            Pause::Done => Ok(BodyTurnView::Complete),
            _ => if b.network_done {
                Err(MultipartError::Truncated)
            } else {
                Ok(BodyTurnView::Recv(read_size(b)))
            },
        },
    }
}

/// A result, with the view of what it holds.
pub open spec fn turn_view(result: Result<BodyTurn, MultipartError>) -> Result<
    BodyTurnView,
    MultipartError,
> {
    match result {
        Ok(turn) => Ok(turn@),
        Err(error) => Err(error),
    }
}

/// The delimiter that is searched for: the line end and the dashes that stand
/// in front of a boundary, and the boundary.
pub open spec fn delimiter_of(boundary: Seq<char>) -> Seq<u8> {
    seq![CR, LF, DASH, DASH] + vstd::utf8::encode_utf8(boundary)
}

/// A program that has received nothing but `initial`. In a body that comes in
/// chunks, that is still to be decoded.
pub open spec fn fresh_body(
    chunked: bool,
    content_length: Option<u64>,
    boundary: Seq<char>,
    initial: Seq<u8>,
) -> BodyView {
    BodyView {
        chunked,
        content_length,
        received: initial.len(),
        raw: if chunked {
            initial
        } else {
            Seq::empty()
        },
        decoder: if chunked {
            Some(fresh_decoder(MAX_DECODED as nat))
        } else {
            None
        },
        network_done: false,
        parser: fresh_parser(
            delimiter_of(boundary),
            seq![CR, LF] + if chunked {
                Seq::empty()
            } else {
                initial
            },
            DEFAULT_BUFFERED_PART as nat,
        ),
        max_total: DEFAULT_TOTAL_BODY as nat,
    }
}

/// A run that asks for a decision has consumed bytes.
pub proof fn lemma_route_consumes(p: ParserView)
    requires
        p.delimiter.len() > 0,
    ensures
        parse_run(p).0.buf.len() <= p.buf.len(),
        parse_run(p).1 matches ParseEnd::Stop(Pause::Route(_)) ==> parse_run(p).0.buf.len()
            < p.buf.len(),
    decreases p.buf.len(), wait_rank(p),
{
    lemma_find(p.buf, crlf_crlf());
    lemma_find(p.buf, p.delimiter);
    lemma_move_consumes(p);
    match parse_move(p) {
        Move::Next(q) => {
            lemma_route_consumes(q);
        },
        _ => {},
    }
}

/// One more choice in front of the others.
proof fn lemma_parses_choice<R: PartRouter>(
    p: ParserView,
    router: R,
    first: (DispositionView, R),
    choices: Seq<(DispositionView, R)>,
    q: ParserView,
    after: R,
    end: ParseEnd,
    headers: PartHeadersView,
)
    requires
        parse_run(p).1 == ParseEnd::Stop(Pause::Route(headers)),
        router.routes(headers, first.0, first.1),
        parses(begin_part(parse_run(p).0, headers, first.0), first.1, choices, q, after, end),
    ensures
        parses(p, router, seq![first] + choices, q, after, end),
{
    assert((seq![first] + choices).skip(1) =~= choices);
}

/// Incrementally receives and parses a `multipart/form-data` body.
///
/// Like [`crate::receive::ReceivingBodyProgram`] this is driven by calling
/// [`step`](Self::step) in a loop until it returns [`BodyTurn::Complete`].
/// Large file parts (PDF, DOCX, ...) are streamed to disk as data arrives
/// rather than buffered in memory.
pub struct MultipartBodyProgram<R: PartRouter> {
    chunked: bool,
    content_length: Option<u64>,
    received: u64,
    raw_buf: Vec<u8>,
    chunk_dec: Option<ChunkedDecoder>,
    network_done: bool,
    parser: PartParser,
    router: R,
    max_total_body: u64,
}

impl<R: PartRouter> View for MultipartBodyProgram<R> {
    type V = BodyView;

    closed spec fn view(&self) -> BodyView {
        BodyView {
            chunked: self.chunked,
            content_length: self.content_length,
            received: self.received as nat,
            raw: self.raw_buf@,
            decoder: match self.chunk_dec {
                Some(decoder) => Some(decoder@),
                None => None,
            },
            network_done: self.network_done,
            parser: self.parser@,
            max_total: self.max_total_body as nat,
        }
    }
}

impl<R: PartRouter> MultipartBodyProgram<R> {
    /// The router that is asked for the next part.
    pub closed spec fn router(&self) -> R {
        self.router
    }

    /// The program is in order.
    pub open spec fn wf(&self) -> bool {
        &&& parser_wf(self@.parser)
        &&& self.router().ready()
    }

    /// Create a new multipart body receiver.
    ///
    /// * `boundary`: the raw boundary string extracted from the `Content-Type`
    ///   header (see [`crate::parts::extract_boundary`]).
    /// * `initial_buf`: any body bytes already read from the socket during
    ///   header parsing.
    /// * `router`: decides per part whether to buffer, stream to file, or
    ///   discard (see [`PartRouter`]).
    pub fn new(
        chunked: bool,
        content_length: Option<u64>,
        boundary: &str,
        initial_buf: Vec<u8>,
        router: R,
    ) -> (program: Self)
        requires
            router.ready(),
        ensures
            program@ == fresh_body(chunked, content_length, boundary@, initial_buf@),
            program.router() == router,
            program.wf(),
    {
        let mut delimiter: Vec<u8> = vec![CR, LF, DASH, DASH];
        append_bytes(&mut delimiter, boundary.as_bytes());
        assert(delimiter@ =~= delimiter_of(boundary@));
        let received: u64 = initial_buf.len() as u64;
        let mut parse_buf: Vec<u8> = vec![CR, LF];
        let mut raw_buf: Vec<u8> = Vec::new();
        if chunked {
            raw_buf = initial_buf;
        } else {
            append_bytes(&mut parse_buf, initial_buf.as_slice());
        }
        assert(parse_buf@ =~= seq![CR, LF] + if chunked {
            Seq::empty()
        } else {
            initial_buf@
        });
        assert(raw_buf@ =~= if chunked {
            initial_buf@
        } else {
            Seq::empty()
        });
        MultipartBodyProgram {
            chunked,
            content_length,
            received,
            raw_buf,
            chunk_dec: if chunked {
                Some(ChunkedDecoder::new(MAX_DECODED))
            } else {
                None
            },
            network_done: false,
            parser: PartParser::new(delimiter, parse_buf, DEFAULT_BUFFERED_PART),
            router,
            max_total_body: DEFAULT_TOTAL_BODY,
        }
    }

    /// Override the maximum size for a single in-memory-buffered part
    /// (default 2 MiB).
    pub fn set_max_buffered_part(&mut self, bytes: usize)
        ensures
            final(self)@ == (BodyView {
                parser: ParserView { max_buffered: bytes as nat, ..old(self)@.parser },
                ..old(self)@
            }),
            final(self).router() == old(self).router(),
    {
        self.parser.set_max_buffered(bytes);
    }

    /// Override the maximum total body size across all parts (default 128 MiB).
    pub fn set_max_total_body(&mut self, bytes: u64)
        ensures
            final(self)@ == (BodyView { max_total: bytes as nat, ..old(self)@ }),
            final(self).router() == old(self).router(),
    {
        self.max_total_body = bytes;
    }

    /// Whether all parts are received.
    pub fn is_received(&self) -> (yes: bool)
        ensures
            yes == all_received(self@.parser),
    {
        self.parser.is_received()
    }

    /// Borrow the completed parts received so far.
    pub fn parts(&self) -> (parts: &[MultipartPart])
        ensures
            part_views(parts@) == self@.parser.parts,
    {
        self.parser.parts()
    }

    /// Consume the program and return all completed parts.
    pub fn into_parts(self) -> (parts: Vec<MultipartPart>)
        ensures
            part_views(parts@) == self@.parser.parts,
    {
        self.parser.into_parts()
    }

    /// Take all completed parts, leaving none behind.
    pub fn take_parts(&mut self) -> (parts: Vec<MultipartPart>)
        ensures
            part_views(parts@) == old(self)@.parser.parts,
            final(self)@ == (BodyView {
                parser: ParserView { parts: Seq::empty(), ..old(self)@.parser },
                ..old(self)@
            }),
            final(self).router() == old(self).router(),
    {
        self.parser.take_parts()
    }

    /// Find the first completed part whose `name` matches.
    pub fn part_by_name(&self, name: &str) -> (part: Option<&MultipartPart>)
        ensures
            match part {
                Some(found) => exists|i: int|
                    0 <= i < self@.parser.parts.len() && found@ == self@.parser.parts[i]
                        && #[trigger] self@.parser.parts[i].headers.name == Some(name@) && (forall|
                        j: int,
                    |
                        0 <= j < i ==> (#[trigger] self@.parser.parts[j]).headers.name != Some(
                            name@,
                        )),
                None => forall|j: int|
                    0 <= j < self@.parser.parts.len() ==> (
                    #[trigger] self@.parser.parts[j]).headers.name != Some(name@),
            },
    {
        let parts = self.parser.parts();
        let mut i: usize = 0;
        while i < parts.len()
            invariant
                i <= parts@.len(),
                part_views(parts@) == self@.parser.parts,
                forall|j: int|
                    0 <= j < i ==> (#[trigger] self@.parser.parts[j]).headers.name != Some(name@),
            decreases parts@.len() - i,
        {
            assert(self@.parser.parts[i as int] == parts@[i as int]@);
            match &parts[i].headers.name {
                Some(found) => {
                    let chars = chars_of(found.as_str());
                    if is_text(chars.as_slice(), name) {
                        return Some(&parts[i]);
                    }
                },
                None => {},
            }
            i += 1;
        }
        None
    }

    /// Collects what the socket received.
    fn collect_recv(&mut self, result: i32, buf: Vec<u8>) -> (outcome: Result<(), MultipartError>)
        requires
            result > 0 || result < -1 ==> old(self)@.received + as_count(result) <= u64::MAX,
        ensures
            ({
                let (next, error) = collected(old(self)@, result, buf@);
                &&& final(self)@ == next
                &&& match error {
                    Some(e) => outcome == Err::<(), MultipartError>(e),
                    None => outcome is Ok,
                }
            }),
            final(self).router() == old(self).router(),
    {
        if result == 0 {
            self.network_done = true;
            return Ok(());
        }
        if result == -1 {
            return Err(MultipartError::Socket);
        }
        self.received = self.received + count_of(result);
        match self.check_total() {
            Ok(()) => {},
            Err(error) => {
                return Err(error);
            },
        }
        if self.chunked {
            append_bytes(&mut self.raw_buf, buf.as_slice());
        } else {
            self.parser.feed(buf.as_slice());
        }
        Ok(())
    }

    /// Checks that the body is not too long.
    fn check_total(&self) -> (outcome: Result<(), MultipartError>)
        ensures
            match total_checked(self@) {
                Some(error) => outcome == Err::<(), MultipartError>(error),
                None => outcome is Ok,
            },
    {
        if self.received > self.max_total_body {
            Err(MultipartError::BodyTooLarge { limit: self.max_total_body })
        } else {
            Ok(())
        }
    }

    /// Checks whether all expected bytes arrived.
    fn check_network_done(&mut self)
        ensures
            final(self)@ == network_checked(old(self)@),
            final(self).router() == old(self).router(),
    {
        if self.network_done {
            return;
        }
        if !self.chunked {
            match self.content_length {
                Some(length) => {
                    if self.received >= length {
                        self.network_done = true;
                    }
                },
                None => {},
            }
        }
    }

    /// Decodes the chunks that arrived, if the body comes in chunks.
    fn decode_chunks(&mut self) -> (outcome: Result<(), MultipartError>)
        ensures
            ({
                let (next, error) = chunks_decoded(old(self)@);
                &&& final(self)@ == next
                &&& match error {
                    Some(e) => outcome == Err::<(), MultipartError>(e),
                    None => outcome is Ok,
                }
            }),
            final(self).router() == old(self).router(),
    {
        let ghost before = self@;
        match self.chunk_dec.as_mut() {
            None => {},
            Some(decoder) => {
                proof {
                    law_decoding_settles(decoder@, self.raw_buf@);
                }
                let first = self.parser.feed_chunks(decoder, &mut self.raw_buf);
                let last = match first {
                    Ok(Advance::Progress) => {
                        let second = self.parser.feed_chunks(decoder, &mut self.raw_buf);
                        second
                    },
                    _ => first,
                };
                match last {
                    Ok(Advance::Done) => {
                        self.network_done = true;
                    },
                    Ok(_) => {},
                    Err(error) => {
                        return Err(MultipartError::Chunk(error));
                    },
                }
            },
        }
        Ok(())
    }

    /// The most bytes to receive next.
    fn next_read(&self) -> (len: usize)
        ensures
            len == read_size(self@),
    {
        if !self.chunked {
            match self.content_length {
                Some(length) => {
                    let left: u64 = length.saturating_sub(self.received);
                    if left < DEFAULT_READ as u64 {
                        left as usize
                    } else {
                        DEFAULT_READ
                    }
                },
                None => DEFAULT_READ,
            }
        } else {
            DEFAULT_READ
        }
    }

    /// Parses what arrived, and asks the router for each new part.
    fn parse(&mut self) -> (result: Result<ParsePause, MultipartError>)
        requires
            old(self).wf(),
        ensures
            exists|choices: Seq<(DispositionView, R)>|
                parses(
                    old(self)@.parser,
                    old(self).router(),
                    choices,
                    final(self)@.parser,
                    final(self).router(),
                    end_of(result),
                ),
            !(end_of(result) matches ParseEnd::Stop(Pause::Route(_))),
            final(self)@ == (BodyView { parser: final(self)@.parser, ..old(self)@ }),
            final(self).wf(),
    {
        let ghost start = self@.parser;
        let ghost asked = self.router;
        let ghost mut made = Seq::<(DispositionView, R)>::empty();
        assert forall|rest: Seq<(DispositionView, R)>, q: ParserView, after: R, end: ParseEnd|
            parses(start, asked, rest, q, after, end) implies #[trigger] parses(
            start,
            asked,
            made + rest,
            q,
            after,
            end,
        ) by {
            assert(made + rest =~= rest);
        }
        loop
            invariant
                self.wf(),
                self@ == (BodyView { parser: self@.parser, ..old(self)@ }),
                start == old(self)@.parser,
                asked == old(self).router(),
                forall|rest: Seq<(DispositionView, R)>, q: ParserView, after: R, end: ParseEnd|
                    parses(self@.parser, self.router, rest, q, after, end) ==> #[trigger] parses(
                        start,
                        asked,
                        made + rest,
                        q,
                        after,
                        end,
                    ),
            decreases self@.parser.buf.len(),
        {
            let ghost before = self@.parser;
            let ghost router = self.router;
            proof {
                lemma_route_consumes(before);
            }
            match self.parser.parse() {
                Ok(ParsePause::Route(headers)) => {
                    let disposition = self.router.route(&headers);
                    proof {
                        let first = (disposition@, self.router);
                        let begun = begin_part(self@.parser, headers@, disposition@);
                        let next = made.push(first);
                        assert forall|
                            rest: Seq<(DispositionView, R)>,
                            q: ParserView,
                            after: R,
                            end: ParseEnd,
                        |
                            parses(begun, self.router, rest, q, after, end) implies #[trigger] parses(
                            start,
                            asked,
                            next + rest,
                            q,
                            after,
                            end,
                        ) by {
                            lemma_parses_choice(
                                before,
                                router,
                                first,
                                rest,
                                q,
                                after,
                                end,
                                headers@,
                            );
                            assert(next + rest =~= made + (seq![first] + rest));
                            assert(parses(start, asked, made + (seq![first] + rest), q, after, end));
                        }
                        made = next;
                    }
                    self.parser.begin_part(headers, disposition);
                },
                result => {
                    proof {
                        let none = Seq::<(DispositionView, R)>::empty();
                        assert(parses(
                            before,
                            router,
                            none,
                            self@.parser,
                            self.router,
                            end_of(result),
                        ));
                        assert(parses(
                            start,
                            asked,
                            made + none,
                            self@.parser,
                            self.router(),
                            end_of(result),
                        ));
                    }
                    return result;
                },
            }
        }
    }

    /// Whether the result of the socket still counts.
    pub fn can_step(&self, event: &BodyEvent) -> (yes: bool)
        ensures
            yes == still_counts(self@, *event),
    {
        match event {
            BodyEvent::Received { result, .. } => *result == 0 || *result == -1 || count_of(*result)
                <= u64::MAX - self.received,
            _ => true,
        }
    }

    /// Goes on after `event`, until something is needed from the outside.
    pub fn step(&mut self, event: BodyEvent) -> (result: Result<BodyTurn, MultipartError>)
        requires
            old(self).wf(),
            still_counts(old(self)@, event),
        ensures
            steps_to(
                prepared(old(self)@, event),
                old(self).router(),
                final(self)@,
                final(self).router(),
                turn_view(result),
            ),
            final(self).wf(),
    {
        let resumes = matches!(&event, BodyEvent::FileDone);
        match event {
            BodyEvent::Nothing => {},
            BodyEvent::Received { result, buf } => {
                match self.collect_recv(result, buf) {
                    Ok(()) => {},
                    Err(error) => {
                        return Err(error);
                    },
                }
            },
            BodyEvent::FileDone => {
                match self.check_total() {
                    Ok(()) => {},
                    Err(error) => {
                        return Err(error);
                    },
                }
                match self.parser.file_done() {
                    Ok(()) => {},
                    Err(error) => {
                        return Err(error);
                    },
                }
            },
            BodyEvent::FileFailed => {
                return Err(self.parser.file_failed());
            },
        }
        if !resumes {
            match self.check_total() {
                Ok(()) => {},
                Err(error) => {
                    return Err(error);
                },
            }
            self.check_network_done();
            match self.decode_chunks() {
                Ok(()) => {},
                Err(error) => {
                    return Err(error);
                },
            }
        }
        let ghost ready = self@.parser;
        let parsed = self.parse();
        proof {
            let choices = choose|choices: Seq<(DispositionView, R)>|
                parses(
                    ready,
                    old(self).router(),
                    choices,
                    self@.parser,
                    self.router(),
                    end_of(parsed),
                );
            assert(parses(
                ready,
                old(self).router(),
                choices,
                self@.parser,
                self.router(),
                end_of(parsed),
            ));
        }
        match parsed {
            Ok(ParsePause::Create(path)) => Ok(BodyTurn::CreateFile(path)),
            Ok(ParsePause::Write(data)) => Ok(BodyTurn::WriteFile(data)),
            Ok(ParsePause::Flush) => Ok(BodyTurn::FlushFile),
            Ok(ParsePause::Done) => Ok(BodyTurn::Complete),
            Ok(_) => {
                if self.network_done {
                    return Err(MultipartError::Truncated);
                }
                Ok(BodyTurn::Recv(self.next_read()))
            },
            Err(error) => Err(error),
        }
    }
}

} // verus!
