//! What holds of a multipart body program as a whole.

use vstd::prelude::*;
use vstd::utf8::encode_utf8;

use crate::bytes::{crlf, dashes, CR, LF};
use crate::chunked::{fresh_decoder, lemma_transition_consumes, rank, run, transition, DecoderView, RunEnd, Transition};
use crate::chunked_laws::{encode_chunks, joined, law_decoding_ends_done, law_decoding_is_bounded, law_decoding_is_incremental, law_decoding_settles, law_encoded_chunks_read_back};
use crate::multipart::{answer, chunks_decoded, collected, delimiter_of, fresh_body, lemma_route_consumes, network_checked, parses, prepared, read_size, received, steps_to, still_counts, total_checked, turn_view, BodyEvent, BodyTurn, BodyTurnView, BodyView, MAX_DECODED};
use crate::parser::{all_received, begin_part, lemma_move_consumes, parse_move, parse_run, parser_wf, wait_rank, Move, MultipartError, ParseEnd, ParserView, Pause};
use crate::parser_laws::{agree, all_fit, append_last, can_be_awaited, can_be_sent, drive, encode_parts, encode_rest, feed, fresh_session, headers_awaited, law_complete_bodies_do_not_fail_on_the_way, law_incomplete_bodies_are_awaited, law_sent_parts_read_back, law_two_pieces_do_not_matter, law_what_follows_the_body_is_ignored, lemma_drive_waits_for_nothing, lemma_step_consumes, received_parts, session_rank, session_step, written_files, FileView, SentPart, Routing, Session, SessionEnd, SessionStep};
use crate::parts::{DispositionView, PartHeadersView, PartRouter, PartView};

verus! {

/// The headers of parts.
pub open spec fn headers_of(parts: Seq<PartView>) -> Seq<PartHeadersView> {
    parts.map_values(|part: PartView| part.headers)
}

/// The headers of the parts that a router was asked for: of those that are
/// completed, and of the current one, if there is one.
pub open spec fn asked_for(p: ParserView) -> Seq<PartHeadersView> {
    if p.phase is Body || p.wait is Create {
        headers_of(p.parts).push(p.headers)
    } else {
        headers_of(p.parts)
    }
}

/// Each choice of a run of the parser from `p` is that of `routing`.
pub open spec fn chosen_by<R: PartRouter>(
    p: ParserView,
    choices: Seq<(DispositionView, R)>,
    routing: Routing,
) -> bool
    decreases choices.len(),
{
    let (halted, halt) = parse_run(p);
    match halt {
        ParseEnd::Stop(Pause::Route(headers)) if choices.len() > 0 => {
            &&& choices[0].0 == routing(halted.parts, headers)
            &&& chosen_by(
                begin_part(halted, headers, choices[0].0),
                choices.skip(1),
                routing,
            )
        },
        _ => true,
    }
}

/// A router that always chooses as `routing` does, whatever state it keeps of
/// the parts that it was asked for. It may be `router` once it was asked for
/// `asked` only where `known(router, asked)`.
pub open spec fn decides_by<R: PartRouter>(
    routing: Routing,
    known: spec_fn(R, Seq<PartHeadersView>) -> bool,
) -> bool {
    forall|
        router: R,
        before: Seq<PartView>,
        headers: PartHeadersView,
        disposition: DispositionView,
        after: R,
    |
        #![trigger router.routes(headers, disposition, after), headers_of(before)]
        known(router, headers_of(before)) && router.routes(headers, disposition, after) ==> {
            &&& disposition == routing(before, headers)
            &&& known(after, headers_of(before).push(headers))
        }
}

/// What the parser comes to, with each part routed by `routing`.
pub open spec fn parse_by(
    p: ParserView,
    routing: Routing,
) -> (ParserView, ParseEnd)
    decreases p.buf.len(),
    when parser_wf(p)
{
    let (halted, halt) = parse_run(p);
    match halt {
        ParseEnd::Stop(Pause::Route(headers)) => {
            proof {
                lemma_route_consumes(p);
            }
            parse_by(begin_part(halted, headers, routing(halted.parts, headers)), routing)
        },
        _ => (halted, halt),
    }
}

/// A run of the parser is the beginning of a session.
proof fn lemma_run_follows_session(p: ParserView, files: Seq<FileView>, routing: Routing)
    requires
        parser_wf(p),
    ensures
        ({
            let (q, end) = parse_run(p);
            let s = Session { parser: p, files };
            let t = Session { parser: q, files };
            &&& end is Stop && !(end matches ParseEnd::Stop(Pause::Route(_))) ==> parser_wf(q)
            &&& match end {
                ParseEnd::Fail(error) => drive(s, routing) == (t, SessionEnd::Fail(error)),
                ParseEnd::Stop(pause) => match pause {
                    Pause::NeedMore => drive(s, routing) == (t, SessionEnd::NeedMore),
                    Pause::Done => drive(s, routing) == (t, SessionEnd::Done),
                    Pause::Route(headers) => {
                        let begun = begin_part(q, headers, routing(q.parts, headers));
                        &&& parser_wf(begun)
                        &&& drive(s, routing) == drive(Session { parser: begun, files }, routing)
                    },
                    _ => drive(s, routing) == drive(t, routing),
                },
            }
        }),
    decreases p.buf.len(), wait_rank(p),
{
    let s = Session { parser: p, files };
    lemma_step_consumes(s, routing);
    lemma_move_consumes(p);
    match parse_move(p) {
        Move::Next(q) => {
            lemma_run_follows_session(q, files, routing);
        },
        Move::Fail(_, _) => {},
        Move::Stop(q, pause) => {
            crate::bytes::lemma_find(p.buf, p.delimiter);
        },
    }
}

/// What a step of the program does, with a router that chooses as a routing
/// does, is what the session of its parser does: it ends as the session ends,
/// and where it wants work done on a file, the rest of the session is still to
/// come.
pub proof fn law_steps_follow_the_session<R: PartRouter>(
    p: ParserView,
    router: R,
    choices: Seq<(DispositionView, R)>,
    q: ParserView,
    after: R,
    end: ParseEnd,
    routing: Routing,
    files: Seq<FileView>,
)
    requires
        parser_wf(p),
        chosen_by(p, choices, routing),
        parses(p, router, choices, q, after, end),
    ensures
        ({
            let whole = drive(Session { parser: p, files }, routing);
            let t = Session { parser: q, files };
            match end {
                ParseEnd::Fail(error) => whole == (t, SessionEnd::Fail(error)),
                ParseEnd::Stop(pause) => match pause {
                    Pause::NeedMore => whole == (t, SessionEnd::NeedMore),
                    Pause::Done => whole == (t, SessionEnd::Done),
                    _ => whole == drive(t, routing),
                },
            }
        }),
    decreases choices.len(),
{
    lemma_run_follows_session(p, files, routing);
    let (halted, halt) = parse_run(p);
    match halt {
        ParseEnd::Stop(Pause::Route(headers)) => {
            law_steps_follow_the_session(
                begin_part(halted, headers, choices[0].0),
                choices[0].1,
                choices.skip(1),
                q,
                after,
                end,
                routing,
                files,
            );
        },
        _ => {},
    }
}

/// A run of the parser asks no router and forgets nothing that one was asked
/// for.
proof fn lemma_run_keeps_asked(p: ParserView)
    requires
        parser_wf(p),
    ensures
        ({
            let (q, end) = parse_run(p);
            &&& end is Stop ==> asked_for(q) == asked_for(p)
            &&& end matches ParseEnd::Stop(Pause::Route(_)) ==> {
                &&& q.phase is Headers
                &&& q.wait is Nothing
            }
        }),
    decreases p.buf.len(), wait_rank(p),
{
    let routing = |before: Seq<PartView>, headers: PartHeadersView| DispositionView::Discard;
    lemma_step_consumes(Session { parser: p, files: Seq::empty() }, routing);
    lemma_move_consumes(p);
    match parse_move(p) {
        Move::Next(q) => {
            lemma_run_keeps_asked(q);
            lemma_completed_was_asked_for(p.parts, p.headers);
        },
        _ => {},
    }
}

proof fn lemma_completed_was_asked_for(parts: Seq<PartView>, headers: PartHeadersView)
    ensures
        forall|part: PartView|
            part.headers == headers ==> headers_of(#[trigger] parts.push(part)) == headers_of(
                parts,
            ).push(headers),
{
    assert forall|part: PartView| part.headers == headers implies headers_of(
        #[trigger] parts.push(part),
    ) == headers_of(parts).push(headers) by {
        assert(headers_of(parts.push(part)) =~= headers_of(parts).push(headers));
    }
}

/// Neither does what comes before a run of the parser.
pub proof fn lemma_prepared_keeps_asked(b: BodyView, event: BodyEvent)
    requires
        parser_wf(b.parser),
        prepared(b, event).1 is None,
    ensures
        parser_wf(prepared(b, event).0.parser),
        asked_for(prepared(b, event).0.parser) == asked_for(b.parser),
{
    lemma_completed_was_asked_for(b.parser.parts, b.parser.headers);
}

/// A router that decides by a routing keeps to it, whatever state it keeps: in
/// each run of the parser all its choices are those of the routing, so that the
/// run goes as the routing has it, and what is known of the router afterwards
/// fits what it was asked for by then.
pub proof fn law_routers_keep_to_their_routing<R: PartRouter>(
    p: ParserView,
    router: R,
    choices: Seq<(DispositionView, R)>,
    q: ParserView,
    after: R,
    end: ParseEnd,
    routing: Routing,
    known: spec_fn(R, Seq<PartHeadersView>) -> bool,
)
    requires
        parser_wf(p),
        decides_by::<R>(routing, known),
        known(router, asked_for(p)),
        parses(p, router, choices, q, after, end),
    ensures
        chosen_by(p, choices, routing),
        parse_by(p, routing) == (q, end),
        end is Stop ==> parser_wf(q) && known(after, asked_for(q)),
    decreases choices.len(),
{
    let (halted, halt) = parse_run(p);
    lemma_run_follows_session(p, Seq::empty(), routing);
    lemma_run_keeps_asked(p);
    match halt {
        ParseEnd::Stop(Pause::Route(headers)) => {
            assert(known(router, headers_of(halted.parts)));
            assert(router.routes(headers, choices[0].0, choices[0].1));
            law_routers_keep_to_their_routing(
                begin_part(halted, headers, choices[0].0),
                choices[0].1,
                choices.skip(1),
                q,
                after,
                end,
                routing,
                known,
            );
        },
        _ => {},
    }
}

/// All bytes that the socket received are taken, in order, behind those that
/// were there before: in a plain body by the parser, in a body in chunks by the
/// decoder, and what that decodes by the parser. They count as many as the socket
/// says. No other byte gets there, and nothing else changes, but that the body may
/// be known to be all there.
pub proof fn law_all_that_is_received_counts(b: BodyView, result: i32, buf: Vec<u8>)
    ensures
        prepared(b, BodyEvent::Received { result, buf }) == received(b, result, buf@),
        ({
            let (next, error) = prepared(b, BodyEvent::Received { result, buf });
            0 < result && b.received + result <= b.max_total ==> {
                &&& next.received == b.received + result
                &&& b.decoder is None && !b.chunked ==> {
                    &&& error is None
                    &&& next == (BodyView {
                        received: next.received,
                        network_done: b.network_done || (b.content_length matches Some(length)
                            && b.received + result >= length),
                        parser: ParserView { buf: b.parser.buf + buf@, ..b.parser },
                        ..b
                    })
                }
                &&& b.decoder is Some && b.chunked ==> {
                    let decoded = run(b.decoder->0, b.raw + buf@);
                    &&& error is None <==> !(decoded.end is Fail)
                    &&& next == (BodyView {
                        received: next.received,
                        network_done: b.network_done || decoded.end is Done,
                        raw: decoded.rest,
                        decoder: Some(decoded.decoder),
                        parser: ParserView { buf: b.parser.buf + decoded.out, ..b.parser },
                        ..b
                    })
                }
            }
        }),
{
}

/// A step without anything new loses nothing: a plain body stays as it was, and of
/// one in chunks all that can be decoded is.
pub proof fn law_nothing_new_loses_nothing(b: BodyView)
    requires
        b.received <= b.max_total,
        b.chunked == (b.decoder is Some),
    ensures
        !b.chunked ==> prepared(b, BodyEvent::Nothing) == (
            BodyView {
                network_done: b.network_done || (b.content_length matches Some(length) && b.received
                    >= length),
                ..b
            },
            None::<MultipartError>,
        ),
        b.chunked ==> {
            let decoded = run(b.decoder->0, b.raw);
            let (next, error) = prepared(b, BodyEvent::Nothing);
            &&& next == (BodyView {
                network_done: b.network_done || decoded.end is Done,
                raw: decoded.rest,
                decoder: Some(decoded.decoder),
                parser: ParserView { buf: b.parser.buf + decoded.out, ..b.parser },
                ..b
            })
            &&& error == match decoded.end {
                RunEnd::Fail(error) => Some(MultipartError::Chunk(error)),
                _ => None,
            }
        },
        b.parser.wait is Nothing ==> prepared(b, BodyEvent::FileDone) == (b, None::<MultipartError>),
{
}

/// What is told of a turn is all of it.
pub proof fn law_turns_are_told_in_full(path: String, data: Vec<u8>, len: usize)
    ensures
        BodyTurn::CreateFile(path)@ == BodyTurnView::CreateFile(path@),
        BodyTurn::WriteFile(data)@ == BodyTurnView::WriteFile(data@),
        BodyTurn::FlushFile@ == BodyTurnView::FlushFile,
        BodyTurn::Recv(len)@ == BodyTurnView::Recv(len as nat),
        BodyTurn::Complete@ == BodyTurnView::Complete,
        turn_view(Ok(BodyTurn::WriteFile(data))) == Ok::<BodyTurnView, MultipartError>(
            BodyTurnView::WriteFile(data@),
        ),
{
}

/// A body that ends before its end is refused, and so is one whose socket
/// failed, or whose bytes are more than the limit.
pub proof fn law_broken_bodies_are_refused(b: BodyView, routing: Routing, buf: Vec<u8>, result: i32)
    requires
        parser_wf(b.parser),
    ensures
        prepared(b, BodyEvent::Received { result: (-1) as i32, buf }).1 == Some(MultipartError::Socket),
        0 < result && b.received + result > b.max_total ==> prepared(
            b,
            BodyEvent::Received { result, buf },
        ).1 == Some(MultipartError::BodyTooLarge { limit: b.max_total as u64 }),
        b.parser.wait is Create || b.parser.wait is Flush || b.parser.wait is WriteLast
            || b.parser.wait is WriteSome ==> prepared(b, BodyEvent::FileFailed).1 is Some,
        ({
            let (next, error) = prepared(b, BodyEvent::Received { result: 0, buf });
            let (parser, end) = parse_by(next.parser, routing);
            error is None ==> {
                &&& b.decoder is None ==> next.parser == b.parser
                &&& next.network_done
                &&& end == ParseEnd::Stop(Pause::NeedMore) ==> answer(
                    BodyView { parser, ..next },
                    end,
                ) == Err::<BodyTurnView, MultipartError>(MultipartError::Truncated)
            }
        }),
{
}

/// A program that wants more asks for all that is announced and missing, but for
/// no more than 32 KiB at once. Where all that can arrive has, the body is refused.
pub proof fn law_what_is_missing_is_asked_for(b: BodyView)
    ensures
        b.network_done ==> answer(b, ParseEnd::Stop(Pause::NeedMore)) == Err::<
            BodyTurnView,
            MultipartError,
        >(MultipartError::Truncated),
        !b.network_done ==> answer(b, ParseEnd::Stop(Pause::NeedMore)) == Ok::<BodyTurnView, MultipartError>(
            BodyTurnView::Recv(
                match b.content_length {
                    Some(length) if !b.chunked && length <= b.received => 0,
                    Some(length) if !b.chunked && length - b.received < 32768 => (length
                        - b.received) as nat,
                    _ => 32768,
                },
            ),
        ),
{
}

/// A program can be stepped with whatever happens, as long as the bytes that are
/// received can still be counted.
pub proof fn law_events_can_be_counted(b: BodyView, result: i32, buf: Vec<u8>)
    ensures
        still_counts(b, BodyEvent::Nothing),
        still_counts(b, BodyEvent::FileDone),
        still_counts(b, BodyEvent::FileFailed),
        -1 <= result <= u64::MAX - b.received ==> still_counts(
            b,
            BodyEvent::Received { result, buf },
        ),
{
}

/// Unless other limits are set, a part that is kept in memory may take 2 MiB, all
/// that is received 128 MiB, and what is decoded from chunks 64 MiB.
pub proof fn law_limits_by_default(
    chunked: bool,
    content_length: Option<u64>,
    boundary: Seq<char>,
    initial: Seq<u8>,
)
    ensures
        ({
            let b = fresh_body(chunked, content_length, boundary, initial);
            &&& b == limited_body(
                chunked,
                content_length,
                boundary,
                initial,
                2 * 1024 * 1024,
                128 * 1024 * 1024,
            )
            &&& chunked ==> b.decoder is Some && b.decoder->0.max_decoded == 64 * 1024 * 1024
        }),
{
}

/// A body that is not refused stays within its limit, and what its chunks
/// decode to stays within the limit of the decoder.
pub proof fn law_the_total_is_bounded(b: BodyView, event: BodyEvent)
    requires
        b.decoder matches Some(decoder) ==> decoder.decoded <= decoder.max_decoded,
    ensures
        ({
            let (next, error) = prepared(b, event);
            &&& error is None ==> next.received <= next.max_total
            &&& next.max_total == b.max_total
            &&& next.decoder matches Some(decoder) ==> decoder.decoded <= decoder.max_decoded
        }),
{
    let collected = match event {
        BodyEvent::Received { result, buf } => collected(b, result, buf@).0,
        _ => b,
    };
    if b.decoder is Some {
        law_decoding_is_bounded(b.decoder->0, collected.raw);
    }
}

/// Comes before, in the order of steps.
spec fn is_before(q: ParserView, p: ParserView) -> bool {
    ||| q.buf.len() < p.buf.len()
    ||| q.buf.len() == p.buf.len() && session_rank(q) <= session_rank(p)
}

proof fn lemma_run_is_before(p: ParserView, routing: Routing)
    requires
        parser_wf(p),
    ensures
        ({
            let (q, end) = parse_run(p);
            match end {
                ParseEnd::Fail(_) => true,
                ParseEnd::Stop(pause) => match pause {
                    Pause::NeedMore => true,
                    Pause::Route(headers) => {
                        let begun = begin_part(q, headers, routing(q.parts, headers));
                        parser_wf(begun) && is_before(begun, p)
                    },
                    _ => parser_wf(q) && is_before(q, p) && parse_move(q) == Move::Stop(q, pause),
                },
            }
        }),
    decreases p.buf.len(), wait_rank(p),
{
    let s = Session { parser: p, files: Seq::empty() };
    lemma_step_consumes(s, routing);
    lemma_move_consumes(p);
    match parse_move(p) {
        Move::Next(q) => {
            lemma_run_is_before(q, routing);
        },
        _ => {
            crate::bytes::lemma_find(p.buf, p.delimiter);
        },
    }
}

/// The parser stops for work on a file where it is to be done.
proof fn lemma_parse_by_is_before(
    p: ParserView,
    routing: Routing,
)
    requires
        parser_wf(p),
    ensures
        ({
            let (q, end) = parse_by(p, routing);
            match end {
                ParseEnd::Fail(_) => true,
                ParseEnd::Stop(pause) => {
                    &&& !(pause is Route)
                    &&& pause is NeedMore || (parser_wf(q) && is_before(q, p) && parse_move(q)
                        == Move::Stop(q, pause))
                },
            }
        }),
    decreases p.buf.len(),
{
    lemma_run_is_before(p, routing);
    lemma_route_consumes(p);
    let (q, end) = parse_run(p);
    match end {
        ParseEnd::Stop(Pause::Route(headers)) => {
            lemma_parse_by_is_before(begin_part(q, headers, routing(q.parts, headers)), routing);
        },
        _ => {},
    }
}

/// The parser stays in order.
pub proof fn lemma_parse_by_keeps_order(p: ParserView, routing: Routing)
    requires
        parser_wf(p),
    ensures
        parse_by(p, routing).1 is Stop ==> parser_wf(parse_by(p, routing).0),
    decreases p.buf.len(),
{
    lemma_run_follows_session(p, Seq::empty(), routing);
    lemma_route_consumes(p);
    let (q, end) = parse_run(p);
    match end {
        ParseEnd::Stop(Pause::Route(headers)) => {
            lemma_parse_by_keeps_order(begin_part(q, headers, routing(q.parts, headers)), routing);
        },
        _ => {},
    }
}

/// The parser is done once all parts are received.
pub proof fn lemma_complete_is_received(p: ParserView, routing: Routing)
    requires
        parser_wf(p),
    ensures
        parse_by(p, routing).1 == ParseEnd::Stop(Pause::Done) ==> all_received(
            parse_by(p, routing).0,
        ),
{
    lemma_parse_by_is_before(p, routing);
}

/// [`parse_by`] is the beginning of a session.
proof fn lemma_parse_by_follows_session(
    p: ParserView,
    routing: Routing,
    files: Seq<FileView>,
)
    requires
        parser_wf(p),
    ensures
        ({
            let (q, end) = parse_by(p, routing);
            let whole = drive(Session { parser: p, files }, routing);
            let t = Session { parser: q, files };
            match end {
                ParseEnd::Fail(error) => whole == (t, SessionEnd::Fail(error)),
                ParseEnd::Stop(pause) => match pause {
                    Pause::NeedMore => whole == (t, SessionEnd::NeedMore),
                    Pause::Done => whole == (t, SessionEnd::Done),
                    _ => whole == drive(t, routing),
                },
            }
        }),
    decreases p.buf.len(),
{
    lemma_run_follows_session(p, files, routing);
    lemma_route_consumes(p);
    let (q, end) = parse_run(p);
    match end {
        ParseEnd::Stop(Pause::Route(headers)) => {
            lemma_parse_by_follows_session(
                begin_part(q, headers, routing(q.parts, headers)),
                routing,
                files,
            );
        },
        _ => {},
    }
}

/// A program, the files that were written for it, and what it answered last.
pub struct Reception {
    pub body: BodyView,
    pub files: Seq<FileView>,
    pub answer: Result<BodyTurnView, MultipartError>,
}

/// The files once the work was done that `turn` asks for, if it does.
pub open spec fn worked_on(
    files: Seq<FileView>,
    turn: Result<BodyTurnView, MultipartError>,
) -> Option<Seq<FileView>> {
    match turn {
        Ok(BodyTurnView::CreateFile(path)) => Some(
            files.push(FileView { path, content: Seq::empty() }),
        ),
        Ok(BodyTurnView::WriteFile(data)) => Some(append_last(files, data)),
        Ok(BodyTurnView::FlushFile) => Some(files),
        _ => None,
    }
}

/// Work on a file leads on.
pub proof fn lemma_file_leads_on(
    b: BodyView,
    routing: Routing,
    files: Seq<FileView>,
)
    requires
        parser_wf(b.parser),
    ensures
        ({
            let (parser, end) = parse_by(b.parser, routing);
            let next = BodyView { parser, ..b };
            match worked_on(files, answer(next, end)) {
                None => true,
                Some(written) => {
                    let (done, error) = prepared(next, BodyEvent::FileDone);
                    let s = Session { parser, files };
                    let t = Session { parser: done.parser, files: written };
                    &&& parser_wf(parser)
                    &&& total_checked(b) is None ==> session_step(s, routing)
                        == match error {
                        None => SessionStep::Next(t),
                        Some(e) => SessionStep::End(t, SessionEnd::Fail(e)),
                    }
                    &&& error is None ==> {
                        &&& parser_wf(done.parser)
                        &&& {
                            ||| done.parser.buf.len() < b.parser.buf.len()
                            ||| done.parser.buf.len() == b.parser.buf.len() && session_rank(
                                done.parser,
                            ) < session_rank(b.parser)
                        }
                    }
                },
            }
        }),
{
    lemma_parse_by_is_before(b.parser, routing);
    let (parser, end) = parse_by(b.parser, routing);
    if end matches ParseEnd::Stop(pause) && !(pause is NeedMore) {
        lemma_step_consumes(Session { parser, files }, routing);
    }
}

/// The program once all work on files was done that it asked for, and it wants
/// more bytes or is over.
pub open spec fn settled(
    b: BodyView,
    routing: Routing,
    files: Seq<FileView>,
) -> Reception
    decreases b.parser.buf.len(), session_rank(b.parser),
    when parser_wf(b.parser)
{
    let (parser, end) = parse_by(b.parser, routing);
    let next = BodyView { parser, ..b };
    match worked_on(files, answer(next, end)) {
        None => Reception { body: next, files, answer: answer(next, end) },
        Some(written) => match prepared(next, BodyEvent::FileDone) {
            (failed, Some(error)) => Reception {
                body: failed,
                files: written,
                answer: Err(error),
            },
            (done, None) => {
                proof {
                    lemma_file_leads_on(b, routing, files);
                }
                settled(done, routing, written)
            },
        },
    }
}

/// What a program answers when its session comes to an end or a halt.
pub open spec fn session_answer(b: BodyView, end: SessionEnd) -> Result<
    BodyTurnView,
    MultipartError,
> {
    match end {
        SessionEnd::Fail(error) => Err(error),
        SessionEnd::Done => Ok(BodyTurnView::Complete),
        SessionEnd::NeedMore => if b.network_done {
            Err(MultipartError::Truncated)
        } else {
            Ok(BodyTurnView::Recv(read_size(b)))
        },
    }
}

/// A program whose body is not too long, and its files, go where the session of
/// its parser goes.
pub proof fn law_programs_follow_their_session(
    b: BodyView,
    routing: Routing,
    files: Seq<FileView>,
)
    requires
        parser_wf(b.parser),
        total_checked(b) is None,
    ensures
        ({
            let (s, end) = drive(Session { parser: b.parser, files }, routing);
            settled(b, routing, files) == (Reception {
                body: BodyView { parser: s.parser, ..b },
                files: s.files,
                answer: session_answer(b, end),
            })
        }),
    decreases b.parser.buf.len(), session_rank(b.parser),
{
    let (parser, end) = parse_by(b.parser, routing);
    let next = BodyView { parser, ..b };
    lemma_parse_by_is_before(b.parser, routing);
    lemma_parse_by_follows_session(b.parser, routing, files);
    lemma_file_leads_on(b, routing, files);
    match worked_on(files, answer(next, end)) {
        None => {},
        Some(written) => {
            let s = Session { parser, files };
            match prepared(next, BodyEvent::FileDone) {
                (failed, Some(error)) => {
                    assert(drive(s, routing) == (
                        Session { parser: failed.parser, files: written },
                        SessionEnd::Fail(error),
                    ));
                },
                (done, None) => {
                    let t = Session { parser: done.parser, files: written };
                    assert(drive(s, routing) == drive(t, routing));
                    law_programs_follow_their_session(done, routing, written);
                },
            }
        },
    }
}

/// The program on the pieces that arrive, as long as it wants more.
pub open spec fn received_in_pieces(
    b: BodyView,
    routing: Routing,
    files: Seq<FileView>,
    pieces: Seq<Seq<u8>>,
) -> Reception
    decreases pieces.len(),
{
    let r = settled(b, routing, files);
    if pieces.len() > 0 && (r.answer matches Ok(BodyTurnView::Recv(_))) {
        match received(r.body, pieces[0].len() as i32, pieces[0]) {
            (next, Some(error)) => Reception { body: next, files: r.files, answer: Err(error) },
            (next, None) => received_in_pieces(next, routing, r.files, pieces.skip(1)),
        }
    } else {
        r
    }
}

/// The program from its first step on, which finds nothing received, and then
/// on the pieces that arrive.
pub open spec fn program_run(
    b: BodyView,
    routing: Routing,
    files: Seq<FileView>,
    pieces: Seq<Seq<u8>>,
) -> Reception {
    match prepared(b, BodyEvent::Nothing) {
        (next, Some(error)) => Reception { body: next, files, answer: Err(error) },
        (next, None) => received_in_pieces(next, routing, files, pieces),
    }
}

/// A program after a step, and its router.
pub struct Stage<R> {
    pub reception: Reception,
    pub router: R,
}

/// What buffers hold.
pub open spec fn contents(bufs: Seq<Vec<u8>>) -> Seq<Seq<u8>> {
    bufs.map_values(|buf: Vec<u8>| buf@)
}

/// What a program is stepped with after it answered, if with anything: the
/// program when it is about to parse, the files, and the buffers that are still
/// to be filled then.
pub open spec fn stepped_with(r: Reception, bufs: Seq<Vec<u8>>) -> Option<
    ((BodyView, Option<MultipartError>), Seq<FileView>, Seq<Vec<u8>>),
> {
    match worked_on(r.files, r.answer) {
        Some(written) => Some((prepared(r.body, BodyEvent::FileDone), written, bufs)),
        None => if bufs.len() > 0 && (r.answer matches Ok(BodyTurnView::Recv(_))) {
            let event = BodyEvent::Received { result: bufs[0]@.len() as i32, buf: bufs[0] };
            Some((prepared(r.body, event), r.files, bufs.skip(1)))
        } else {
            None
        },
    }
}

/// `stages` are what a program comes to with each step, when it is stepped as
/// long as it asks for work on a file, or for more bytes while there are any.
pub open spec fn steps_through<R: PartRouter>(
    ready: (BodyView, Option<MultipartError>),
    router: R,
    files: Seq<FileView>,
    bufs: Seq<Vec<u8>>,
    stages: Seq<Stage<R>>,
) -> bool
    decreases stages.len(),
{
    &&& stages.len() > 0
    &&& {
        let first = stages[0];
        &&& first.reception.files == files
        &&& steps_to(
            ready,
            router,
            first.reception.body,
            first.router,
            first.reception.answer,
        )
        &&& match stepped_with(first.reception, bufs) {
            None => stages.len() == 1,
            Some((next, written, rest)) => steps_through(
                next,
                first.router,
                written,
                rest,
                stages.skip(1),
            ),
        }
    }
}

/// A program is stepped as [`program_run`] has it: with a router that decides by
/// a routing, whatever state it keeps, it ends with the same answer, the same
/// parts and the same files.
pub proof fn law_programs_run_as_their_router_decides<R: PartRouter>(
    b: BodyView,
    router: R,
    files: Seq<FileView>,
    bufs: Seq<Vec<u8>>,
    stages: Seq<Stage<R>>,
    routing: Routing,
    known: spec_fn(R, Seq<PartHeadersView>) -> bool,
)
    requires
        parser_wf(b.parser),
        decides_by::<R>(routing, known),
        known(router, asked_for(b.parser)),
        steps_through(prepared(b, BodyEvent::Nothing), router, files, bufs, stages),
    ensures
        stages.last().reception == program_run(b, routing, files, contents(bufs)),
{
    let (next, error) = prepared(b, BodyEvent::Nothing);
    if error is None {
        lemma_prepared_keeps_asked(b, BodyEvent::Nothing);
    }
    lemma_stages_run(prepared(b, BodyEvent::Nothing), router, files, bufs, stages, routing, known);
}

/// [`law_programs_run_as_their_router_decides`], from any step on.
proof fn lemma_stages_run<R: PartRouter>(
    ready: (BodyView, Option<MultipartError>),
    router: R,
    files: Seq<FileView>,
    bufs: Seq<Vec<u8>>,
    stages: Seq<Stage<R>>,
    routing: Routing,
    known: spec_fn(R, Seq<PartHeadersView>) -> bool,
)
    requires
        ready.1 is None ==> parser_wf(ready.0.parser) && known(router, asked_for(ready.0.parser)),
        decides_by::<R>(routing, known),
        steps_through(ready, router, files, bufs, stages),
    ensures
        stages.len() > 0,
        stages.last().reception == match ready {
            (b, Some(error)) => (Reception { body: b, files, answer: Err(error) }),
            (b, None) => received_in_pieces(b, routing, files, contents(bufs)),
        },
    decreases stages.len(),
{
    let first = stages[0];
    let r = first.reception;
    if ready.1 is None {
        let b = ready.0;
        let (choices, end) = choose|choices: Seq<(DispositionView, R)>, end: ParseEnd| #[trigger]
            parses(b.parser, router, choices, r.body.parser, first.router, end) && r.answer
                == answer(r.body, end);
        law_routers_keep_to_their_routing(
            b.parser,
            router,
            choices,
            r.body.parser,
            first.router,
            end,
            routing,
            known,
        );
        match stepped_with(r, bufs) {
            None => {},
            Some((next, written, rest)) => {
                if worked_on(files, r.answer) is None {
                    assert(contents(bufs).skip(1) =~= contents(bufs.skip(1)));
                    law_all_that_is_received_counts(r.body, bufs[0]@.len() as i32, bufs[0]);
                }
                if next.1 is None && worked_on(files, r.answer) is Some {
                    lemma_prepared_keeps_asked(r.body, BodyEvent::FileDone);
                }
                lemma_stages_run(
                    next,
                    first.router,
                    written,
                    rest,
                    stages.skip(1),
                    routing,
                    known,
                );
                assert(stages.skip(1).last() == stages.last());
            },
        }
    }
}

/// All is received.
pub open spec fn is_complete(r: Reception) -> bool {
    r.answer == Ok::<BodyTurnView, MultipartError>(BodyTurnView::Complete)
}

/// Each piece is one that the socket can receive.
pub open spec fn receivable(pieces: Seq<Seq<u8>>) -> bool {
    forall|i: int| 0 <= i < pieces.len() ==> 0 < (#[trigger] pieces[i]).len() <= i32::MAX
}

/// What arrives for the parser of a program when all of `pieces` arrive.
pub open spec fn arriving(b: BodyView, pieces: Seq<Seq<u8>>) -> Seq<u8> {
    match b.decoder {
        Some(decoder) => run(decoder, b.raw + joined(pieces)).out,
        None => joined(pieces),
    }
}

/// The chunks that arrive with `pieces` are not refused.
pub open spec fn chunks_accepted(b: BodyView, pieces: Seq<Seq<u8>>) -> bool {
    b.decoder matches Some(decoder) ==> !(run(decoder, b.raw + joined(pieces)).end is Fail)
}

/// What may be told of a program between two steps: bytes in chunks that are
/// not decoded are not enough to decode, unless the last chunk was.
spec fn between_steps(b: BodyView) -> bool {
    &&& parser_wf(b.parser)
    &&& b.parser.wait is Nothing
    &&& total_checked(b) is None
    &&& b.chunked == (b.decoder is Some)
    &&& b.decoder matches Some(decoder) ==> {
        ||| transition(decoder, b.raw) is Wait
        ||| decoder.state is Done && b.network_done
    }
}

/// What a decoder decodes, it consumes.
proof fn lemma_decoding_consumes(d: DecoderView, input: Seq<u8>)
    ensures
        run(d, input).out.len() + run(d, input).rest.len() <= input.len(),
    decreases input.len(), rank(d.state),
{
    crate::bytes::lemma_find(input, crlf());
    lemma_transition_consumes(d, input);
    match transition(d, input) {
        Transition::Next { decoder, rest, out } => {
            lemma_decoding_consumes(decoder, rest);
        },
        _ => {},
    }
}

/// Once bytes in chunks were decoded, as much less is to arrive.
proof fn lemma_decoded(b: BodyView, pieces: Seq<Seq<u8>>)
    requires
        b.decoder is Some,
    ensures
        ({
            let (next, error) = chunks_decoded(b);
            let here = run(b.decoder->0, b.raw).out;
            &&& chunks_accepted(b, pieces) ==> error is None
            &&& error is None ==> {
                &&& chunks_accepted(b, pieces) ==> chunks_accepted(next, pieces)
                &&& arriving(b, pieces) == here + arriving(next, pieces)
                &&& next.parser == (ParserView { buf: b.parser.buf + here, ..b.parser })
                &&& here.len() + next.raw.len() <= b.raw.len()
                &&& transition(next.decoder->0, next.raw) is Wait || (next.decoder->0.state is Done
                    && next.network_done)
                &&& next.network_done ==> b.network_done || next.decoder->0.state is Done
            }
        }),
{
    let d = b.decoder->0;
    let rest = joined(pieces);
    let first = run(d, b.raw);
    law_decoding_is_incremental(d, b.raw, rest);
    law_decoding_settles(d, b.raw);
    law_decoding_ends_done(d, b.raw);
    lemma_decoding_consumes(d, b.raw);
    let second = run(first.decoder, first.rest + rest);
    if first.end is Done {
        assert(transition(first.decoder, first.rest + rest) is Done);
        assert(first.out + second.out =~= first.out);
    }
}

/// Nothing more arrives once the last chunk was decoded.
proof fn lemma_nothing_behind_the_last_chunk(b: BodyView, pieces: Seq<Seq<u8>>)
    requires
        b.decoder is Some,
        b.decoder->0.state is Done,
    ensures
        arriving(b, pieces) == Seq::<u8>::empty(),
{
    assert(transition(b.decoder->0, b.raw + joined(pieces)) is Done);
}

/// A piece that was received takes what was to arrive further.
proof fn lemma_piece_arrives(b: BodyView, pieces: Seq<Seq<u8>>) -> (here: Seq<u8>)
    requires
        between_steps(b),
        !b.network_done,
        pieces.len() > 0,
        0 < pieces[0].len() <= i32::MAX,
    ensures
        ({
            let (next, error) = received(b, pieces[0].len() as i32, pieces[0]);
            &&& b.received + pieces[0].len() <= b.max_total && chunks_accepted(b, pieces)
                ==> error is None
            &&& error is None ==> {
                &&& chunks_accepted(b, pieces) ==> chunks_accepted(next, pieces.skip(1))
                &&& between_steps(next)
                &&& next.received == b.received + pieces[0].len()
                &&& next.max_total == b.max_total
                &&& next.content_length == b.content_length
                &&& next.chunked == b.chunked
                &&& next.parser == (ParserView { buf: b.parser.buf + here, ..b.parser })
                &&& arriving(b, pieces) == here + arriving(next, pieces.skip(1))
                &&& here.len() + next.raw.len() <= pieces[0].len() + b.raw.len()
                &&& !b.chunked ==> here == pieces[0] && next.raw == b.raw
                &&& next.network_done ==> if b.chunked {
                    next.decoder->0.state is Done
                } else {
                    b.content_length matches Some(length) && next.received >= length
                }
            }
        }),
{
    let piece = pieces[0];
    let rest = pieces.skip(1);
    let taken = collected(b, piece.len() as i32, piece).0;
    assert(joined(pieces) == piece + joined(rest));
    assert(b.raw + piece + joined(rest) =~= b.raw + joined(pieces));
    if b.chunked {
        lemma_decoded(taken, rest);
        run(b.decoder->0, b.raw + piece).out
    } else {
        piece
    }
}

/// How a body is cut into pieces on its way, and into chunks, does not matter:
/// where a program received all of it, the parts and the files are those that
/// the whole body, without its chunks, gives at once.
pub proof fn law_bodies_arrive_in_any_pieces(
    b: BodyView,
    routing: Routing,
    files: Seq<FileView>,
    pieces: Seq<Seq<u8>>,
)
    requires
        parser_wf(b.parser),
        b.parser.wait is Nothing,
        b.chunked == (b.decoder is Some),
        receivable(pieces),
    ensures
        ({
            let cut = program_run(b, routing, files, pieces);
            let whole = drive(
                feed(Session { parser: b.parser, files }, arriving(b, pieces)),
                routing,
            );
            is_complete(cut) ==> {
                &&& whole.1 is Done
                &&& whole.0.parser.parts == cut.body.parser.parts
                &&& whole.0.files == cut.files
            }
        }),
{
    let (next, error) = prepared(b, BodyEvent::Nothing);
    if error is None {
        let s = Session { parser: b.parser, files };
        let t = Session { parser: next.parser, files };
        if b.chunked {
            lemma_decoded(network_checked(b), pieces);
            assert(arriving(network_checked(b), pieces) == arriving(b, pieces));
        }
        assert(feed(t, arriving(next, pieces)).parser.buf =~= feed(
            s,
            arriving(b, pieces),
        ).parser.buf);
        assert(feed(t, arriving(next, pieces)) == feed(s, arriving(b, pieces)));
        lemma_pieces_agree(next, routing, files, pieces);
    }
}

/// [`law_bodies_arrive_in_any_pieces`], between two steps.
proof fn lemma_pieces_agree(
    b: BodyView,
    routing: Routing,
    files: Seq<FileView>,
    pieces: Seq<Seq<u8>>,
)
    requires
        between_steps(b),
        receivable(pieces),
    ensures
        ({
            let cut = received_in_pieces(b, routing, files, pieces);
            let whole = drive(
                feed(Session { parser: b.parser, files }, arriving(b, pieces)),
                routing,
            );
            is_complete(cut) ==> {
                &&& whole.1 is Done
                &&& whole.0.parser.parts == cut.body.parser.parts
                &&& whole.0.files == cut.files
            }
        }),
    decreases pieces.len(),
{
    let s = Session { parser: b.parser, files };
    let (s1, end) = drive(s, routing);
    let r = settled(b, routing, files);
    let all = arriving(b, pieces);
    law_programs_follow_their_session(b, routing, files);
    if is_complete(received_in_pieces(b, routing, files, pieces)) {
        if pieces.len() > 0 && (r.answer matches Ok(BodyTurnView::Recv(_))) {
            let rest = pieces.skip(1);
            law_two_pieces_do_not_matter(s, routing, all);
            lemma_drive_waits_for_nothing(s, routing);
            let here = lemma_piece_arrives(r.body, pieces);
            let (next, _) = received(r.body, pieces[0].len() as i32, pieces[0]);
            let t = Session { parser: next.parser, files: s1.files };
            assert forall|i: int| 0 <= i < rest.len() implies 0 < (#[trigger] rest[i]).len()
                <= i32::MAX by {
                assert(rest[i] == pieces[i + 1]);
            }
            lemma_pieces_agree(next, routing, s1.files, rest);
            assert(feed(t, arriving(next, rest)).parser.buf =~= feed(s1, all).parser.buf);
            assert(feed(t, arriving(next, rest)) == feed(s1, all));
        } else {
            law_what_follows_the_body_is_ignored(s, routing, all);
        }
    }
}

/// As long as the session of a plain body needs more, no more bytes have
/// arrived than were announced.
spec fn announced(
    b: BodyView,
    routing: Routing,
    files: Seq<FileView>,
    all: Seq<u8>,
) -> bool {
    !b.chunked ==> (b.content_length matches Some(length) ==> forall|n: int|
        0 <= n <= all.len() && drive(
            feed(Session { parser: b.parser, files }, #[trigger] all.take(n)),
            routing,
        ).1 is NeedMore ==> b.received + n < length)
}

/// A session does not fail on the way to the end of a body.
spec fn fails_nowhere(
    s: Session,
    routing: Routing,
    all: Seq<u8>,
) -> bool {
    forall|n: int|
        0 <= n <= all.len() ==> !(drive(feed(s, #[trigger] all.take(n)), routing).1 is Fail)
}

/// A session that waits and is then given `here` ends on what follows as it
/// would have on all of it.
proof fn lemma_waiting_goes_on(s: Session, routing: Routing, here: Seq<u8>, left: Seq<u8>)
    requires
        parser_wf(s.parser),
        s.parser.wait is Nothing,
        drive(s, routing).1 is NeedMore,
    ensures
        ({
            let t = feed(drive(s, routing).0, here);
            let all = here + left;
            &&& agree(drive(feed(t, left), routing), drive(feed(s, all), routing))
            &&& forall|n: int|
                0 <= n <= left.len() ==> drive(feed(t, #[trigger] left.take(n)), routing).1
                    == drive(feed(s, all.take(here.len() + n)), routing).1
        }),
{
    let s1 = drive(s, routing).0;
    let t = feed(s1, here);
    let all = here + left;
    law_two_pieces_do_not_matter(s, routing, all);
    assert(feed(t, left).parser.buf =~= feed(s1, all).parser.buf);
    assert(feed(t, left) == feed(s1, all));
    assert forall|n: int| 0 <= n <= left.len() implies drive(
        feed(t, #[trigger] left.take(n)),
        routing,
    ).1 == drive(feed(s, all.take(here.len() + n)), routing).1 by {
        let more = all.take(here.len() + n);
        law_two_pieces_do_not_matter(s, routing, more);
        assert(feed(t, left.take(n)).parser.buf =~= feed(s1, more).parser.buf);
        assert(feed(t, left.take(n)) == feed(s1, more));
    }
}

/// A program completes where its session does, if that does not fail on the
/// way.
proof fn lemma_pieces_complete(
    b: BodyView,
    routing: Routing,
    files: Seq<FileView>,
    pieces: Seq<Seq<u8>>,
)
    requires
        between_steps(b),
        receivable(pieces),
        chunks_accepted(b, pieces),
        b.received + joined(pieces).len() <= b.max_total,
        ({
            let s = Session { parser: b.parser, files };
            let all = arriving(b, pieces);
            &&& drive(feed(s, all), routing).1 is Done
            &&& fails_nowhere(s, routing, all)
            &&& announced(b, routing, files, all)
            &&& drive(s, routing).1 is NeedMore ==> !b.network_done
        }),
    ensures
        ({
            let whole = drive(
                feed(Session { parser: b.parser, files }, arriving(b, pieces)),
                routing,
            ).0;
            let cut = received_in_pieces(b, routing, files, pieces);
            &&& is_complete(cut)
            &&& cut.body.parser.parts == whole.parser.parts
            &&& cut.files == whole.files
        }),
    decreases pieces.len(),
{
    let s = Session { parser: b.parser, files };
    let (s1, end) = drive(s, routing);
    let all = arriving(b, pieces);
    law_programs_follow_their_session(b, routing, files);
    assert(feed(s, all.take(0)).parser.buf =~= s.parser.buf);
    assert(feed(s, all.take(0)) == s);
    if end is Done {
        law_what_follows_the_body_is_ignored(s, routing, all);
    } else {
        assert(end is NeedMore);
        if pieces.len() == 0 {
            if b.chunked {
                assert(b.raw + joined(pieces) =~= b.raw);
            }
            assert(feed(s, all).parser.buf =~= s.parser.buf);
            assert(feed(s, all) == s);
            assert(false);
        }
        let r = settled(b, routing, files);
        let piece = pieces[0];
        let rest = pieces.skip(1);
        assert(joined(pieces) == piece + joined(rest));
        law_two_pieces_do_not_matter(s, routing, all);
        lemma_drive_waits_for_nothing(s, routing);
        let here = lemma_piece_arrives(r.body, pieces);
        let (next, error) = received(r.body, piece.len() as i32, piece);
        let t = Session { parser: next.parser, files: s1.files };
        let left = arriving(next, rest);
        assert(t == feed(s1, here));
        lemma_waiting_goes_on(s, routing, here, left);
        assert(feed(t, left.take(0)).parser.buf =~= t.parser.buf);
        assert(feed(t, left.take(0)) == t);
        if next.network_done && b.chunked {
            lemma_nothing_behind_the_last_chunk(next, rest);
            assert(feed(t, left) == feed(t, left.take(0)));
        }
        assert forall|i: int| 0 <= i < rest.len() implies 0 < (#[trigger] rest[i]).len()
            <= i32::MAX by {
            assert(rest[i] == pieces[i + 1]);
        }
        assert(announced(next, routing, s1.files, left));
        lemma_pieces_complete(next, routing, s1.files, rest);
    }
}

/// A program that received nothing but `initial`, with limits of its own.
pub open spec fn limited_body(
    chunked: bool,
    content_length: Option<u64>,
    boundary: Seq<char>,
    initial: Seq<u8>,
    max_buffered: nat,
    max_total: nat,
) -> BodyView {
    let fresh = fresh_body(chunked, content_length, boundary, initial);
    BodyView { max_total, parser: ParserView { max_buffered, ..fresh.parser }, ..fresh }
}

/// A session of which nothing but the line end in front of the body was read.
pub open spec fn empty_session(boundary: Seq<char>, max_buffered: nat) -> Session {
    fresh_session(delimiter_of(boundary), seq![CR, LF], max_buffered)
}

/// The body that a program reads, without its chunks.
pub open spec fn whole_body(chunked: bool, initial: Seq<u8>, pieces: Seq<Seq<u8>>) -> Seq<u8> {
    if chunked {
        run(fresh_decoder(MAX_DECODED as nat), initial + joined(pieces)).out
    } else {
        initial + joined(pieces)
    }
}

/// The session of the parser of a program.
pub open spec fn session_of(b: BodyView, files: Seq<FileView>) -> Session {
    Session { parser: b.parser, files }
}

/// The first step of a program takes what was read with the head.
proof fn lemma_first_step(
    chunked: bool,
    content_length: Option<u64>,
    boundary: Seq<char>,
    max_buffered: nat,
    max_total: nat,
    initial: Seq<u8>,
    pieces: Seq<Seq<u8>>,
) -> (here: Seq<u8>)
    requires
        initial.len() <= max_total,
    ensures
        ({
            let b = limited_body(
                chunked,
                content_length,
                boundary,
                initial,
                max_buffered,
                max_total,
            );
            let (next, error) = prepared(b, BodyEvent::Nothing);
            let s = empty_session(boundary, max_buffered);
            &&& chunked && run(
                fresh_decoder(MAX_DECODED as nat),
                initial + joined(pieces),
            ).end is Fail || error is None
            &&& error is None ==> {
                &&& chunked && run(
                    fresh_decoder(MAX_DECODED as nat),
                    initial + joined(pieces),
                ).end is Fail || chunks_accepted(next, pieces)
                &&& between_steps(next)
                &&& session_of(next, Seq::empty()) == feed(s, here)
                &&& whole_body(chunked, initial, pieces) == here + arriving(next, pieces)
                &&& here.len() + next.raw.len() <= initial.len()
                &&& next.received == initial.len()
                &&& next.max_total == max_total
                &&& next.chunked == chunked
                &&& next.content_length == content_length
                &&& !chunked ==> here == initial && next.raw.len() == 0
                &&& next.network_done ==> if chunked {
                    next.decoder->0.state is Done
                } else {
                    content_length matches Some(length) && initial.len() >= length
                }
            }
        }),
{
    let b = limited_body(chunked, content_length, boundary, initial, max_buffered, max_total);
    let s = empty_session(boundary, max_buffered);
    let here = if chunked {
        run(fresh_decoder(MAX_DECODED as nat), initial).out
    } else {
        initial
    };
    if chunked {
        lemma_decoded(b, pieces);
    }
    assert(seq![CR, LF] + Seq::<u8>::empty() =~= seq![CR, LF]);
    here
}

/// [`law_complete_bodies_are_received`], where it is known how the session goes
/// on the way.
proof fn lemma_program_completes(
    chunked: bool,
    content_length: Option<u64>,
    boundary: Seq<char>,
    routing: Routing,
    max_buffered: nat,
    max_total: nat,
    initial: Seq<u8>,
    pieces: Seq<Seq<u8>>,
)
    requires
        receivable(pieces),
        initial.len() + joined(pieces).len() <= max_total,
        chunked ==> !(run(fresh_decoder(MAX_DECODED as nat), initial + joined(pieces)).end is Fail),
        ({
            let s = empty_session(boundary, max_buffered);
            let body = whole_body(chunked, initial, pieces);
            &&& drive(feed(s, body), routing).1 is Done
            &&& fails_nowhere(s, routing, body)
            &&& !chunked ==> (content_length matches Some(length) ==> forall|n: int|
                0 <= n <= body.len() && drive(feed(s, #[trigger] body.take(n)), routing).1
                    is NeedMore ==> n < length)
        }),
    ensures
        ({
            let whole = drive(
                feed(empty_session(boundary, max_buffered), whole_body(chunked, initial, pieces)),
                routing,
            ).0;
            let cut = program_run(
                limited_body(chunked, content_length, boundary, initial, max_buffered, max_total),
                routing,
                Seq::empty(),
                pieces,
            );
            &&& is_complete(cut)
            &&& cut.body.parser.parts == whole.parser.parts
            &&& cut.files == whole.files
        }),
{
    let b = limited_body(chunked, content_length, boundary, initial, max_buffered, max_total);
    let s = empty_session(boundary, max_buffered);
    let body = whole_body(chunked, initial, pieces);
    let here = lemma_first_step(
        chunked,
        content_length,
        boundary,
        max_buffered,
        max_total,
        initial,
        pieces,
    );
    let (next, error) = prepared(b, BodyEvent::Nothing);
    lemma_completes_from(next, routing, s, here, pieces);
}

/// A program completes that stands where a session does that has read `here`.
proof fn lemma_completes_from(
    next: BodyView,
    routing: Routing,
    s: Session,
    here: Seq<u8>,
    pieces: Seq<Seq<u8>>,
)
    requires
        between_steps(next),
        receivable(pieces),
        chunks_accepted(next, pieces),
        next.received + joined(pieces).len() <= next.max_total,
        session_of(next, s.files) == feed(s, here),
        next.network_done && next.chunked ==> next.decoder->0.state is Done,
        next.network_done && !next.chunked ==> (next.content_length matches Some(length)
            && here.len() >= length),
        !next.chunked ==> next.received == here.len(),
        ({
            let body = here + arriving(next, pieces);
            &&& drive(feed(s, body), routing).1 is Done
            &&& fails_nowhere(s, routing, body)
            &&& !next.chunked ==> (next.content_length matches Some(length) ==> forall|n: int|
                0 <= n <= body.len() && drive(feed(s, #[trigger] body.take(n)), routing).1
                    is NeedMore ==> n < length)
        }),
    ensures
        ({
            let whole = drive(feed(s, here + arriving(next, pieces)), routing).0;
            let cut = received_in_pieces(next, routing, s.files, pieces);
            &&& is_complete(cut)
            &&& cut.body.parser.parts == whole.parser.parts
            &&& cut.files == whole.files
        }),
{
    let t = Session { parser: next.parser, files: s.files };
    let left = arriving(next, pieces);
    let body = here + left;
    assert forall|n: int| 0 <= n <= left.len() implies feed(t, #[trigger] left.take(n)) == feed(
        s,
        body.take(here.len() + n),
    ) by {
        assert(feed(t, left.take(n)).parser.buf =~= feed(
            s,
            body.take(here.len() + n),
        ).parser.buf);
    }
    assert(left.take(left.len() as int) =~= left);
    assert(body.take(body.len() as int) =~= body);
    assert(feed(t, left.take(0)).parser.buf =~= t.parser.buf);
    assert(feed(t, left.take(0)) == t);
    if next.network_done && next.chunked {
        lemma_nothing_behind_the_last_chunk(next, pieces);
        assert(left.take(0) =~= left);
    }
    assert(announced(next, routing, s.files, left));
    lemma_pieces_complete(next, routing, s.files, pieces);
}

/// A body that leads to its end is received, however it is divided between what
/// was read with the head and the pieces that arrive, and into chunks: a
/// program completes with the parts and the files that the whole body gives at
/// once.
///
/// Left out are header blocks that are too long to be waited for, which may be
/// refused before their end arrives.
pub proof fn law_complete_bodies_are_received(
    chunked: bool,
    content_length: Option<u64>,
    boundary: Seq<char>,
    routing: Routing,
    max_buffered: nat,
    max_total: nat,
    initial: Seq<u8>,
    pieces: Seq<Seq<u8>>,
)
    requires
        receivable(pieces),
        initial.len() + joined(pieces).len() <= max_total,
        chunked ==> !(run(fresh_decoder(MAX_DECODED as nat), initial + joined(pieces)).end is Fail),
        !chunked ==> (content_length matches Some(length) ==> initial.len() + joined(pieces).len()
            <= length),
        ({
            let whole = feed(
                empty_session(boundary, max_buffered),
                whole_body(chunked, initial, pieces),
            );
            &&& drive(whole, routing).1 is Done
            &&& headers_awaited(whole, routing)
        }),
    ensures
        ({
            let whole = drive(
                feed(empty_session(boundary, max_buffered), whole_body(chunked, initial, pieces)),
                routing,
            ).0;
            let cut = program_run(
                limited_body(chunked, content_length, boundary, initial, max_buffered, max_total),
                routing,
                Seq::empty(),
                pieces,
            );
            &&& is_complete(cut)
            &&& cut.body.parser.parts == whole.parser.parts
            &&& cut.files == whole.files
        }),
{
    let s = empty_session(boundary, max_buffered);
    let body = whole_body(chunked, initial, pieces);
    assert forall|n: int| 0 <= n <= body.len() implies !(drive(
        feed(s, #[trigger] body.take(n)),
        routing,
    ).1 is Fail) by {
        let t = feed(s, body.take(n));
        assert(feed(t, body.skip(n)).parser.buf =~= feed(s, body).parser.buf);
        assert(feed(t, body.skip(n)) == feed(s, body));
        law_complete_bodies_do_not_fail_on_the_way(t, routing, body.skip(n));
    }
    assert(body.take(body.len() as int) =~= body);
    lemma_program_completes(
        chunked,
        content_length,
        boundary,
        routing,
        max_buffered,
        max_total,
        initial,
        pieces,
    );
}

/// Where a body is cut does not matter: a program that is given a body in
/// pieces completes as one does that begins with all of it, with the same parts
/// and the same files.
///
/// Left out are header blocks that are too long to be waited for.
pub proof fn law_cuts_do_not_matter(
    content_length: Option<u64>,
    boundary: Seq<char>,
    routing: Routing,
    max_buffered: nat,
    max_total: nat,
    initial: Seq<u8>,
    pieces: Seq<Seq<u8>>,
)
    requires
        receivable(pieces),
        content_length matches Some(length) ==> initial.len() + joined(pieces).len() <= length,
        headers_awaited(
            feed(empty_session(boundary, max_buffered), initial + joined(pieces)),
            routing,
        ),
    ensures
        ({
            let whole = program_run(
                limited_body(
                    false,
                    content_length,
                    boundary,
                    initial + joined(pieces),
                    max_buffered,
                    max_total,
                ),
                routing,
                Seq::empty(),
                Seq::empty(),
            );
            let cut = program_run(
                limited_body(false, content_length, boundary, initial, max_buffered, max_total),
                routing,
                Seq::empty(),
                pieces,
            );
            is_complete(whole) ==> {
                &&& is_complete(cut)
                &&& cut.body.parser.parts == whole.body.parser.parts
                &&& cut.files == whole.files
            }
        }),
{
    let none = Seq::<Seq<u8>>::empty();
    let body = initial + joined(pieces);
    let all = limited_body(false, content_length, boundary, body, max_buffered, max_total);
    let whole = program_run(all, routing, Seq::empty(), none);
    if is_complete(whole) {
        law_bodies_arrive_in_any_pieces(all, routing, Seq::empty(), none);
        let s = Session { parser: all.parser, files: Seq::empty() };
        let fed = feed(empty_session(boundary, max_buffered), body);
        assert(feed(s, joined(none)).parser.buf =~= fed.parser.buf);
        assert(feed(s, joined(none)) == fed);
        law_complete_bodies_are_received(
            false,
            content_length,
            boundary,
            routing,
            max_buffered,
            max_total,
            initial,
            pieces,
        );
    }
}

/// A body that leads to its end is received by a program that is really stepped,
/// with a router that decides by a routing, whatever state it keeps: however the
/// body is divided between what was read with the head and the pieces that
/// arrive, and into chunks, the program ends complete, with the parts and the
/// files that the whole body gives at once.
pub proof fn law_stepped_programs_receive_complete_bodies<R: PartRouter>(
    chunked: bool,
    content_length: Option<u64>,
    boundary: Seq<char>,
    router: R,
    routing: Routing,
    known: spec_fn(R, Seq<PartHeadersView>) -> bool,
    max_buffered: nat,
    max_total: nat,
    initial: Seq<u8>,
    bufs: Seq<Vec<u8>>,
    stages: Seq<Stage<R>>,
)
    requires
        decides_by::<R>(routing, known),
        known(router, Seq::empty()),
        steps_through(
            prepared(
                limited_body(chunked, content_length, boundary, initial, max_buffered, max_total),
                BodyEvent::Nothing,
            ),
            router,
            Seq::empty(),
            bufs,
            stages,
        ),
        receivable(contents(bufs)),
        initial.len() + joined(contents(bufs)).len() <= max_total,
        chunked ==> !(run(fresh_decoder(MAX_DECODED as nat), initial + joined(contents(bufs))).end is Fail),
        !chunked ==> (content_length matches Some(length) ==> initial.len() + joined(contents(bufs)).len()
            <= length),
        ({
            let whole = feed(
                empty_session(boundary, max_buffered),
                whole_body(chunked, initial, contents(bufs)),
            );
            &&& drive(whole, routing).1 is Done
            &&& headers_awaited(whole, routing)
        }),
    ensures
        ({
            let whole = drive(
                feed(empty_session(boundary, max_buffered), whole_body(chunked, initial, contents(bufs))),
                routing,
            ).0;
            let last = stages.last().reception;
            &&& is_complete(last)
            &&& last.body.parser.parts == whole.parser.parts
            &&& last.files == whole.files
        }),
{
    let b = limited_body(chunked, content_length, boundary, initial, max_buffered, max_total);
    assert(asked_for(b.parser) =~= Seq::empty());
    law_programs_run_as_their_router_decides(
        b,
        router,
        Seq::empty(),
        bufs,
        stages,
        routing,
        known,
    );
    law_complete_bodies_are_received(
        chunked,
        content_length,
        boundary,
        routing,
        max_buffered,
        max_total,
        initial,
        contents(bufs),
    );
}

/// Where a body is cut does not matter to programs that are really stepped, with
/// routers that begin alike and decide by a routing, whatever state they keep:
/// where the one that begins with all of the body completes, the one that is
/// given it in pieces does, with the same parts and the same files.
///
/// Left out are header blocks that are too long to be waited for.
pub proof fn law_stepped_programs_do_not_mind_cuts<R: PartRouter>(
    content_length: Option<u64>,
    boundary: Seq<char>,
    router: R,
    routing: Routing,
    known: spec_fn(R, Seq<PartHeadersView>) -> bool,
    max_buffered: nat,
    max_total: nat,
    initial: Seq<u8>,
    bufs: Seq<Vec<u8>>,
    whole: Seq<Stage<R>>,
    cut: Seq<Stage<R>>,
)
    requires
        decides_by::<R>(routing, known),
        known(router, Seq::empty()),
        steps_through(
            prepared(
                limited_body(
                    false,
                    content_length,
                    boundary,
                    initial + joined(contents(bufs)),
                    max_buffered,
                    max_total,
                ),
                BodyEvent::Nothing,
            ),
            router,
            Seq::empty(),
            Seq::empty(),
            whole,
        ),
        steps_through(
            prepared(
                limited_body(false, content_length, boundary, initial, max_buffered, max_total),
                BodyEvent::Nothing,
            ),
            router,
            Seq::empty(),
            bufs,
            cut,
        ),
        receivable(contents(bufs)),
        content_length matches Some(length) ==> initial.len() + joined(contents(bufs)).len() <= length,
        headers_awaited(
            feed(empty_session(boundary, max_buffered), initial + joined(contents(bufs))),
            routing,
        ),
    ensures
        is_complete(whole.last().reception) ==> {
            &&& is_complete(cut.last().reception)
            &&& cut.last().reception.body.parser.parts == whole.last().reception.body.parser.parts
            &&& cut.last().reception.files == whole.last().reception.files
        },
{
    let none = Seq::<Vec<u8>>::empty();
    assert(contents(none) =~= Seq::empty());
    let files = Seq::<FileView>::empty();
    let all = limited_body(
        false,
        content_length,
        boundary,
        initial + joined(contents(bufs)),
        max_buffered,
        max_total,
    );
    let b = limited_body(false, content_length, boundary, initial, max_buffered, max_total);
    assert(asked_for(all.parser) =~= Seq::empty());
    assert(asked_for(b.parser) =~= Seq::empty());
    law_programs_run_as_their_router_decides(all, router, files, none, whole, routing, known);
    law_programs_run_as_their_router_decides(b, router, files, bufs, cut, routing, known);
    law_cuts_do_not_matter(
        content_length,
        boundary,
        routing,
        max_buffered,
        max_total,
        initial,
        contents(bufs),
    );
}

/// A body as it is sent: the first boundary, and what follows it.
pub open spec fn sent_body(boundary: Seq<char>, parts: Seq<SentPart>) -> Seq<u8> {
    dashes() + encode_utf8(boundary) + encode_rest(delimiter_of(boundary), parts)
}

/// Parts can be sent and received: none of them holds a boundary, no headers
/// are too long to be waited for, and no part that is kept in memory is too
/// long for that.
pub open spec fn sendable(
    boundary: Seq<char>,
    routing: Routing,
    parts: Seq<SentPart>,
    max_buffered: nat,
) -> bool {
    &&& forall|i: int|
        0 <= i < parts.len() ==> {
            &&& can_be_sent(delimiter_of(boundary), #[trigger] parts[i])
            &&& can_be_awaited(parts[i])
        }
    &&& all_fit(Seq::empty(), parts, routing, max_buffered)
}

/// How a session goes on a body that was sent, and what follows it: it waits
/// until all of the body arrived, and is done then.
proof fn lemma_sent_session(
    boundary: Seq<char>,
    routing: Routing,
    parts: Seq<SentPart>,
    max_buffered: nat,
    more: Seq<u8>,
    n: int,
)
    requires
        sendable(boundary, routing, parts, max_buffered),
        0 <= n <= (sent_body(boundary, parts) + more).len(),
    ensures
        ({
            let all = sent_body(boundary, parts) + more;
            let end = drive(feed(empty_session(boundary, max_buffered), all.take(n)), routing);
            if n < sent_body(boundary, parts).len() {
                end.1 is NeedMore
            } else {
                &&& end.1 is Done
                &&& end.0.parser.parts == received_parts(Seq::empty(), parts, routing)
                &&& end.0.files == written_files(Seq::empty(), Seq::empty(), parts, routing)
            }
        }),
{
    let d = delimiter_of(boundary);
    let s = empty_session(boundary, max_buffered);
    let sent = sent_body(boundary, parts);
    let all = sent + more;
    let arrived = seq![CR, LF] + all.take(n);
    assert(feed(s, all.take(n)) == fresh_session(d, arrived, max_buffered));
    assert(seq![CR, LF] + sent =~= encode_parts(d, parts));
    if n < sent.len() {
        assert(arrived + sent.skip(n) =~= encode_parts(d, parts));
        law_incomplete_bodies_are_awaited(d, max_buffered, routing, parts, arrived, sent.skip(n));
    } else {
        let behind = all.take(n).skip(sent.len() as int);
        assert(arrived =~= encode_parts(d, parts) + behind);
        law_sent_parts_read_back(d, max_buffered, routing, parts, behind);
    }
}

/// What is sent is received, however it is divided between what was read with
/// the head and the pieces that arrive, and whatever follows it: a program
/// completes with the parts as they were sent, in order, each stored as it is
/// routed.
pub proof fn law_sent_bodies_are_received(
    content_length: Option<u64>,
    boundary: Seq<char>,
    routing: Routing,
    max_buffered: nat,
    max_total: nat,
    parts: Seq<SentPart>,
    more: Seq<u8>,
    initial: Seq<u8>,
    pieces: Seq<Seq<u8>>,
)
    requires
        sendable(boundary, routing, parts, max_buffered),
        receivable(pieces),
        initial + joined(pieces) == sent_body(boundary, parts) + more,
        initial.len() + joined(pieces).len() <= max_total,
        content_length matches Some(length) ==> sent_body(boundary, parts).len() <= length,
    ensures
        ({
            let cut = program_run(
                limited_body(false, content_length, boundary, initial, max_buffered, max_total),
                routing,
                Seq::empty(),
                pieces,
            );
            &&& is_complete(cut)
            &&& cut.body.parser.parts == received_parts(Seq::empty(), parts, routing)
            &&& cut.files == written_files(Seq::empty(), Seq::empty(), parts, routing)
        }),
{
    let body = initial + joined(pieces);
    let s = empty_session(boundary, max_buffered);
    assert forall|n: int| 0 <= n <= body.len() implies ({
        let end = drive(feed(s, #[trigger] body.take(n)), routing).1;
        !(end is Fail) && (end is NeedMore ==> n < sent_body(boundary, parts).len())
    }) by {
        lemma_sent_session(boundary, routing, parts, max_buffered, more, n);
    }
    lemma_sent_session(boundary, routing, parts, max_buffered, more, body.len() as int);
    assert(body.take(body.len() as int) =~= body);
    lemma_program_completes(
        false,
        content_length,
        boundary,
        routing,
        max_buffered,
        max_total,
        initial,
        pieces,
    );
}

/// What is sent in chunks is received, whatever the chunks are, however they
/// are divided between what was read with the head and the pieces that arrive,
/// and whatever follows them.
pub proof fn law_bodies_sent_in_chunks_are_received(
    content_length: Option<u64>,
    boundary: Seq<char>,
    routing: Routing,
    max_buffered: nat,
    max_total: nat,
    parts: Seq<SentPart>,
    behind: Seq<u8>,
    chunks: Seq<Seq<u8>>,
    more: Seq<u8>,
    initial: Seq<u8>,
    pieces: Seq<Seq<u8>>,
)
    requires
        sendable(boundary, routing, parts, max_buffered),
        joined(chunks) == sent_body(boundary, parts) + behind,
        joined(chunks).len() <= MAX_DECODED,
        forall|i: int| 0 <= i < chunks.len() ==> (#[trigger] chunks[i]).len() > 0,
        receivable(pieces),
        initial + joined(pieces) == encode_chunks(chunks) + more,
        initial.len() + joined(pieces).len() <= max_total,
    ensures
        ({
            let cut = program_run(
                limited_body(true, content_length, boundary, initial, max_buffered, max_total),
                routing,
                Seq::empty(),
                pieces,
            );
            &&& is_complete(cut)
            &&& cut.body.parser.parts == received_parts(Seq::empty(), parts, routing)
            &&& cut.files == written_files(Seq::empty(), Seq::empty(), parts, routing)
        }),
{
    let body = joined(chunks);
    let s = empty_session(boundary, max_buffered);
    law_encoded_chunks_read_back(fresh_decoder(MAX_DECODED as nat), chunks, more);
    assert(whole_body(true, initial, pieces) == body);
    assert forall|n: int| 0 <= n <= body.len() implies !(drive(
        feed(s, #[trigger] body.take(n)),
        routing,
    ).1 is Fail) by {
        lemma_sent_session(boundary, routing, parts, max_buffered, behind, n);
    }
    lemma_sent_session(boundary, routing, parts, max_buffered, behind, body.len() as int);
    assert(body.take(body.len() as int) =~= body);
    lemma_program_completes(
        true,
        content_length,
        boundary,
        routing,
        max_buffered,
        max_total,
        initial,
        pieces,
    );
}

/// What is sent is received by a program that is really stepped, with a router
/// that decides by a routing, whatever state it keeps: of a plain body, or one in
/// chunks, of which all that arrived is first what was read with the head and then
/// what the buffers hold, the program completes with the parts as they were sent,
/// in order, each stored as it is routed, and with their files.
pub proof fn law_stepped_programs_receive_what_is_sent<R: PartRouter>(
    chunked: bool,
    content_length: Option<u64>,
    boundary: Seq<char>,
    router: R,
    routing: Routing,
    known: spec_fn(R, Seq<PartHeadersView>) -> bool,
    max_buffered: nat,
    max_total: nat,
    parts: Seq<SentPart>,
    behind: Seq<u8>,
    chunks: Seq<Seq<u8>>,
    more: Seq<u8>,
    initial: Seq<u8>,
    bufs: Seq<Vec<u8>>,
    stages: Seq<Stage<R>>,
)
    requires
        decides_by::<R>(routing, known),
        known(router, Seq::empty()),
        sendable(boundary, routing, parts, max_buffered),
        receivable(contents(bufs)),
        initial.len() + joined(contents(bufs)).len() <= max_total,
        !chunked ==> {
            &&& initial + joined(contents(bufs)) == sent_body(boundary, parts) + more
            &&& content_length matches Some(length) ==> sent_body(boundary, parts).len() <= length
        },
        chunked ==> {
            &&& initial + joined(contents(bufs)) == encode_chunks(chunks) + more
            &&& joined(chunks) == sent_body(boundary, parts) + behind
            &&& joined(chunks).len() <= MAX_DECODED
            &&& forall|i: int| 0 <= i < chunks.len() ==> (#[trigger] chunks[i]).len() > 0
        },
        steps_through(
            prepared(
                limited_body(chunked, content_length, boundary, initial, max_buffered, max_total),
                BodyEvent::Nothing,
            ),
            router,
            Seq::empty(),
            bufs,
            stages,
        ),
    ensures
        ({
            let last = stages.last().reception;
            &&& is_complete(last)
            &&& last.body.parser.parts == received_parts(Seq::empty(), parts, routing)
            &&& last.files == written_files(Seq::empty(), Seq::empty(), parts, routing)
        }),
{
    let b = limited_body(chunked, content_length, boundary, initial, max_buffered, max_total);
    assert(asked_for(b.parser) =~= Seq::empty());
    law_programs_run_as_their_router_decides(
        b,
        router,
        Seq::empty(),
        bufs,
        stages,
        routing,
        known,
    );
    if chunked {
        law_bodies_sent_in_chunks_are_received(
            content_length,
            boundary,
            routing,
            max_buffered,
            max_total,
            parts,
            behind,
            chunks,
            more,
            initial,
            contents(bufs),
        );
    } else {
        law_sent_bodies_are_received(
            content_length,
            boundary,
            routing,
            max_buffered,
            max_total,
            parts,
            more,
            initial,
            contents(bufs),
        );
    }
}

/// How many bytes the bodies of parts take together.
pub open spec fn bodies_len(parts: Seq<SentPart>) -> nat
    decreases parts.len(),
{
    if parts.len() == 0 {
        0
    } else {
        parts[0].body.len() + bodies_len(parts.skip(1))
    }
}

proof fn lemma_bodies_are_sent(delimiter: Seq<u8>, parts: Seq<SentPart>)
    ensures
        bodies_len(parts) <= encode_rest(delimiter, parts).len(),
    decreases parts.len(),
{
    if parts.len() > 0 {
        lemma_bodies_are_sent(delimiter, parts.skip(1));
    }
}

/// Where a program completes, its session was done with bytes that arrived
/// within the limit, and where it wants more, all that arrived is within it.
proof fn lemma_complete_within_limit(
    b: BodyView,
    routing: Routing,
    files: Seq<FileView>,
    pieces: Seq<Seq<u8>>,
)
    requires
        between_steps(b),
        receivable(pieces),
    ensures
        ({
            let cut = received_in_pieces(b, routing, files, pieces);
            let all = arriving(b, pieces);
            let s = session_of(b, files);
            &&& is_complete(cut) ==> exists|n: int|
                0 <= n <= all.len() && n <= b.max_total - b.received + b.raw.len() && drive(
                    feed(s, #[trigger] all.take(n)),
                    routing,
                ).1 is Done
            &&& cut.answer is Ok && !is_complete(cut) ==> b.received + joined(pieces).len()
                <= b.max_total
        }),
    decreases pieces.len(),
{
    let s = session_of(b, files);
    let (s1, end) = drive(s, routing);
    let r = settled(b, routing, files);
    let all = arriving(b, pieces);
    law_programs_follow_their_session(b, routing, files);
    assert(feed(s, all.take(0)).parser.buf =~= s.parser.buf);
    assert(feed(s, all.take(0)) == s);
    if pieces.len() > 0 && (r.answer matches Ok(BodyTurnView::Recv(_))) {
        let rest = pieces.skip(1);
        let piece = pieces[0];
        assert(joined(pieces) == piece + joined(rest));
        law_two_pieces_do_not_matter(s, routing, all);
        lemma_drive_waits_for_nothing(s, routing);
        let here = lemma_piece_arrives(r.body, pieces);
        let (next, error) = received(r.body, piece.len() as i32, piece);
        if error is None {
            let t = session_of(next, s1.files);
            let left = arriving(next, rest);
            assert(t == feed(s1, here));
            lemma_waiting_goes_on(s, routing, here, left);
            assert forall|i: int| 0 <= i < rest.len() implies 0 < (#[trigger] rest[i]).len()
                <= i32::MAX by {
                assert(rest[i] == pieces[i + 1]);
            }
            lemma_complete_within_limit(next, routing, s1.files, rest);
            if is_complete(received_in_pieces(b, routing, files, pieces)) {
                let n = choose|n: int|
                    0 <= n <= left.len() && n <= next.max_total - next.received + next.raw.len()
                        && drive(feed(t, #[trigger] left.take(n)), routing).1 is Done;
                assert(drive(feed(s, all.take(here.len() + n)), routing).1 is Done);
            }
        }
    } else if end is Done {
        assert(drive(feed(s, all.take(0)), routing).1 is Done);
    }
}

/// Less than a body that was sent is never taken for complete.
proof fn lemma_less_is_incomplete(
    boundary: Seq<char>,
    routing: Routing,
    max_buffered: nat,
    parts: Seq<SentPart>,
    k: int,
)
    requires
        forall|i: int|
            0 <= i < parts.len() ==> can_be_sent(delimiter_of(boundary), #[trigger] parts[i]),
        0 <= k < sent_body(boundary, parts).len(),
    ensures
        !(drive(
            feed(empty_session(boundary, max_buffered), sent_body(boundary, parts).take(k)),
            routing,
        ).1 is Done),
{
    let d = delimiter_of(boundary);
    let sent = sent_body(boundary, parts);
    let arrived = seq![CR, LF] + sent.take(k);
    assert(seq![CR, LF] + sent =~= encode_parts(d, parts));
    assert(arrived + sent.skip(k) =~= seq![CR, LF] + sent);
    law_incomplete_bodies_are_awaited(
        d,
        max_buffered,
        routing,
        parts,
        arrived,
        sent.skip(k),
    );
    assert(feed(empty_session(boundary, max_buffered), sent.take(k)) == fresh_session(
        d,
        arrived,
        max_buffered,
    ));
}

/// A body whose parts are together longer than the limit is refused, however
/// it is divided between what was read with the head and the pieces that
/// arrive, and into chunks.
pub proof fn law_long_bodies_are_refused(
    chunked: bool,
    content_length: Option<u64>,
    boundary: Seq<char>,
    routing: Routing,
    max_buffered: nat,
    max_total: nat,
    parts: Seq<SentPart>,
    more: Seq<u8>,
    initial: Seq<u8>,
    pieces: Seq<Seq<u8>>,
)
    requires
        forall|i: int|
            0 <= i < parts.len() ==> can_be_sent(delimiter_of(boundary), #[trigger] parts[i]),
        receivable(pieces),
        whole_body(chunked, initial, pieces) == sent_body(boundary, parts) + more,
        bodies_len(parts) > max_total,
    ensures
        program_run(
            limited_body(chunked, content_length, boundary, initial, max_buffered, max_total),
            routing,
            Seq::empty(),
            pieces,
        ).answer is Err,
{
    let d = delimiter_of(boundary);
    let b = limited_body(chunked, content_length, boundary, initial, max_buffered, max_total);
    let s = empty_session(boundary, max_buffered);
    let sent = sent_body(boundary, parts);
    let body = whole_body(chunked, initial, pieces);
    lemma_bodies_are_sent(d, parts);
    lemma_decoding_consumes(fresh_decoder(MAX_DECODED as nat), initial + joined(pieces));
    let cut = program_run(b, routing, Seq::empty(), pieces);
    if initial.len() <= max_total {
        let here = lemma_first_step(
            chunked,
            content_length,
            boundary,
            max_buffered,
            max_total,
            initial,
            pieces,
        );
        let (next, error) = prepared(b, BodyEvent::Nothing);
        if error is None {
            let t = session_of(next, Seq::empty());
            let left = arriving(next, pieces);
            lemma_complete_within_limit(next, routing, Seq::empty(), pieces);
            if is_complete(cut) {
                let n = choose|n: int|
                    0 <= n <= left.len() && n <= next.max_total - next.received + next.raw.len()
                        && drive(feed(t, #[trigger] left.take(n)), routing).1 is Done;
                let k = (here.len() + n) as int;
                lemma_less_is_incomplete(boundary, routing, max_buffered, parts, k);
                assert(feed(t, left.take(n)) == feed(s, sent.take(k))) by {
                    assert(here + left.take(n) =~= body.take(k));
                    assert(body.take(k) =~= sent.take(k));
                    assert(feed(t, left.take(n)).parser.buf =~= seq![CR, LF] + (here + left.take(
                        n,
                    )));
                }
            }
        }
    }
}

} // verus!
