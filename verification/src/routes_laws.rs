//! What holds of routing and of the answers as a whole.

use vstd::prelude::*;
use vstd::utf8::{encode_utf8, is_ascii_chars_encode_utf8};

use crate::chunked_laws::{encode_chunks, joined};
use crate::content_laws::{law_requests_give_their_boundary, lemma_one_piece, lemma_trimmed_already, multipart_type, plain_boundary};
use crate::multipart::{answer, prepared, BodyEvent, BodyTurnView, BodyView};
use crate::multipart_laws::{contents, is_complete, law_all_that_is_received_counts, law_bodies_sent_in_chunks_are_received, law_limits_by_default, law_sent_bodies_are_received, lemma_complete_is_received, lemma_file_leads_on, lemma_parse_by_keeps_order, lemma_prepared_keeps_asked, limited_body, parse_by, receivable, received_in_pieces, sendable, sent_body, settled};
use crate::parser::{all_received, parser_wf, ParseEnd, Pause};
use crate::parser_laws::{append_last, received_parts, written_files, FileView, SentPart};
use crate::parts::{DispositionView, PartHeadersView, PartView};
use crate::request::{chunked_body, content_type_in, header_value, length_of_body, ContentTypeError, ContentTypeView, RequestView};
use crate::request_laws::{is_blank, lemma_trimmed_blanks, law_codings_of_bodies_read_back, law_lengths_of_bodies_read_back, law_one_coding_is_compared};
use crate::response::{head_bytes, reason_phrase, BAD_REQUEST};
use crate::routes::{begins_tail, body_event, embed_choice, embed_counts, embed_routing, embed_step, fresh_embed, handler_counts, handler_for, handler_step, handler_submitted, path_of, route_of, route_view, segments, upload_step, EmbedFileProgram, EmbedView, HandlerView, RouteError, RouteEvent, RouteHandler, RouteTurn, RouteTurnView};
use crate::seqs::{lemma_until, lemma_until_is, lemma_without_end, trim_start, without_end};
use crate::text::{decimal, decimal_text, filled, is_whitespace, lemma_split_join, split_at_char, trimmed};

verus! {

/// A text has no white space around it.
pub open spec fn is_bare(s: Seq<char>) -> bool {
    s.len() > 0 ==> !is_whitespace(s[0]) && !is_whitespace(s.last())
}

/// A text of which a character that is no white space stands at `at` keeps
/// all up to there, if it does not begin with white space.
proof fn lemma_trimmed_keeps(s: Seq<char>, at: int)
    requires
        0 <= at < s.len(),
        !is_whitespace(s[0]),
        !is_whitespace(s[at]),
    ensures
        trimmed(s).len() > at,
        trimmed(s).take(at + 1) == s.take(at + 1),
{
    let p = |c: char| is_whitespace(c);
    assert(trim_start(s, p) =~= s);
    lemma_without_end(s, p);
    let n = without_end(s, p);
    if n <= at {
        assert(p(s[at]));
    }
    assert(trimmed(s) =~= s.take(n as int));
    assert(s.take(n as int).take(at + 1) =~= s.take(at + 1));
}

proof fn lemma_path_is(target: Seq<char>, path: Seq<char>)
    requires
        trimmed(target).len() >= path.len(),
        trimmed(target).take(path.len() as int) == path,
        forall|i: int| 0 <= i < path.len() ==> #[trigger] path[i] != '?' && path[i] != '#',
        trimmed(target).len() > path.len() ==> begins_tail()(trimmed(target)[path.len() as int]),
    ensures
        path_of(target) == path,
{
    let text = trimmed(target);
    assert forall|i: int| 0 <= i < path.len() implies !begins_tail()(#[trigger] text[i]) by {
        assert(text.take(path.len() as int)[i] == path[i]);
    }
    lemma_until_is(text, begins_tail(), path.len());
}

/// Query and fragment do not matter for where a request is routed to.
pub proof fn law_query_and_fragment_are_ignored(
    method: Seq<char>,
    path: Seq<char>,
    mark: char,
    tail: Seq<char>,
)
    requires
        is_bare(path),
        forall|i: int| 0 <= i < path.len() ==> #[trigger] path[i] != '?' && path[i] != '#',
        mark == '?' || mark == '#',
    ensures
        path_of(path + seq![mark] + tail) == path,
        route_of(method, path + seq![mark] + tail) == route_of(method, path),
{
    let target = path + seq![mark] + tail;
    let n = path.len() as int;
    lemma_trimmed_keeps(target, n);
    assert(target.take(n + 1) =~= path.push(mark));
    assert(trimmed(target)[n] == trimmed(target).take(n + 1)[n]);
    assert(trimmed(target).take(n) =~= trimmed(target).take(n + 1).take(n));
    assert(path.push(mark).take(n) =~= path);
    lemma_path_is(target, path);
    if path.len() > 0 {
        lemma_trimmed_keeps(path, n - 1);
        let p = |c: char| is_whitespace(c);
        lemma_until(path, |c: char| !p(c));
        lemma_without_end(trim_start(path, p), p);
        assert(trimmed(path).len() <= path.len());
        assert(path.take(n) =~= path);
        assert(trimmed(path) =~= trimmed(path).take(n));
    } else {
        assert(trimmed(path) =~= path);
    }
    assert(trimmed(path).take(n) =~= path);
    lemma_path_is(path, path);
}

proof fn lemma_filled_join(a: Seq<Seq<char>>, b: Seq<Seq<char>>)
    ensures
        filled(a + b) == filled(a) + filled(b),
    decreases a.len(),
{
    if a.len() == 0 {
        assert(a + b =~= b);
        assert(filled(a) + filled(b) =~= filled(b));
    } else {
        lemma_filled_join(a.skip(1), b);
        assert((a + b).skip(1) =~= a.skip(1) + b);
        assert((a + b)[0] == a[0]);
        assert(seq![a[0]] + (filled(a.skip(1)) + filled(b)) =~= (seq![a[0]] + filled(a.skip(1)))
            + filled(b));
    }
}

/// A slash only separates: the segments of two paths that are joined by one
/// are those of both, so that slashes at either end, and several in a row, do
/// not matter.
pub proof fn law_slashes_only_separate(a: Seq<char>, b: Seq<char>)
    ensures
        segments(a + seq!['/'] + b) == segments(a) + segments(b),
        segments(Seq::empty()).len() == 0,
{
    lemma_split_join(a, '/', b);
    lemma_filled_join(split_at_char(a, '/'), split_at_char(b, '/'));
    let none = split_at_char(Seq::empty(), '/');
    assert(none.skip(1) =~= Seq::empty());
    reveal_with_fuel(filled, 2);
}

/// Whatever a handler sends is its last word: once it was handed to the
/// socket, the request is answered.
pub proof fn law_what_is_sent_answers(v: HandlerView, event: RouteEvent, later: RouteEvent)
    ensures
        ({
            let (next, result) = handler_step(v, event);
            result is Ok && result->Ok_0 is Send ==> {
                let (end, last) = handler_step(handler_submitted(next), later);
                &&& last is Ok && last->Ok_0 is Complete
                &&& end == handler_submitted(next)
            }
        }),
{
}

/// An upload asks for its parts to be deserialized once all of them are
/// received, and is answered as soon as they were. Nothing else is answered in
/// this way: as long as a part is missing, it does not count that parts were
/// deserialized.
pub proof fn law_only_complete_uploads_are_answered(body: BodyView, event: RouteEvent)
    requires
        parser_wf(body.parser),
    ensures
        ({
            let (next, result) = embed_step(EmbedView::Receiving(body), event);
            &&& result is Ok && result->Ok_0 is Deserialize ==> {
                &&& embed_step(next, RouteEvent::Deserialized(true)) == (
                    EmbedView::Responding { status: 200, sending: false },
                    Ok::<RouteTurnView, RouteError>(
                        RouteTurnView::Send {
                            bytes: head_bytes(200, "OK"@, Seq::empty()),
                            required: false,
                        },
                    ),
                )
                &&& embed_step(next, RouteEvent::Deserialized(false)) == (
                    next,
                    Err::<RouteTurnView, RouteError>(RouteError::NotDeserialized),
                )
            }
            &&& (next matches EmbedView::Responding { status, .. } && status == 200) ==> {
                &&& all_received(body.parser)
                &&& event == RouteEvent::Deserialized(true)
            }
        }),
{
    let (ready, error) = prepared(body, body_event(event));
    if error is None {
        lemma_prepared_keeps_asked(body, body_event(event));
        lemma_complete_is_received(ready.parser, embed_routing());
    }
}

/// What the body of an upload wants done is what the upload asks for, with the
/// same path and the same bytes.
pub proof fn law_what_the_body_wants_is_asked_for(body: BodyView, event: RouteEvent, id: Seq<char>)
    requires
        !(event is Deserialized),
    ensures
        ({
            let (next, turn) = upload_step(body, body_event(event));
            let (after, result) = handler_step(
                HandlerView::Embed { upload: EmbedView::Receiving(body), id },
                event,
            );
            turn matches Ok(turn) ==> {
                &&& after == (HandlerView::Embed { upload: EmbedView::Receiving(next), id })
                &&& result == Ok::<RouteTurnView, RouteError>(
                    match turn {
                        BodyTurnView::Recv(n) => RouteTurnView::Recv(n),
                        BodyTurnView::CreateFile(path) => RouteTurnView::CreateFile(path),
                        BodyTurnView::WriteFile(data) => RouteTurnView::WriteFile(data),
                        BodyTurnView::FlushFile => RouteTurnView::FlushFile,
                        BodyTurnView::Complete => RouteTurnView::Deserialize,
                    },
                )
            }
        }),
{
}

/// JSON is kept in memory, files are written under their name to the directory
/// for temporary files, and all else is discarded.
pub proof fn law_parts_of_uploads_are_told_apart(
    before: Seq<PartView>,
    headers: PartHeadersView,
    at: int,
)
    ensures
        embed_routing()(before, headers) == embed_choice(headers),
        headers.content_type matches Some(text) && 0 <= at && at + 4 <= text.len() && text.subrange(
            at,
            at + 4,
        ) == seq!['j', 's', 'o', 'n'] ==> embed_choice(headers) is Buffer,
        embed_choice(headers) is Buffer ==> headers.content_type is Some && exists|k: int|
            0 <= k && k + 4 <= headers.content_type->0.len()
                && #[trigger] headers.content_type->0.subrange(k, k + 4) == seq![
                'j',
                's',
                'o',
                'n',
            ],
        !(embed_choice(headers) is Buffer) ==> embed_choice(headers) == match headers.filename {
            Some(name) => DispositionView::StreamToFile(seq!['/', 't', 'm', 'p', '/'] + name),
            None => DispositionView::Discard,
        },
{
    reveal_strlit("json");
    reveal_strlit("/tmp/");
    assert("json"@ =~= seq!['j', 's', 'o', 'n']);
    assert("/tmp/"@ =~= seq!['/', 't', 'm', 'p', '/']);
    if embed_choice(headers) is Buffer {
        let text = headers.content_type->0;
        let k = choose|k: int|
            0 <= k && k + "json"@.len() <= text.len() && #[trigger] text.subrange(
                k,
                k + "json"@.len(),
            ) == "json"@;
        assert(text.subrange(k, k + 4) == "json"@);
    }
}

/// A segment of a path: it is not empty, and holds no slash, no mark that begins
/// a query or a fragment, and no white space.
pub open spec fn is_segment(s: Seq<char>) -> bool {
    &&& s.len() > 0
    &&& forall|i: int| 0 <= i < s.len() ==> {
        &&& #[trigger] s[i] != '/'
        &&& s[i] != '?'
        &&& s[i] != '#'
        &&& !is_whitespace(s[i])
    }
}

/// All of them are segments.
pub open spec fn are_segments(parts: Seq<Seq<char>>) -> bool {
    forall|i: int| 0 <= i < parts.len() ==> is_segment(#[trigger] parts[i])
}

/// The path with these segments, each behind a slash.
pub open spec fn path_with(parts: Seq<Seq<char>>) -> Seq<char>
    decreases parts.len(),
{
    if parts.len() == 0 {
        Seq::empty()
    } else {
        path_with(parts.drop_last()) + seq!['/'] + parts.last()
    }
}

proof fn lemma_path_plain(parts: Seq<Seq<char>>)
    requires
        are_segments(parts),
    ensures
        segments(path_with(parts)) == parts,
        parts.len() > 0 ==> path_with(parts).len() > 1 && path_with(parts)[0] == '/',
        forall|i: int| 0 <= i < path_with(parts).len() ==> {
            &&& #[trigger] path_with(parts)[i] != '?'
            &&& path_with(parts)[i] != '#'
            &&& !is_whitespace(path_with(parts)[i])
        },
    decreases parts.len(),
{
    let path = path_with(parts);
    if parts.len() == 0 {
        law_slashes_only_separate(Seq::empty(), Seq::empty());
        assert(segments(path) =~= parts);
    } else {
        let init = parts.drop_last();
        let last = parts.last();
        assert(is_segment(parts[parts.len() - 1]));
        assert forall|i: int| 0 <= i < init.len() implies is_segment(#[trigger] init[i]) by {
            assert(init[i] == parts[i]);
        }
        lemma_path_plain(init);
        law_slashes_only_separate(path_with(init), last);
        lemma_one_piece(last, '/');
        assert(seq![last].skip(1) =~= Seq::empty());
        assert(filled(seq![last]) =~= seq![last]) by {
            reveal_with_fuel(filled, 2);
        }
        assert(init + seq![last] =~= parts);
        let n = path_with(init).len() as int;
        assert forall|i: int| 0 <= i < path.len() implies {
            &&& #[trigger] path[i] != '?'
            &&& path[i] != '#'
            &&& !is_whitespace(path[i])
        } by {
            if i < n {
                assert(path[i] == path_with(init)[i]);
            } else if i > n {
                assert(path[i] == last[i - n - 1]);
            }
        }
        if n > 0 {
            assert(path[0] == path_with(init)[0]);
        }
    }
}

/// A request is routed by its path and its method: without any segment to the
/// health check, with `db` and an id to an upload for exactly that id where the
/// method is `POST`, to the health check where it is `GET`, and to status 405
/// otherwise, and with any other segments to status 404.
pub proof fn law_requests_are_routed(request: RequestView, parts: Seq<Seq<char>>)
    requires
        are_segments(parts),
        request.path == path_with(parts) || (parts.len() == 0 && request.path == seq!['/']),
    ensures
        handler_for(request) == if parts.len() == 0 {
            HandlerView::HealthCheck { sending: false }
        } else if parts.len() == 2 && parts[0] == seq!['d', 'b'] {
            if request.method == seq!['P', 'O', 'S', 'T'] {
                HandlerView::Embed { upload: fresh_embed(request), id: parts[1] }
            } else if request.method == seq!['G', 'E', 'T'] {
                HandlerView::HealthCheck { sending: false }
            } else {
                HandlerView::HttpError { status: 405, sending: false }
            }
        } else {
            HandlerView::HttpError { status: 404, sending: false }
        },
{
    reveal_strlit("db");
    reveal_strlit("POST");
    reveal_strlit("GET");
    assert("db"@ =~= seq!['d', 'b']);
    assert("POST"@ =~= seq!['P', 'O', 'S', 'T']);
    assert("GET"@ =~= seq!['G', 'E', 'T']);
    let path = request.path;
    lemma_path_plain(parts);
    law_slashes_only_separate(Seq::empty(), Seq::empty());
    assert(Seq::<char>::empty() + seq!['/'] + Seq::<char>::empty() =~= seq!['/']);
    assert(segments(path) =~= parts);
    lemma_trimmed_already(path);
    assert(path.take(path.len() as int) =~= path);
    lemma_path_is(path, path);
}

/// The upload that a request begins: that of its multipart body, with its
/// boundary, of which the bytes behind the head are received. With both a length
/// and chunks, or without such a body, the request is a bad one.
pub proof fn law_requests_begin_uploads(
    request: RequestView,
    boundary: Seq<char>,
    length: u64,
)
    requires
        plain_boundary(boundary),
        request.body_offset <= request.buf.len(),
    ensures
        ({
            let h = request.headers;
            let typed = header_value(h, "content-type"@) == Some(
                encode_utf8(multipart_type(boundary)),
            );
            let chunked = header_value(h, "transfer-encoding"@) == Some(encode_utf8("chunked"@));
            let measured = header_value(h, "content-length"@) == Some(
                encode_utf8(decimal_text(length as nat)),
            );
            let whole = header_value(h, "transfer-encoding"@) is None;
            let open = header_value(h, "content-length"@) is None;
            let initial = request.buf.skip(request.body_offset as int);
            let bad = EmbedView::Responding { status: 400, sending: false };
            &&& typed && whole && measured ==> fresh_embed(request) == EmbedView::Receiving(
                limited_body(
                    false,
                    Some(length),
                    boundary,
                    initial,
                    2 * 1024 * 1024,
                    128 * 1024 * 1024,
                ),
            )
            &&& typed && whole && open ==> fresh_embed(request) == EmbedView::Receiving(
                limited_body(
                    false,
                    None,
                    boundary,
                    initial,
                    2 * 1024 * 1024,
                    128 * 1024 * 1024,
                ),
            )
            &&& typed && chunked && open ==> fresh_embed(request) == EmbedView::Receiving(
                limited_body(
                    true,
                    None,
                    boundary,
                    initial,
                    2 * 1024 * 1024,
                    128 * 1024 * 1024,
                ),
            )
            &&& chunked && measured ==> fresh_embed(request) == bad
            &&& !(content_type_in(h) matches Ok(ContentTypeView::MultiPart(_))) ==> fresh_embed(
                request,
            ) == bad
        }),
{
    let h = request.headers;
    let none = Seq::<char>::empty();
    let initial = request.buf.skip(request.body_offset as int);
    reveal_strlit("chunked");
    if header_value(h, "content-type"@) == Some(encode_utf8(multipart_type(boundary))) {
        law_requests_give_their_boundary(h, boundary);
    }
    law_codings_of_bodies_read_back(h, "chunked"@);
    law_one_coding_is_compared(none, "chunked"@, none);
    assert(none + "chunked"@ + none =~= "chunked"@);
    law_lengths_of_bodies_read_back(h, none, none, none, length);
    assert(none + decimal_text(length as nat) + none =~= decimal_text(length as nat));
    law_limits_by_default(false, Some(length), boundary, initial);
    law_limits_by_default(false, None, boundary, initial);
    law_limits_by_default(true, None, boundary, initial);
}

/// The upload that a request begins is that of its body, however the headers say
/// what that is.
pub proof fn law_uploads_are_of_the_body(request: RequestView, boundary: Seq<char>)
    requires
        content_type_in(request.headers) == Ok::<ContentTypeView, ContentTypeError>(
            ContentTypeView::MultiPart(boundary),
        ),
    ensures
        fresh_embed(request) == if chunked_body(request.headers) && length_of_body(
            request.headers,
        ) is Some {
            EmbedView::Responding { status: 400, sending: false }
        } else {
            EmbedView::Receiving(
                limited_body(
                    chunked_body(request.headers),
                    length_of_body(request.headers),
                    boundary,
                    request.buf.skip(request.body_offset as int),
                    2 * 1024 * 1024,
                    128 * 1024 * 1024,
                ),
            )
        },
{
}

/// What a request is answered does not depend on how many slashes stand between
/// the segments of its path, nor on a query or a fragment, nor on blanks around it.
pub proof fn law_only_segments_matter(
    request: RequestView,
    before: Seq<char>,
    after: Seq<char>,
    a: Seq<char>,
    b: Seq<char>,
    mark: char,
    tail: Seq<char>,
)
    requires
        forall|i: int| 0 <= i < a.len() ==> #[trigger] a[i] != '?' && a[i] != '#'
            && !is_whitespace(a[i]),
        forall|i: int| 0 <= i < b.len() ==> #[trigger] b[i] != '?' && b[i] != '#'
            && !is_whitespace(b[i]),
        mark == '?' || mark == '#',
        is_blank(before),
        is_blank(after),
        request.path == a + seq!['/'] + b,
    ensures
        ({
            let wide = RequestView { path: a + seq!['/', '/'] + b, ..request };
            let long = RequestView { path: a + seq!['/'] + b + seq![mark] + tail, ..request };
            let padded = RequestView { path: before + (a + seq!['/'] + b) + after, ..request };
            &&& handler_for(wide) == handler_for(request)
            &&& handler_for(long) == handler_for(request)
            &&& handler_for(padded) == handler_for(request)
        }),
{
    let path = request.path;
    let wide = a + seq!['/', '/'] + b;
    law_slashes_only_separate(a, b);
    law_slashes_only_separate(a, seq!['/'] + b);
    law_slashes_only_separate(Seq::empty(), b);
    assert(Seq::<char>::empty() + seq!['/'] + b =~= seq!['/'] + b);
    assert(wide =~= a + seq!['/'] + (seq!['/'] + b));
    assert(segments(Seq::empty()) =~= Seq::empty());
    assert(segments(wide) =~= segments(path));
    assert forall|i: int| 0 <= i < path.len() implies #[trigger] path[i] != '?' && path[i] != '#'
        && !is_whitespace(path[i]) by {
        if i < a.len() {
            assert(path[i] == a[i]);
        } else if i > a.len() {
            assert(path[i] == b[i - a.len() - 1]);
        }
    }
    assert forall|i: int| 0 <= i < wide.len() implies #[trigger] wide[i] != '?' && wide[i] != '#'
        && !is_whitespace(wide[i]) by {
        if i < a.len() {
            assert(wide[i] == a[i]);
        } else if i > a.len() + 1 {
            assert(wide[i] == b[i - a.len() - 2]);
        }
    }
    lemma_trimmed_already(path);
    lemma_trimmed_already(wide);
    assert(path.take(path.len() as int) =~= path);
    assert(wide.take(wide.len() as int) =~= wide);
    lemma_path_is(path, path);
    lemma_path_is(wide, wide);
    law_query_and_fragment_are_ignored(request.method, path, mark, tail);
    lemma_trimmed_blanks(before, path, after);
    lemma_path_is(before + path + after, path);
}

/// What happens to an upload happens to its body.
pub proof fn law_events_reach_the_body(result: i32, buf: Vec<u8>, b: BodyView, v: HandlerView)
    ensures
        body_event(RouteEvent::Received { result, buf }) == (BodyEvent::Received { result, buf }),
        body_event(RouteEvent::FileDone) == BodyEvent::FileDone,
        body_event(RouteEvent::FileFailed) == BodyEvent::FileFailed,
        body_event(RouteEvent::Nothing) == BodyEvent::Nothing,
        -1 <= result <= u64::MAX - b.received ==> embed_counts(
            EmbedView::Receiving(b),
            RouteEvent::Received { result, buf },
        ),
        handler_counts(v, RouteEvent::Nothing),
        handler_counts(v, RouteEvent::FileDone),
        handler_counts(v, RouteEvent::FileFailed),
        !(v is Embed) ==> handler_counts(v, RouteEvent::Received { result, buf }),
{
}

/// An upload whose file cannot be written, whose socket failed, or whose client is
/// gone before its body was complete, is answered as a bad request.
pub proof fn law_broken_uploads_are_bad_requests(b: BodyView, buf: Vec<u8>)
    requires
        parser_wf(b.parser),
    ensures
        ({
            let v = EmbedView::Receiving(b);
            let bad = (
                EmbedView::Responding { status: 400, sending: false },
                Ok::<RouteTurnView, RouteError>(
                    RouteTurnView::Send {
                        bytes: head_bytes(400, "Bad Request"@, Seq::empty()),
                        required: false,
                    },
                ),
            );
            &&& !(b.parser.wait is Nothing) ==> embed_step(v, RouteEvent::FileFailed) == bad
            &&& embed_step(v, RouteEvent::Received { result: (-1) as i32, buf }) == bad
            &&& b.decoder is None && !b.chunked && parse_by(b.parser, embed_routing()).1
                == ParseEnd::Stop(Pause::NeedMore) ==> embed_step(
                v,
                RouteEvent::Received { result: 0, buf },
            ) == bad
        }),
{
}

/// A handler after a step, the files that were written for it, and what it
/// answered.
pub struct HandlerStage {
    pub handler: HandlerView,
    pub files: Seq<FileView>,
    pub answer: Result<RouteTurnView, RouteError>,
}

/// What a handler is stepped with once what it asked for was done, the files
/// then, and the buffers that are still to be filled.
pub open spec fn done_for(
    files: Seq<FileView>,
    answer: Result<RouteTurnView, RouteError>,
    bufs: Seq<Vec<u8>>,
) -> Option<(RouteEvent, Seq<FileView>, Seq<Vec<u8>>)> {
    match answer {
        Ok(RouteTurnView::CreateFile(path)) => Some(
            (
                RouteEvent::FileDone,
                files.push(FileView { path, content: Seq::empty() }),
                bufs,
            ),
        ),
        Ok(RouteTurnView::WriteFile(data)) => Some(
            (RouteEvent::FileDone, append_last(files, data), bufs),
        ),
        Ok(RouteTurnView::FlushFile) => Some((RouteEvent::FileDone, files, bufs)),
        Ok(RouteTurnView::Recv(_)) => if bufs.len() > 0 {
            Some(
                (
                    RouteEvent::Received { result: bufs[0]@.len() as i32, buf: bufs[0] },
                    files,
                    bufs.skip(1),
                ),
            )
        } else {
            None
        },
        _ => None,
    }
}

/// `stages` are what a handler comes to with each step, from `event` on, when it
/// is stepped as long as it asks for work on a file, or for more bytes while there
/// are any.
pub open spec fn handled(
    v: HandlerView,
    event: RouteEvent,
    files: Seq<FileView>,
    bufs: Seq<Vec<u8>>,
    stages: Seq<HandlerStage>,
) -> bool
    decreases stages.len(),
{
    &&& stages.len() > 0
    &&& {
        let first = stages[0];
        &&& handler_step(v, event) == (first.handler, first.answer)
        &&& first.files == files
        &&& match done_for(files, first.answer, bufs) {
            None => stages.len() == 1,
            Some((next, written, rest)) => handled(
                first.handler,
                next,
                written,
                rest,
                stages.skip(1),
            ),
        }
    }
}

/// Where the program for the body of an upload completes, the upload asks for its
/// parts to be deserialized, with the same parts and the same files.
proof fn lemma_uploads_complete(
    b: BodyView,
    id: Seq<char>,
    event: RouteEvent,
    files: Seq<FileView>,
    bufs: Seq<Vec<u8>>,
    stages: Seq<HandlerStage>,
)
    requires
        parser_wf(b.parser),
        !(event is Deserialized),
        handled(
            HandlerView::Embed { upload: EmbedView::Receiving(b), id },
            event,
            files,
            bufs,
            stages,
        ),
    ensures
        stages.len() > 0,
        ({
            let (ready, error) = prepared(b, body_event(event));
            let r = received_in_pieces(ready, embed_routing(), files, contents(bufs));
            error is None && is_complete(r) ==> {
                let last = stages.last();
                &&& last.answer == Ok::<RouteTurnView, RouteError>(RouteTurnView::Deserialize)
                &&& last.handler == (HandlerView::Embed {
                    upload: EmbedView::Receiving(r.body),
                    id,
                })
                &&& last.files == r.files
            }
        }),
    decreases stages.len(),
{
    let routing = embed_routing();
    let (ready, error) = prepared(b, body_event(event));
    let first = stages[0];
    if error is None {
        lemma_prepared_keeps_asked(b, body_event(event));
        lemma_parse_by_keeps_order(ready.parser, routing);
        lemma_file_leads_on(ready, routing, files);
        let (parser, end) = parse_by(ready.parser, routing);
        let next = BodyView { parser, ..ready };
        let turn = answer(next, end);
        let r = settled(ready, routing, files);
        law_what_the_body_wants_is_asked_for(b, event, id);
        if turn is Ok {
            match done_for(files, first.answer, bufs) {
                None => {},
                Some((event2, written, rest)) => {
                    lemma_uploads_complete(next, id, event2, written, rest, stages.skip(1));
                    assert(stages.skip(1).last() == stages.last());
                    if turn->Ok_0 is Recv {
                        law_all_that_is_received_counts(next, bufs[0]@.len() as i32, bufs[0]);
                        assert(contents(bufs).skip(1) =~= contents(rest));
                    }
                },
            }
        }
    }
}

/// An upload is received as it was sent: a request to the path of an upload,
/// whose multipart body comes with a length or in chunks, of which all that
/// arrived is first what stands behind the head and then what the buffers hold,
/// leads to its parts, in order, each as it was sent, with the body of each file
/// in the file of that name, and then asks for its parts to be deserialized.
pub proof fn law_uploads_are_received_as_they_were_sent(
    request: RequestView,
    id: Seq<char>,
    boundary: Seq<char>,
    chunked: bool,
    length: u64,
    parts: Seq<SentPart>,
    behind: Seq<u8>,
    chunks: Seq<Seq<u8>>,
    more: Seq<u8>,
    bufs: Seq<Vec<u8>>,
    stages: Seq<HandlerStage>,
)
    requires
        request.method == seq!['P', 'O', 'S', 'T'],
        is_segment(id),
        request.path == path_with(seq![seq!['d', 'b'], id]),
        request.body_offset <= request.buf.len(),
        plain_boundary(boundary),
        header_value(request.headers, "content-type"@) == Some(
            encode_utf8(multipart_type(boundary)),
        ),
        sendable(boundary, embed_routing(), parts, 2 * 1024 * 1024),
        receivable(contents(bufs)),
        request.buf.len() - request.body_offset + joined(contents(bufs)).len() <= 128 * 1024 * 1024,
        !chunked ==> {
            &&& header_value(request.headers, "transfer-encoding"@) is None
            &&& header_value(request.headers, "content-length"@) == Some(
                encode_utf8(decimal_text(length as nat)),
            )
            &&& request.buf.skip(request.body_offset as int) + joined(contents(bufs)) == sent_body(
                boundary,
                parts,
            ) + more
            &&& sent_body(boundary, parts).len() <= length
        },
        chunked ==> {
            &&& header_value(request.headers, "transfer-encoding"@) == Some(
                encode_utf8("chunked"@),
            )
            &&& header_value(request.headers, "content-length"@) is None
            &&& request.buf.skip(request.body_offset as int) + joined(contents(bufs))
                == encode_chunks(chunks) + more
            &&& joined(chunks) == sent_body(boundary, parts) + behind
            &&& joined(chunks).len() <= 64 * 1024 * 1024
            &&& forall|i: int| 0 <= i < chunks.len() ==> (#[trigger] chunks[i]).len() > 0
        },
        handled(handler_for(request), RouteEvent::Nothing, Seq::empty(), bufs, stages),
    ensures
        ({
            let last = stages.last();
            &&& last.answer == Ok::<RouteTurnView, RouteError>(RouteTurnView::Deserialize)
            &&& last.files == written_files(Seq::empty(), Seq::empty(), parts, embed_routing())
            &&& last.handler matches HandlerView::Embed {
                upload: EmbedView::Receiving(body),
                id: found,
            } && found == id && body.parser.parts == received_parts(
                Seq::empty(),
                parts,
                embed_routing(),
            )
        }),
{
    let names = seq![seq!['d', 'b'], id];
    assert forall|i: int| 0 <= i < names.len() implies is_segment(#[trigger] names[i]) by {
        if i == 0 {
            assert(names[0] =~= seq!['d', 'b']);
        }
    }
    law_requests_are_routed(request, names);
    law_requests_begin_uploads(request, boundary, length);
    let initial = request.buf.skip(request.body_offset as int);
    let announced = if chunked {
        None::<u64>
    } else {
        Some(length)
    };
    let b = limited_body(
        chunked,
        announced,
        boundary,
        initial,
        2 * 1024 * 1024,
        128 * 1024 * 1024,
    );
    lemma_uploads_complete(b, id, RouteEvent::Nothing, Seq::empty(), bufs, stages);
    if chunked {
        law_bodies_sent_in_chunks_are_received(
            announced,
            boundary,
            embed_routing(),
            2 * 1024 * 1024,
            128 * 1024 * 1024,
            parts,
            behind,
            chunks,
            more,
            initial,
            contents(bufs),
        );
    } else {
        law_sent_bodies_are_received(
            announced,
            boundary,
            embed_routing(),
            2 * 1024 * 1024,
            128 * 1024 * 1024,
            parts,
            more,
            initial,
            contents(bufs),
        );
    }
}

/// The answer to a health check, and an answer that is only a status, are sent
/// until they were handed to the socket.
pub proof fn law_answers_are_sent(event: RouteEvent, status: u16)
    ensures
        handler_step(HandlerView::HealthCheck { sending: false }, event) == (
            HandlerView::HealthCheck { sending: false },
            Ok::<RouteTurnView, RouteError>(
                RouteTurnView::Send {
                    bytes: head_bytes(
                        200,
                        "OK"@,
                        seq![
                            ("content-type"@, encode_utf8("text/plain"@)),
                            ("content-length"@, seq![55u8]),
                        ],
                    ) + encode_utf8("running"@),
                    required: true,
                },
            ),
        ),
        handler_step(HandlerView::HttpError { status, sending: false }, event) == (
            HandlerView::HttpError { status, sending: false },
            Ok::<RouteTurnView, RouteError>(
                RouteTurnView::Send {
                    bytes: head_bytes(status, reason_phrase(status), Seq::empty()),
                    required: true,
                },
            ),
        ),
        handler_step(HandlerView::HealthCheck { sending: true }, event).1 == Ok::<
            RouteTurnView,
            RouteError,
        >(RouteTurnView::Complete),
        handler_step(HandlerView::HttpError { status, sending: true }, event).1 == Ok::<
            RouteTurnView,
            RouteError,
        >(RouteTurnView::Complete),
        reason_phrase(200) == "OK"@,
        reason_phrase(400) == "Bad Request"@,
        reason_phrase(404) == "Not Found"@,
        reason_phrase(405) == "Method Not Allowed"@,
{
    reveal_strlit("running");
    is_ascii_chars_encode_utf8("running"@);
    assert(encode_utf8("running"@).len() == 7);
    assert(decimal(7) =~= seq![55u8]);
}

/// An upload that is answered sends its status until it was handed to the socket,
/// whatever happens, and a handler that is told so keeps its status.
pub proof fn law_answered_uploads_stay_answered(status: u16, event: RouteEvent, id: Seq<char>)
    ensures
        embed_step(EmbedView::Responding { status, sending: false }, event) == (
            EmbedView::Responding { status, sending: false },
            Ok::<RouteTurnView, RouteError>(
                RouteTurnView::Send {
                    bytes: head_bytes(status, reason_phrase(status), Seq::empty()),
                    required: true,
                },
            ),
        ),
        embed_step(EmbedView::Responding { status, sending: true }, event) == (
            EmbedView::Responding { status, sending: true },
            Ok::<RouteTurnView, RouteError>(RouteTurnView::Complete),
        ),
        handler_submitted(HandlerView::HealthCheck { sending: false }) == (
        HandlerView::HealthCheck { sending: true }),
        handler_submitted(HandlerView::HttpError { status, sending: false }) == (
        HandlerView::HttpError { status, sending: true }),
        handler_submitted(
            HandlerView::Embed { upload: EmbedView::Responding { status, sending: false }, id },
        ) == (HandlerView::Embed { upload: EmbedView::Responding { status, sending: true }, id }),
{
}

/// An upload with a body that is refused is answered as a bad request.
pub proof fn law_refused_bodies_are_answered(body: BodyView, event: RouteEvent)
    requires
        !(event is Deserialized && all_received(body.parser)),
        upload_step(body, body_event(event)).1 is Err,
    ensures
        ({
            let (next, result) = embed_step(EmbedView::Receiving(body), event);
            &&& next == (EmbedView::Responding { status: BAD_REQUEST, sending: false })
            &&& result is Ok
            &&& result->Ok_0 == (RouteTurnView::Send {
                bytes: head_bytes(BAD_REQUEST, "Bad Request"@, Seq::empty()),
                required: false,
            })
        }),
{
}

/// What is told of a turn, and of the handler that wants it, is all of it.
pub proof fn law_turns_of_handlers_are_told_in_full(
    path: String,
    bytes: Vec<u8>,
    required: bool,
    len: usize,
    upload: EmbedFileProgram,
)
    ensures
        RouteTurn::CreateFile(path)@ == RouteTurnView::CreateFile(path@),
        RouteTurn::WriteFile(bytes)@ == RouteTurnView::WriteFile(bytes@),
        RouteTurn::FlushFile@ == RouteTurnView::FlushFile,
        RouteTurn::Recv(len)@ == RouteTurnView::Recv(len as nat),
        RouteTurn::Deserialize@ == RouteTurnView::Deserialize,
        RouteTurn::Complete@ == RouteTurnView::Complete,
        (RouteTurn::Send { bytes, required })@ == (RouteTurnView::Send { bytes: bytes@, required }),
        route_view(Ok(RouteTurn::WriteFile(bytes))) == Ok::<RouteTurnView, RouteError>(
            RouteTurnView::WriteFile(bytes@),
        ),
        RouteHandler::Embed(upload)@ == (HandlerView::Embed { upload: upload@, id: upload.id_text() }),
{
}

} // verus!
