//! What holds of the multipart parser as a whole.

use vstd::prelude::*;
use vstd::utf8::valid_utf8;

use crate::bytes::{crlf, crlf_crlf, dashes, find, lemma_find, lemma_find_extends, lemma_find_is, lemma_find_skips, lemma_occurs_in_prefix, occurs_at};
use crate::chunked_laws::joined;
use crate::parser::{begin_part, capped64, file_done, fresh_parser, parse_move, parser_wf, without_crlf, Move, MultipartError, MultipartPhase, ParserView, Pause, Waiting};
use crate::parts::{DispositionView, PartContentView, PartHeadersView, PartView, no_headers, part_headers};

verus! {

/// A file that a part was streamed to.
pub struct FileView {
    pub path: Seq<char>,
    pub content: Seq<u8>,
}

/// A parser, and the files that were written for it so far.
pub struct Session {
    pub parser: ParserView,
    pub files: Seq<FileView>,
}

/// How a session ended, or came to a halt.
pub enum SessionEnd {
    NeedMore,
    Done,
    Fail(MultipartError),
}

/// The choice of how a part is consumed, by the parts before it and its headers.
pub type Routing = spec_fn(Seq<PartView>, PartHeadersView) -> DispositionView;

/// Writes `data` to the last file.
pub open spec fn append_last(files: Seq<FileView>, data: Seq<u8>) -> Seq<FileView> {
    if files.len() == 0 {
        files
    } else {
        files.drop_last().push(
            FileView { path: files.last().path, content: files.last().content + data },
        )
    }
}

/// Orders the steps of a session that consume nothing.
pub open spec fn session_rank(p: ParserView) -> nat {
    match p.wait {
        Waiting::Create => 3,
        Waiting::Nothing => 2,
        Waiting::WriteLast { .. } => 1,
        Waiting::Flush { .. } => 0,
        Waiting::WriteSome { .. } => 0,
    }
}

/// What a step of a session leads to.
pub enum SessionStep {
    Next(Session),
    End(Session, SessionEnd),
}

/// What the move of a parser after work on a file leads to.
pub open spec fn after_move(files: Seq<FileView>, moved: Move) -> SessionStep {
    match moved {
        Move::Next(q) => SessionStep::Next(Session { parser: q, files }),
        Move::Fail(q, error) => SessionStep::End(
            Session { parser: q, files },
            SessionEnd::Fail(error),
        ),
        Move::Stop(q, _) => SessionStep::Next(Session { parser: q, files }),
    }
}

/// One step of a session in which all work on files succeeds.
pub open spec fn session_step(s: Session, routing: Routing) -> SessionStep {
    match parse_move(s.parser) {
        Move::Next(q) => SessionStep::Next(Session { parser: q, ..s }),
        Move::Fail(q, error) => SessionStep::End(
            Session { parser: q, ..s },
            SessionEnd::Fail(error),
        ),
        Move::Stop(q, pause) => match pause {
            Pause::NeedMore => SessionStep::End(Session { parser: q, ..s }, SessionEnd::NeedMore),
            Pause::Done => SessionStep::End(Session { parser: q, ..s }, SessionEnd::Done),
            Pause::Route(headers) => SessionStep::Next(
                Session {
                    parser: begin_part(q, headers, routing(q.parts, headers)),
                    ..s
                },
            ),
            Pause::Create(path) => after_move(
                s.files.push(FileView { path, content: Seq::empty() }),
                file_done(q),
            ),
            Pause::Write(data) => after_move(append_last(s.files, data), file_done(q)),
            Pause::Flush => after_move(s.files, file_done(q)),
        },
    }
}

/// Every step keeps the parser in order, and consumes bytes or leads on to
/// work on a file.
pub proof fn lemma_step_consumes(s: Session, routing: Routing)
    requires
        parser_wf(s.parser),
    ensures
        session_step(s, routing) matches SessionStep::Next(t) ==> {
            &&& parser_wf(t.parser)
            &&& t.parser.delimiter == s.parser.delimiter
            &&& t.parser.max_buffered == s.parser.max_buffered
            &&& {
                ||| t.parser.buf.len() < s.parser.buf.len()
                ||| t.parser.buf.len() == s.parser.buf.len() && session_rank(t.parser)
                    < session_rank(s.parser)
            }
        },
{
    lemma_find(s.parser.buf, s.parser.delimiter);
    lemma_find(s.parser.buf, crlf_crlf());
}

/// Runs a session until it needs more bytes or is over.
pub open spec fn drive(s: Session, routing: Routing) -> (Session, SessionEnd)
    decreases s.parser.buf.len(), session_rank(s.parser),
    when parser_wf(s.parser)
{
    match session_step(s, routing) {
        SessionStep::End(t, end) => (t, end),
        SessionStep::Next(t) => {
            proof {
                lemma_step_consumes(s, routing);
            }
            drive(t, routing)
        },
    }
}

/// The session once more bytes arrived.
pub open spec fn feed(s: Session, more: Seq<u8>) -> Session {
    Session { parser: ParserView { buf: s.parser.buf + more, ..s.parser }, ..s }
}

/// Runs a session on a body that arrives in pieces.
pub open spec fn deliver(s: Session, routing: Routing, pieces: Seq<Seq<u8>>) -> (
    Session,
    SessionEnd,
)
    decreases pieces.len(),
{
    let (t, end) = drive(s, routing);
    if end is NeedMore && pieces.len() > 0 {
        deliver(feed(t, pieces[0]), routing, pieces.skip(1))
    } else {
        (t, end)
    }
}

/// The session once the first `k` bytes, which are no boundary, were consumed.
pub open spec fn consumed(s: Session, k: int) -> Session {
    let p = ParserView { buf: s.parser.buf.skip(k), ..s.parser };
    if s.parser.phase is Body {
        match s.parser.disposition {
            DispositionView::Buffer => Session {
                parser: ParserView { data: p.data + s.parser.buf.take(k), ..p },
                ..s
            },
            DispositionView::StreamToFile(_) => Session {
                parser: ParserView { file_bytes: capped64(p.file_bytes + k), ..p },
                files: append_last(s.files, s.parser.buf.take(k)),
            },
            DispositionView::Discard => Session { parser: p, ..s },
        }
    } else {
        Session { parser: p, ..s }
    }
}

/// The first `k` bytes can be consumed before a boundary is found.
pub open spec fn consumable(s: Session, k: int) -> bool {
    &&& s.parser.wait is Nothing
    &&& s.parser.phase is Preamble || s.parser.phase is Body
    &&& 0 < k
    &&& k + s.parser.delimiter.len() - 1 <= s.parser.buf.len()
    &&& forall|j: int| 0 <= j < k ==> !occurs_at(s.parser.buf, s.parser.delimiter, j)
    &&& s.parser.phase is Body && s.parser.disposition is Buffer ==> s.parser.data.len() + k
        <= s.parser.max_buffered
}

/// `s` is `t`, or has consumed more of the same bytes than `t` has.
pub open spec fn ahead(s: Session, t: Session, k: int) -> bool {
    ||| k == 0 && s == t
    ||| consumable(t, k) && s == consumed(t, k)
}

/// Two runs came to the same.
pub open spec fn agree(x: (Session, SessionEnd), y: (Session, SessionEnd)) -> bool {
    &&& x.1 == y.1
    &&& x.1 is NeedMore ==> exists|k: int| ahead(x.0, y.0, k)
    &&& !(x.1 is NeedMore) ==> x.0.parser.parts == y.0.parser.parts && x.0.files == y.0.files
}

/// Two runs came to the same, but for what they had not consumed when they failed.
spec fn alike(x: (Session, SessionEnd), y: (Session, SessionEnd)) -> bool {
    if x.1 is Fail {
        x.1 == y.1 && x.0.parser.parts == y.0.parser.parts && x.0.files == y.0.files
    } else {
        x == y
    }
}

proof fn lemma_append_nothing(files: Seq<FileView>)
    ensures
        append_last(files, Seq::empty()) == files,
{
    if files.len() > 0 {
        assert(files.last().content + Seq::empty() =~= files.last().content);
        assert(append_last(files, Seq::empty()) =~= files);
    }
}

proof fn lemma_append_twice(files: Seq<FileView>, a: Seq<u8>, b: Seq<u8>)
    ensures
        append_last(append_last(files, a), b) == append_last(files, a + b),
{
    if files.len() > 0 {
        assert(files.last().content + a + b =~= files.last().content + (a + b));
        assert(append_last(files, a).drop_last() =~= files.drop_last());
    }
}

proof fn lemma_consumed_nothing(s: Session)
    requires
        parser_wf(s.parser),
    ensures
        consumed(s, 0) == s,
{
    assert(s.parser.buf.skip(0) =~= s.parser.buf);
    assert(s.parser.buf.take(0) =~= Seq::empty());
    assert(s.parser.data + Seq::<u8>::empty() =~= s.parser.data);
    lemma_append_nothing(s.files);
}

proof fn lemma_consumed_twice(s: Session, a: int, b: int)
    requires
        parser_wf(s.parser),
        0 <= a,
        0 <= b,
        a + b <= s.parser.buf.len(),
    ensures
        consumed(consumed(s, a), b) == consumed(s, a + b),
{
    let buf = s.parser.buf;
    assert(buf.skip(a).skip(b) =~= buf.skip(a + b));
    assert(buf.take(a) + buf.skip(a).take(b) =~= buf.take(a + b));
    assert(s.parser.data + buf.take(a) + buf.skip(a).take(b) =~= s.parser.data + buf.take(a + b));
    lemma_append_twice(s.files, buf.take(a), buf.skip(a).take(b));
}

/// Without a boundary, a session consumes all but the bytes that may be the
/// front of one.
proof fn lemma_waits(s: Session, routing: Routing)
    requires
        parser_wf(s.parser),
        s.parser.wait is Nothing,
        s.parser.phase is Preamble || s.parser.phase is Body,
        find(s.parser.buf, s.parser.delimiter) is None,
    ensures
        ({
            let len = s.parser.buf.len() - (s.parser.delimiter.len() - 1);
            if len <= 0 {
                drive(s, routing) == (s, SessionEnd::NeedMore)
            } else if s.parser.phase is Body && s.parser.disposition is Buffer
                && s.parser.data.len() + len > s.parser.max_buffered {
                drive(s, routing) == (
                    s,
                    SessionEnd::Fail(
                        MultipartError::PartTooLarge { limit: s.parser.max_buffered as usize },
                    ),
                )
            } else {
                &&& consumable(s, len)
                &&& drive(s, routing) == (consumed(s, len), SessionEnd::NeedMore)
            }
        }),
{
    let p = s.parser;
    let len = p.buf.len() - (p.delimiter.len() - 1);
    lemma_find(p.buf, p.delimiter);
    if len > 0 && p.phase is Body && p.disposition is StreamToFile {
        let writing = Session {
            parser: ParserView { wait: Waiting::WriteSome { len }, ..p },
            ..s
        };
        assert(session_step(s, routing) == SessionStep::Next(writing));
        let written = consumed(s, len);
        assert(session_step(writing, routing) == SessionStep::Next(written));
        lemma_find_skips(p.buf, p.delimiter, len);
        assert(session_step(written, routing) == SessionStep::End(written, SessionEnd::NeedMore));
        assert(drive(written, routing) == (written, SessionEnd::NeedMore));
        assert(drive(writing, routing) == drive(written, routing));
    }
}

/// With a boundary, a session consumes all in front of it.
proof fn lemma_ends(s: Session, routing: Routing)
    requires
        parser_wf(s.parser),
        s.parser.wait is Nothing,
        s.parser.phase is Preamble || s.parser.phase is Body,
        find(s.parser.buf, s.parser.delimiter) is Some,
    ensures
        ({
            let pos = find(s.parser.buf, s.parser.delimiter)->0;
            if s.parser.buf.len() < pos + s.parser.delimiter.len() + 2 {
                drive(s, routing) == (s, SessionEnd::NeedMore)
            } else if s.parser.phase is Body && s.parser.disposition is Buffer && pos > 0
                && s.parser.data.len() + pos > s.parser.max_buffered {
                drive(s, routing) == (
                    s,
                    SessionEnd::Fail(
                        MultipartError::PartTooLarge { limit: s.parser.max_buffered as usize },
                    ),
                )
            } else {
                let t = consumed(s, pos);
                &&& parser_wf(t.parser)
                &&& alike(drive(s, routing), drive(t, routing))
            }
        }),
{
    let p = s.parser;
    let pos = find(p.buf, p.delimiter)->0;
    lemma_find(p.buf, p.delimiter);
    if p.buf.len() >= pos + p.delimiter.len() + 2 {
        let t = consumed(s, pos);
        let d = p.delimiter.len() as int;
        lemma_find_skips(p.buf, p.delimiter, pos);
        assert(t.parser.buf.subrange(d, d + 2) =~= p.buf.subrange(pos + d, pos + d + 2));
        assert(t.parser.buf.skip(d + 2) =~= p.buf.skip(pos + d + 2));
        assert(t.parser.buf.take(0) =~= Seq::empty());
        assert(t.parser.data + Seq::<u8>::empty() =~= t.parser.data);
        if p.phase is Body && p.disposition is StreamToFile {
            if pos > 0 {
                let writing = Session {
                    parser: ParserView { wait: Waiting::WriteLast { pos }, ..p },
                    ..s
                };
                let flushing = Session {
                    parser: ParserView {
                        wait: Waiting::Flush { pos },
                        file_bytes: capped64(p.file_bytes + pos),
                        ..p
                    },
                    files: append_last(s.files, p.buf.take(pos)),
                };
                let there = Session {
                    parser: ParserView { wait: Waiting::Flush { pos: 0 }, ..t.parser },
                    ..t
                };
                assert(session_step(s, routing) == SessionStep::Next(writing));
                assert(session_step(writing, routing) == SessionStep::Next(flushing));
                assert(session_step(t, routing) == SessionStep::Next(there));
                assert(drive(s, routing) == drive(writing, routing));
                assert(drive(writing, routing) == drive(flushing, routing));
                assert(drive(t, routing) == drive(there, routing));
                lemma_flush(flushing, there, routing);
            } else {
                lemma_consumed_nothing(s);
            }
        }
    }
}

/// What stands in front of a boundary does not matter once it is written.
proof fn lemma_flush(s: Session, t: Session, routing: Routing)
    requires
        parser_wf(s.parser),
        parser_wf(t.parser),
        s.parser.wait is Flush,
        t.parser.wait == (Waiting::Flush { pos: 0 }),
        t.parser.buf == s.parser.buf.skip(s.parser.wait->Flush_pos),
        t == (Session {
            parser: ParserView { buf: t.parser.buf, wait: t.parser.wait, ..s.parser },
            ..s
        }),
    ensures
        alike(drive(s, routing), drive(t, routing)),
{
    let pos = s.parser.wait->Flush_pos;
    let d = s.parser.delimiter.len() as int;
    assert(t.parser.buf.subrange(d, d + 2) =~= s.parser.buf.subrange(pos + d, pos + d + 2));
    assert(t.parser.buf.skip(d + 2) =~= s.parser.buf.skip(pos + d + 2));
}

/// Bytes that were consumed early make no difference.
proof fn lemma_ahead_drive(s: Session, t: Session, k: int, routing: Routing)
    requires
        parser_wf(t.parser),
        ahead(s, t, k),
    ensures
        parser_wf(s.parser),
        agree(drive(s, routing), drive(t, routing)),
{
    if k == 0 {
        assert(ahead(drive(s, routing).0, drive(t, routing).0, 0));
    } else {
        let buf = t.parser.buf;
        let d = t.parser.delimiter;
        lemma_find_skips(buf, d, k);
        lemma_find(buf, d);
        match find(buf, d) {
            None => {
                let len = buf.len() - (d.len() - 1);
                lemma_waits(t, routing);
                lemma_waits(s, routing);
                lemma_consumed_twice(t, k, len - k);
                assert(ahead(drive(t, routing).0, drive(t, routing).0, 0));
            },
            Some(pos) => {
                lemma_ends(t, routing);
                lemma_ends(s, routing);
                lemma_consumed_twice(t, k, pos - k);
                if buf.len() < pos + d.len() + 2 {
                    assert(ahead(drive(s, routing).0, drive(t, routing).0, k));
                } else {
                    assert(ahead(drive(t, routing).0, drive(t, routing).0, 0));
                }
            },
        }
    }
}

proof fn lemma_ahead_feed(s: Session, t: Session, k: int, more: Seq<u8>)
    requires
        parser_wf(t.parser),
        ahead(s, t, k),
    ensures
        ahead(feed(s, more), feed(t, more), k),
{
    if k != 0 {
        let buf = t.parser.buf;
        assert forall|j: int| 0 <= j < k implies !occurs_at(buf + more, t.parser.delimiter, j) by {
            lemma_occurs_in_prefix(buf, more, t.parser.delimiter, j);
        }
        assert((buf + more).skip(k) =~= buf.skip(k) + more);
        assert((buf + more).take(k) =~= buf.take(k));
    }
}

proof fn lemma_ahead_twice(s: Session, t: Session, u: Session, k: int, m: int)
    requires
        parser_wf(u.parser),
        ahead(s, t, k),
        ahead(t, u, m),
    ensures
        ahead(s, u, k + m),
{
    if k != 0 && m != 0 {
        let d = u.parser.delimiter;
        lemma_consumed_twice(u, m, k);
        assert forall|j: int| 0 <= j < k + m implies !occurs_at(u.parser.buf, d, j) by {
            if m <= j {
                assert(!occurs_at(t.parser.buf, d, j - m));
                if j + d.len() <= u.parser.buf.len() {
                    assert(t.parser.buf.subrange(j - m, j - m + d.len())
                        =~= u.parser.buf.subrange(j, j + d.len()));
                }
            }
        }
    }
}

/// The session cannot make a step that later bytes could not change.
spec fn at_rest(s: Session) -> bool {
    let p = s.parser;
    p.wait is Nothing && match p.phase {
        MultipartPhase::Headers => find(p.buf, crlf_crlf()) is None,
        MultipartPhase::Done => false,
        _ => match find(p.buf, p.delimiter) {
            None => true,
            Some(pos) => p.buf.len() < pos + p.delimiter.len() + 2,
        },
    }
}

/// A step that reads something whole is not changed by bytes that arrive later:
/// they only follow what the step leaves.
proof fn lemma_step_extends(s: Session, routing: Routing, more: Seq<u8>)
    requires
        parser_wf(s.parser),
        !(s.parser.wait is WriteSome),
        !at_rest(s),
    ensures
        match session_step(s, routing) {
            SessionStep::Next(t) => {
                &&& !(t.parser.wait is WriteSome)
                &&& if t.parser.phase is Done && t.parser.wait is Nothing {
                    session_step(feed(s, more), routing) matches SessionStep::Next(u) && u
                        == (Session { parser: ParserView { buf: u.parser.buf, ..t.parser }, ..t })
                } else {
                    session_step(feed(s, more), routing) == SessionStep::Next(feed(t, more))
                }
            },
            SessionStep::End(t, end) => {
                &&& end !is NeedMore
                &&& session_step(feed(s, more), routing) matches SessionStep::End(u, other)
                    && other == end && u.files == t.files && u.parser.parts == t.parser.parts
            },
        },
{
    let p = s.parser;
    let b = p.buf;
    let d = p.delimiter;
    lemma_find(b, d);
    lemma_find(b, crlf_crlf());
    if find(b, d) is Some {
        lemma_find_extends(b, more, d);
    }
    if find(b, crlf_crlf()) is Some {
        lemma_find_extends(b, more, crlf_crlf());
        let end = find(b, crlf_crlf())->0;
        assert((b + more).take(end) =~= b.take(end));
        assert((b + more).skip(end + 4) =~= b.skip(end + 4) + more);
    }
    let pos = match p.wait {
        Waiting::WriteLast { pos } => pos,
        Waiting::Flush { pos } => pos,
        _ => find(b, d)->0,
    };
    if 0 <= pos && pos + d.len() + 2 <= b.len() {
        let after = pos + d.len();
        assert((b + more).take(pos) =~= b.take(pos));
        assert((b + more).subrange(after, after + 2) =~= b.subrange(after, after + 2));
        assert((b + more).skip(after + 2) =~= b.skip(after + 2) + more);
    }
}

/// Where a session that needs more bytes came to rest: what follows does not
/// depend on what it consumed there.
proof fn lemma_rest(s: Session, routing: Routing, more: Seq<u8>) -> (r: (Session, int))
    requires
        parser_wf(s.parser),
        !(s.parser.wait is WriteSome),
        drive(s, routing).1 is NeedMore,
    ensures
        parser_wf(r.0.parser),
        !(r.0.parser.wait is WriteSome),
        ahead(drive(s, routing).0, r.0, r.1),
        drive(feed(s, more), routing) == drive(feed(r.0, more), routing),
    decreases s.parser.buf.len(), session_rank(s.parser),
{
    if at_rest(s) {
        let p = s.parser;
        if p.phase is Headers {
            (s, 0)
        } else {
            match find(p.buf, p.delimiter) {
                None => {
                    lemma_waits(s, routing);
                    let len = p.buf.len() - (p.delimiter.len() - 1);
                    if len <= 0 {
                        (s, 0)
                    } else {
                        (s, len)
                    }
                },
                Some(_) => {
                    lemma_ends(s, routing);
                    (s, 0)
                },
            }
        }
    } else {
        lemma_step_extends(s, routing, more);
        lemma_step_consumes(s, routing);
        match session_step(s, routing) {
            SessionStep::Next(t) => {
                assert(drive(s, routing) == drive(t, routing));
                assert(parser_wf(feed(s, more).parser));
                if t.parser.phase is Done && t.parser.wait is Nothing {
                    assert(session_step(t, routing) == SessionStep::End(t, SessionEnd::Done));
                    (t, 0)
                } else {
                    assert(drive(feed(s, more), routing) == drive(feed(t, more), routing));
                    lemma_rest(t, routing, more)
                }
            },
            SessionStep::End(_, _) => (s, 0),
        }
    }
}

/// An error that does not come of waiting for too long.
pub open spec fn is_firm(error: MultipartError) -> bool {
    error is MalformedBoundary || error is HeadersNotUtf8
}

/// The session is over, whatever bytes may follow.
pub open spec fn is_over(end: SessionEnd) -> bool {
    ||| end is Done
    ||| end matches SessionEnd::Fail(error) && is_firm(error)
}

/// Bytes behind the end of a body change nothing.
pub proof fn law_what_follows_the_body_is_ignored(s: Session, routing: Routing, more: Seq<u8>)
    requires
        parser_wf(s.parser),
        !(s.parser.wait is WriteSome),
        is_over(drive(s, routing).1),
    ensures
        drive(feed(s, more), routing).1 == drive(s, routing).1,
        drive(feed(s, more), routing).0.parser.parts == drive(s, routing).0.parser.parts,
        drive(feed(s, more), routing).0.files == drive(s, routing).0.files,
    decreases s.parser.buf.len(), session_rank(s.parser),
{
    if at_rest(s) {
        let p = s.parser;
        if !(p.phase is Headers) {
            if find(p.buf, p.delimiter) is None {
                lemma_waits(s, routing);
            } else {
                lemma_ends(s, routing);
            }
        }
    } else {
        lemma_step_extends(s, routing, more);
        lemma_step_consumes(s, routing);
        match session_step(s, routing) {
            SessionStep::Next(t) => {
                assert(drive(s, routing) == drive(t, routing));
                assert(parser_wf(feed(s, more).parser));
                if t.parser.phase is Done && t.parser.wait is Nothing {
                    assert(session_step(t, routing) == SessionStep::End(t, SessionEnd::Done));
                    let u = session_step(feed(s, more), routing)->Next_0;
                    assert(session_step(u, routing) == SessionStep::End(u, SessionEnd::Done));
                    assert(drive(u, routing) == (u, SessionEnd::Done));
                } else {
                    assert(drive(feed(s, more), routing) == drive(feed(t, more), routing));
                    law_what_follows_the_body_is_ignored(t, routing, more);
                }
            },
            SessionStep::End(_, _) => {},
        }
    }
}

/// A session that needs more bytes waits for nothing else.
pub proof fn lemma_drive_waits_for_nothing(s: Session, routing: Routing)
    requires
        parser_wf(s.parser),
    ensures
        drive(s, routing).1 is NeedMore ==> drive(s, routing).0.parser.wait is Nothing,
    decreases s.parser.buf.len(), session_rank(s.parser),
{
    match session_step(s, routing) {
        SessionStep::Next(t) => {
            lemma_step_consumes(s, routing);
            lemma_drive_waits_for_nothing(t, routing);
        },
        SessionStep::End(_, _) => {},
    }
}

/// Two pieces come to the same as both at once.
pub proof fn law_two_pieces_do_not_matter(s: Session, routing: Routing, more: Seq<u8>)
    requires
        parser_wf(s.parser),
        !(s.parser.wait is WriteSome),
        drive(s, routing).1 is NeedMore,
    ensures
        agree(
            drive(feed(drive(s, routing).0, more), routing),
            drive(feed(s, more), routing),
        ),
        parser_wf(drive(s, routing).0.parser),
{
    let (u, m) = lemma_rest(s, routing, more);
    let s1 = drive(s, routing).0;
    lemma_ahead_drive(s1, u, m, routing);
    lemma_ahead_feed(s1, u, m, more);
    lemma_ahead_drive(feed(s1, more), feed(u, more), m, routing);
}

/// [`law_pieces_do_not_matter`], for a session that is ahead of the other.
proof fn lemma_pieces(s: Session, t: Session, k: int, routing: Routing, pieces: Seq<Seq<u8>>)
    requires
        parser_wf(t.parser),
        !(t.parser.wait is WriteSome),
        ahead(s, t, k),
    ensures
        ({
            let cut = deliver(s, routing, pieces);
            let whole = drive(feed(t, joined(pieces)), routing);
            cut.1 is NeedMore || is_over(cut.1) ==> {
                &&& whole.1 == cut.1
                &&& whole.0.parser.parts == cut.0.parser.parts
                &&& is_over(cut.1) ==> whole.0.files == cut.0.files
            }
        }),
    decreases pieces.len(),
{
    lemma_ahead_drive(s, t, k, routing);
    let (s1, end) = drive(s, routing);
    let (t1, _) = drive(t, routing);
    let rest = joined(pieces);
    if is_over(end) {
        law_what_follows_the_body_is_ignored(t, routing, rest);
    } else if end is NeedMore {
        if pieces.len() == 0 {
            assert(feed(t, rest).parser.buf =~= t.parser.buf);
            assert(feed(t, rest) == t);
        } else {
            let k1 = choose|k1: int| ahead(s1, t1, k1);
            let (u, m) = lemma_rest(t, routing, rest);
            lemma_ahead_twice(s1, t1, u, k1, m);
            lemma_ahead_feed(s1, u, k1 + m, pieces[0]);
            lemma_pieces(
                feed(s1, pieces[0]),
                feed(u, pieces[0]),
                k1 + m,
                routing,
                pieces.skip(1),
            );
            assert(feed(feed(u, pieces[0]), joined(pieces.skip(1))).parser.buf =~= feed(
                u,
                rest,
            ).parser.buf);
        }
    }
}

/// How a body is cut into pieces on its way does not matter: where the pieces
/// lead to the end of the body, or are not all of it yet, the whole at once
/// gives the same parts and the same files.
///
/// Left open are errors that come of waiting for too long: headers or a part
/// in memory that are too long may be refused before their end arrives.
pub proof fn law_pieces_do_not_matter(s: Session, routing: Routing, pieces: Seq<Seq<u8>>)
    requires
        parser_wf(s.parser),
        s.parser.wait is Nothing,
    ensures
        ({
            let cut = deliver(s, routing, pieces);
            let whole = drive(feed(s, joined(pieces)), routing);
            cut.1 is NeedMore || is_over(cut.1) ==> {
                &&& whole.1 == cut.1
                &&& whole.0.parser.parts == cut.0.parser.parts
                &&& is_over(cut.1) ==> whole.0.files == cut.0.files
            }
        }),
{
    lemma_pieces(s, s, 0, routing, pieces);
}

/// A parser that waits for more of a preamble or of the body of a part holds
/// back only bytes that may still turn out to be a boundary.
pub proof fn law_little_is_held_back(s: Session, routing: Routing)
    requires
        parser_wf(s.parser),
        !(s.parser.wait is WriteSome),
        drive(s, routing).1 is NeedMore,
    ensures
        ({
            let p = drive(s, routing).0.parser;
            !(p.phase is Headers) && find(p.buf, p.delimiter) is None ==> p.buf.len()
                < p.delimiter.len()
        }),
    decreases s.parser.buf.len(), session_rank(s.parser),
{
    let p = s.parser;
    if at_rest(s) {
        if !(p.phase is Headers) {
            if find(p.buf, p.delimiter) is None {
                lemma_waits(s, routing);
            } else {
                lemma_ends(s, routing);
            }
        }
    } else {
        lemma_step_extends(s, routing, Seq::empty());
        lemma_step_consumes(s, routing);
        match session_step(s, routing) {
            SessionStep::Next(t) => {
                assert(drive(s, routing) == drive(t, routing));
                law_little_is_held_back(t, routing);
            },
            SessionStep::End(_, _) => {},
        }
    }
}

/// No part that is kept in memory is longer than the limit.
pub open spec fn within_limit(p: ParserView) -> bool {
    &&& p.disposition is Buffer ==> p.data.len() <= p.max_buffered
    &&& forall|i: int|
        0 <= i < p.parts.len() ==> ((#[trigger] p.parts[i]).content matches
            PartContentView::Buffered(data) ==> data.len() <= p.max_buffered)
}

/// Parts that are kept in memory stay within the limit.
pub proof fn law_memory_is_bounded(s: Session, routing: Routing)
    requires
        parser_wf(s.parser),
        within_limit(s.parser),
    ensures
        within_limit(drive(s, routing).0.parser),
        drive(s, routing).0.parser.max_buffered == s.parser.max_buffered,
    decreases s.parser.buf.len(), session_rank(s.parser),
{
    lemma_find(s.parser.buf, s.parser.delimiter);
    match session_step(s, routing) {
        SessionStep::Next(t) => {
            lemma_step_consumes(s, routing);
            law_memory_is_bounded(t, routing);
        },
        SessionStep::End(_, _) => {},
    }
}

/// Nothing is kept in memory of a part that is not to be.
pub open spec fn only_buffered(p: ParserView) -> bool {
    p.disposition is Buffer || p.data.len() == 0
}

/// A part that is streamed to a file, or discarded, is never kept in memory.
pub proof fn law_other_parts_take_no_memory(s: Session, routing: Routing)
    requires
        parser_wf(s.parser),
        only_buffered(s.parser),
    ensures
        only_buffered(drive(s, routing).0.parser),
    decreases s.parser.buf.len(), session_rank(s.parser),
{
    match session_step(s, routing) {
        SessionStep::Next(t) => {
            lemma_step_consumes(s, routing);
            law_other_parts_take_no_memory(t, routing);
        },
        SessionStep::End(_, _) => {},
    }
}

/// A part as it is sent: its header block and its body.
pub struct SentPart {
    pub headers: Seq<u8>,
    pub body: Seq<u8>,
}

/// What follows a delimiter: the parts that are left, or the end.
pub open spec fn encode_rest(delimiter: Seq<u8>, parts: Seq<SentPart>) -> Seq<u8>
    decreases parts.len(),
{
    if parts.len() == 0 {
        dashes()
    } else {
        crlf() + parts[0].headers + crlf_crlf() + parts[0].body + delimiter + encode_rest(
            delimiter,
            parts.skip(1),
        )
    }
}

/// A multipart body, with the line end in front of it.
pub open spec fn encode_parts(delimiter: Seq<u8>, parts: Seq<SentPart>) -> Seq<u8> {
    delimiter + encode_rest(delimiter, parts)
}

/// A part can be sent: its headers are text without a blank line, and no
/// delimiter begins in its body.
pub open spec fn can_be_sent(delimiter: Seq<u8>, part: SentPart) -> bool {
    &&& find(part.headers + crlf_crlf(), crlf_crlf()) == Some(part.headers.len() as int)
    &&& part_headers(part.headers) is Some
    &&& find(part.body + delimiter, delimiter) == Some(part.body.len() as int)
}

/// A part that is kept in memory, behind the parts `before`, is not too long
/// for that.
pub open spec fn fits(
    before: Seq<PartView>,
    part: SentPart,
    routing: Routing,
    max_buffered: nat,
) -> bool {
    routing(before, part_headers(part.headers)->0) is Buffer ==> part.body.len() <= max_buffered
}

/// The parts that are kept in memory, behind the parts `before`, are not too
/// long for that.
pub open spec fn all_fit(
    before: Seq<PartView>,
    parts: Seq<SentPart>,
    routing: Routing,
    max_buffered: nat,
) -> bool
    decreases parts.len(),
{
    parts.len() == 0 || (fits(before, parts[0], routing, max_buffered) && all_fit(
        before.push(received_part(before, parts[0], routing)),
        parts.skip(1),
        routing,
        max_buffered,
    ))
}

/// What is kept of a body.
pub open spec fn stored(body: Seq<u8>, disposition: DispositionView) -> PartContentView {
    match disposition {
        DispositionView::Buffer => PartContentView::Buffered(body),
        DispositionView::StreamToFile(path) => PartContentView::StreamedToFile {
            path,
            bytes_written: if body.len() > u64::MAX {
                u64::MAX
            } else {
                body.len() as u64
            },
        },
        DispositionView::Discard => PartContentView::Discarded,
    }
}

/// The part that is received when `part` is sent, behind the parts `before`.
pub open spec fn received_part(
    before: Seq<PartView>,
    part: SentPart,
    routing: Routing,
) -> PartView {
    let headers = part_headers(part.headers)->0;
    PartView { headers, content: stored(part.body, routing(before, headers)) }
}

/// The parts that are received when `parts` are sent, behind the parts `before`.
pub open spec fn received_parts(
    before: Seq<PartView>,
    parts: Seq<SentPart>,
    routing: Routing,
) -> Seq<PartView>
    decreases parts.len(),
{
    if parts.len() == 0 {
        before
    } else {
        received_parts(
            before.push(received_part(before, parts[0], routing)),
            parts.skip(1),
            routing,
        )
    }
}

/// The files after a part was received.
pub open spec fn written_file(
    files: Seq<FileView>,
    body: Seq<u8>,
    disposition: DispositionView,
) -> Seq<FileView> {
    match disposition {
        DispositionView::StreamToFile(path) => files.push(FileView { path, content: body }),
        _ => files,
    }
}

/// The files that are written when `parts` are sent, behind the parts `before`.
pub open spec fn written_files(
    files: Seq<FileView>,
    before: Seq<PartView>,
    parts: Seq<SentPart>,
    routing: Routing,
) -> Seq<FileView>
    decreases parts.len(),
{
    if parts.len() == 0 {
        files
    } else {
        let headers = part_headers(parts[0].headers)->0;
        written_files(
            written_file(files, parts[0].body, routing(before, headers)),
            before.push(received_part(before, parts[0], routing)),
            parts.skip(1),
            routing,
        )
    }
}

/// A session right behind a delimiter.
spec fn behind_delimiter(
    p: ParserView,
    files: Seq<FileView>,
    parts: Seq<PartView>,
    mark: Seq<u8>,
    after: Seq<u8>,
) -> Session {
    Session {
        parser: ParserView {
            buf: if mark == dashes() {
                without_crlf(after)
            } else {
                after
            },
            phase: if mark == dashes() {
                MultipartPhase::Done
            } else {
                MultipartPhase::Headers
            },
            wait: Waiting::Nothing,
            headers: no_headers(),
            disposition: DispositionView::Discard,
            data: Seq::empty(),
            file_bytes: 0,
            parts,
            ..p
        },
        files,
    }
}

/// The session once the headers of `part` were read.
spec fn reading_body(s: Session, routing: Routing, part: SentPart, rest: Seq<u8>) -> Session {
    let headers = part_headers(part.headers)->0;
    let disposition = routing(s.parser.parts, headers);
    Session {
        parser: ParserView {
            buf: rest,
            wait: Waiting::Nothing,
            phase: MultipartPhase::Body,
            headers,
            disposition,
            data: Seq::empty(),
            file_bytes: 0,
            ..s.parser
        },
        files: match disposition {
            DispositionView::StreamToFile(path) => s.files.push(
                FileView { path, content: Seq::empty() },
            ),
            _ => s.files,
        },
    }
}

/// A session reads the headers of a part as they were sent.
proof fn lemma_headers_read_back(s: Session, routing: Routing, part: SentPart, rest: Seq<u8>)
    requires
        parser_wf(s.parser),
        s.parser.phase is Headers,
        s.parser.wait is Nothing,
        can_be_sent(s.parser.delimiter, part),
        s.parser.buf == part.headers + crlf_crlf() + rest,
    ensures
        drive(s, routing) == drive(reading_body(s, routing, part, rest), routing),
{
    let p = s.parser;
    let h = part.headers;
    let headers = part_headers(h)->0;
    let disposition = routing(p.parts, headers);
    let n = h.len() as int;
    lemma_find_extends(h + crlf_crlf(), rest, crlf_crlf());
    assert(p.buf.take(n) =~= h);
    assert(p.buf.skip(n + 4) =~= rest);
    let begun = Session {
        parser: begin_part(ParserView { buf: rest, ..p }, headers, disposition),
        ..s
    };
    assert(session_step(s, routing) == SessionStep::Next(begun));
    assert(drive(s, routing) == drive(begun, routing));
    let reading = reading_body(s, routing, part, rest);
    if disposition is StreamToFile {
        assert(session_step(begun, routing) == SessionStep::Next(reading));
    } else {
        assert(begun == reading);
    }
}

/// A session that reads a body right in front of a delimiter completes the part.
proof fn lemma_part_completed(s: Session, routing: Routing, mark: Seq<u8>, after: Seq<u8>)
    requires
        parser_wf(s.parser),
        s.parser.phase is Body,
        s.parser.wait is Nothing,
        mark == crlf() || mark == dashes(),
        s.parser.buf == s.parser.delimiter + mark + after,
        !(s.parser.disposition is Buffer) ==> s.parser.data.len() == 0,
    ensures
        ({
            let p = s.parser;
            let content = match p.disposition {
                DispositionView::Buffer => PartContentView::Buffered(p.data),
                DispositionView::StreamToFile(path) => PartContentView::StreamedToFile {
                    path,
                    bytes_written: p.file_bytes as u64,
                },
                DispositionView::Discard => PartContentView::Discarded,
            };
            let part = PartView { headers: p.headers, content };
            drive(s, routing) == drive(
                behind_delimiter(p, s.files, p.parts.push(part), mark, after),
                routing,
            )
        }),
{
    let p = s.parser;
    let d = p.delimiter;
    let end = p.buf;
    assert(end.subrange(0, d.len() as int) =~= d);
    lemma_find_is(end, d, 0);
    assert(end.subrange(d.len() as int, d.len() as int + 2) =~= mark);
    assert(end.skip(d.len() as int + 2) =~= after);
    assert(end.take(0) =~= Seq::empty());
    assert(p.data + Seq::<u8>::empty() =~= p.data);
    assert(!(p.disposition is Buffer) ==> p.data =~= Seq::empty());
    assert(crlf()[0] != dashes()[0]);
    if p.disposition is StreamToFile {
        let flushing = Session { parser: ParserView { wait: Waiting::Flush { pos: 0 }, ..p }, ..s };
        assert(session_step(s, routing) == SessionStep::Next(flushing));
        assert(drive(s, routing) == drive(flushing, routing));
    }
}

/// A session reads one part as it was sent.
proof fn lemma_part_reads_back(
    s: Session,
    routing: Routing,
    part: SentPart,
    mark: Seq<u8>,
    after: Seq<u8>,
)
    requires
        parser_wf(s.parser),
        s.parser.phase is Headers,
        s.parser.wait is Nothing,
        can_be_sent(s.parser.delimiter, part),
        fits(s.parser.parts, part, routing, s.parser.max_buffered),
        mark == crlf() || mark == dashes(),
        s.parser.buf == part.headers + crlf_crlf() + (part.body + s.parser.delimiter + (mark
            + after)),
    ensures
        ({
            let p = s.parser;
            let next = behind_delimiter(
                p,
                written_file(
                    s.files,
                    part.body,
                    routing(p.parts, part_headers(part.headers)->0),
                ),
                p.parts.push(received_part(p.parts, part, routing)),
                mark,
                after,
            );
            alike(drive(s, routing), drive(next, routing))
        }),
{
    let p = s.parser;
    let d = p.delimiter;
    let body = part.body;
    let disposition = routing(p.parts, part_headers(part.headers)->0);
    let rest = body + d + (mark + after);
    lemma_headers_read_back(s, routing, part, rest);
    let reading = reading_body(s, routing, part, rest);
    lemma_find_extends(body + d, mark + after, d);
    lemma_ends(reading, routing);
    let read = consumed(reading, body.len() as int);
    assert(rest.skip(body.len() as int) =~= d + mark + after);
    assert(rest.take(body.len() as int) =~= body);
    assert(Seq::<u8>::empty() + body =~= body);
    if disposition is StreamToFile {
        assert(reading.files.drop_last() =~= s.files);
    }
    lemma_part_completed(read, routing, mark, after);
}

/// A session that has read nothing but the bytes of its buffer.
pub open spec fn fresh_session(delimiter: Seq<u8>, buf: Seq<u8>, max_buffered: nat) -> Session {
    Session { parser: fresh_parser(delimiter, buf, max_buffered), files: Seq::empty() }
}

/// The parts that are left read back.
proof fn lemma_rest_reads_back(
    s: Session,
    routing: Routing,
    parts: Seq<SentPart>,
    more: Seq<u8>,
)
    requires
        parser_wf(s.parser),
        s.parser.phase is Headers,
        s.parser.wait is Nothing,
        parts.len() > 0,
        forall|i: int|
            0 <= i < parts.len() ==> can_be_sent(s.parser.delimiter, #[trigger] parts[i]),
        all_fit(s.parser.parts, parts, routing, s.parser.max_buffered),
        crlf() + s.parser.buf == encode_rest(s.parser.delimiter, parts) + more,
    ensures
        drive(s, routing).1 is Done,
        drive(s, routing).0.parser.parts == received_parts(s.parser.parts, parts, routing),
        drive(s, routing).0.files == written_files(s.files, s.parser.parts, parts, routing),
    decreases parts.len(),
{
    let p = s.parser;
    let d = p.delimiter;
    let part = parts[0];
    let left = parts.skip(1);
    let rest = encode_rest(d, left);
    assert(can_be_sent(d, part));
    assert(s.parser.buf =~= (crlf() + s.parser.buf).skip(2));
    let mark = rest.take(2);
    let after = rest.skip(2) + more;
    if left.len() == 0 {
        assert(mark =~= dashes());
    } else {
        assert(mark =~= crlf());
    }
    assert(crlf()[0] != dashes()[0]);
    assert(p.buf =~= part.headers + crlf_crlf() + (part.body + d + (mark + after)));
    let disposition = routing(p.parts, part_headers(part.headers)->0);
    let next = behind_delimiter(
        p,
        written_file(s.files, part.body, disposition),
        p.parts.push(received_part(p.parts, part, routing)),
        mark,
        after,
    );
    if left.len() == 0 {
        assert(session_step(next, routing) == SessionStep::End(next, SessionEnd::Done));
        reveal_with_fuel(received_parts, 2);
        reveal_with_fuel(written_files, 2);
    } else {
        assert forall|i: int| 0 <= i < left.len() implies can_be_sent(d, #[trigger] left[i]) by {
            assert(left[i] == parts[i + 1]);
        }
        assert(crlf() + after =~= rest + more);
        lemma_rest_reads_back(next, routing, left, more);
    }
    lemma_part_reads_back(s, routing, part, mark, after);
}

/// What is sent reads back: the parts of a body come out as they were sent, in
/// order, each stored as it is routed, and what follows the body is ignored.
pub proof fn law_sent_parts_read_back(
    delimiter: Seq<u8>,
    max_buffered: nat,
    routing: Routing,
    parts: Seq<SentPart>,
    more: Seq<u8>,
)
    requires
        delimiter.len() > 0,
        forall|i: int| 0 <= i < parts.len() ==> can_be_sent(delimiter, #[trigger] parts[i]),
        all_fit(Seq::empty(), parts, routing, max_buffered),
    ensures
        ({
            let sent = encode_parts(delimiter, parts) + more;
            let end = drive(fresh_session(delimiter, sent, max_buffered), routing);
            &&& end.1 is Done
            &&& end.0.parser.parts == received_parts(Seq::empty(), parts, routing)
            &&& end.0.files == written_files(Seq::empty(), Seq::empty(), parts, routing)
        }),
{
    let sent = encode_parts(delimiter, parts) + more;
    let s = fresh_session(delimiter, sent, max_buffered);
    let rest = encode_rest(delimiter, parts);
    let d = delimiter.len() as int;
    assert(sent.subrange(0, d) =~= delimiter);
    lemma_find_is(sent, delimiter, 0);
    assert(sent.subrange(d, d + 2) =~= rest.take(2));
    assert(sent.skip(d + 2) =~= rest.skip(2) + more);
    assert(crlf()[0] != dashes()[0]);
    if parts.len() == 0 {
        assert(rest.take(2) =~= dashes());
        let next = session_step(s, routing)->Next_0;
        assert(session_step(next, routing) == SessionStep::End(next, SessionEnd::Done));
        assert(drive(next, routing) == (next, SessionEnd::Done));
    } else {
        assert(rest.take(2) =~= crlf());
        let next = session_step(s, routing)->Next_0;
        assert(crlf() + next.parser.buf =~= rest + more);
        lemma_rest_reads_back(next, routing, parts, more);
        assert(drive(s, routing) == drive(next, routing));
    }
}

/// The headers of a part are not too long to be waited for.
pub open spec fn can_be_awaited(part: SentPart) -> bool {
    part.headers.len() + 3 <= 65536
}

/// A pattern whose first occurrence ends a text does not occur in less of it.
proof fn lemma_not_yet(head: Seq<u8>, needle: Seq<u8>, part: Seq<u8>, more: Seq<u8>)
    requires
        needle.len() > 0,
        find(head + needle, needle) == Some(head.len() as int),
        part.len() < head.len() + needle.len(),
        part.is_prefix_of(head + needle + more),
    ensures
        find(part, needle) is None,
{
    let text = head + needle;
    lemma_find(text, needle);
    lemma_find(part, needle);
    if find(part, needle) is Some {
        let i = find(part, needle)->0;
        assert(text.subrange(i, i + needle.len()) =~= part.subrange(i, i + needle.len())) by {
            assert forall|j: int| 0 <= j < part.len() implies part[j] == text[j] by {
                assert((text + more).take(part.len() as int)[j] == part[j]);
            }
        }
        assert(occurs_at(text, needle, i));
    }
}

/// The headers of no part are too long to be waited for.
pub open spec fn all_awaited(parts: Seq<SentPart>) -> bool {
    forall|i: int| 0 <= i < parts.len() ==> can_be_awaited(#[trigger] parts[i])
}

/// As long as a body is not complete, a session that has read a part of it
/// waits for more.
proof fn lemma_rest_is_awaited(
    s: Session,
    routing: Routing,
    parts: Seq<SentPart>,
    missing: Seq<u8>,
)
    requires
        parser_wf(s.parser),
        s.parser.phase is Headers,
        s.parser.wait is Nothing,
        parts.len() > 0,
        forall|i: int|
            0 <= i < parts.len() ==> can_be_sent(s.parser.delimiter, #[trigger] parts[i]),
        missing.len() > 0,
        crlf() + s.parser.buf + missing == encode_rest(s.parser.delimiter, parts),
    ensures
        !(drive(s, routing).1 is Done),
        all_awaited(parts) && all_fit(s.parser.parts, parts, routing, s.parser.max_buffered)
            ==> drive(s, routing).1 is NeedMore,
    decreases parts.len(),
{
    let p = s.parser;
    let d = p.delimiter;
    let part = parts[0];
    let h = part.headers;
    let body = part.body;
    let left = parts.skip(1);
    let rest = encode_rest(d, left);
    assert(can_be_sent(d, part));
    let waited = all_awaited(parts) && all_fit(p.parts, parts, routing, p.max_buffered);
    assert(waited ==> can_be_awaited(part));
    let full = h + crlf_crlf() + body + d + rest;
    assert(p.buf + missing =~= full) by {
        assert(p.buf + missing =~= (crlf() + p.buf + missing).skip(2));
        assert(full =~= encode_rest(d, parts).skip(2));
    }
    let n = h.len() as int;
    if p.buf.len() < n + 4 {
        assert(full =~= h + crlf_crlf() + (body + d + rest));
        assert(p.buf =~= full.take(p.buf.len() as int));
        lemma_not_yet(h, crlf_crlf(), p.buf, body + d + rest);
    } else {
        let read = p.buf.skip(n + 4);
        assert(p.buf =~= h + crlf_crlf() + read) by {
            assert(p.buf =~= full.take(p.buf.len() as int));
        }
        assert(read + missing =~= body + d + rest) by {
            assert(read + missing =~= full.skip(n + 4));
        }
        lemma_headers_read_back(s, routing, part, read);
        let reading = reading_body(s, routing, part, read);
        let end = body.len() as int + d.len();
        if read.len() < end {
            assert(read =~= (body + d + rest).take(read.len() as int));
            lemma_not_yet(body, d, read, rest);
            lemma_waits(reading, routing);
        } else {
            let behind = read.skip(end);
            assert(read =~= body + d + behind) by {
                assert(read =~= (body + d + rest).take(read.len() as int));
            }
            assert(behind + missing =~= rest) by {
                assert(behind + missing =~= (body + d + rest).skip(end));
            }
            lemma_find_extends(body + d, behind, d);
            if behind.len() < 2 {
                lemma_ends(reading, routing);
            } else {
                let mark = behind.take(2);
                let after = behind.skip(2);
                assert(behind =~= mark + after);
                assert(mark =~= rest.take(2));
                if left.len() == 0 {
                    assert(rest.len() == 2);
                } else {
                    assert(mark =~= crlf());
                    assert(crlf()[0] != dashes()[0]);
                    let next = behind_delimiter(
                        p,
                        written_file(
                            s.files,
                            body,
                            routing(p.parts, part_headers(h)->0),
                        ),
                        p.parts.push(received_part(p.parts, part, routing)),
                        mark,
                        after,
                    );
                    assert forall|i: int| 0 <= i < left.len() implies can_be_sent(
                        d,
                        #[trigger] left[i],
                    ) by {
                        assert(left[i] == parts[i + 1]);
                    }
                    assert forall|i: int| waited && 0 <= i < left.len() implies can_be_awaited(
                        #[trigger] left[i],
                    ) by {
                        assert(left[i] == parts[i + 1]);
                    }
                    assert(crlf() + after + missing =~= rest);
                    lemma_rest_is_awaited(next, routing, left, missing);
                    if fits(p.parts, part, routing, p.max_buffered) {
                        lemma_part_reads_back(s, routing, part, mark, after);
                    } else {
                        lemma_ends(reading, routing);
                    }
                }
            }
        }
    }
}

/// As long as a body is not complete, more of it is waited for, unless headers
/// or a part in memory are too long; it is never taken for complete.
pub proof fn law_incomplete_bodies_are_awaited(
    delimiter: Seq<u8>,
    max_buffered: nat,
    routing: Routing,
    parts: Seq<SentPart>,
    arrived: Seq<u8>,
    missing: Seq<u8>,
)
    requires
        delimiter.len() > 0,
        forall|i: int| 0 <= i < parts.len() ==> can_be_sent(delimiter, #[trigger] parts[i]),
        missing.len() > 0,
        arrived + missing == encode_parts(delimiter, parts),
    ensures
        ({
            let end = drive(fresh_session(delimiter, arrived, max_buffered), routing).1;
            &&& !(end is Done)
            &&& all_awaited(parts) && all_fit(Seq::empty(), parts, routing, max_buffered)
                ==> end is NeedMore
        }),
{
    let s = fresh_session(delimiter, arrived, max_buffered);
    let rest = encode_rest(delimiter, parts);
    let d = delimiter.len() as int;
    assert(arrived =~= (delimiter + rest).take(arrived.len() as int));
    if arrived.len() < d {
        assert(find(Seq::<u8>::empty() + delimiter, delimiter) == Some(0int)) by {
            assert(Seq::<u8>::empty() + delimiter =~= delimiter);
            assert(delimiter.subrange(0, d) =~= delimiter);
            lemma_find_is(delimiter, delimiter, 0);
        }
        assert(Seq::<u8>::empty() + delimiter + rest =~= delimiter + rest);
        lemma_not_yet(Seq::empty(), delimiter, arrived, rest);
        lemma_waits(s, routing);
    } else {
        let behind = arrived.skip(d);
        assert(arrived =~= delimiter + behind);
        assert(arrived.subrange(0, d) =~= delimiter);
        lemma_find_is(arrived, delimiter, 0);
        assert(behind + missing =~= rest) by {
            assert(behind + missing =~= (delimiter + rest).skip(d));
        }
        if behind.len() < 2 {
            lemma_ends(s, routing);
        } else {
            assert(arrived.subrange(d, d + 2) =~= rest.take(2));
            if parts.len() == 0 {
                assert(rest.len() == 2);
            } else {
                assert(rest.take(2) =~= crlf());
                assert(crlf()[0] != dashes()[0]);
                let next = session_step(s, routing)->Next_0;
                assert(crlf() + next.parser.buf + missing =~= rest);
                lemma_rest_is_awaited(next, routing, parts, missing);
                assert(drive(s, routing) == drive(next, routing));
            }
        }
    }
}

/// No header block that a session reads is too long to be waited for.
pub open spec fn headers_awaited(s: Session, routing: Routing) -> bool
    decreases s.parser.buf.len(), session_rank(s.parser),
    when parser_wf(s.parser)
{
    &&& s.parser.wait is Nothing && s.parser.phase is Headers ==> (find(
        s.parser.buf,
        crlf_crlf(),
    ) matches Some(end) ==> end + 3 <= 65536)
    &&& match session_step(s, routing) {
        SessionStep::End(_, _) => true,
        SessionStep::Next(t) => {
            proof {
                lemma_step_consumes(s, routing);
            }
            headers_awaited(t, routing)
        },
    }
}

/// A body that leads to its end is not refused on the way there, unless headers
/// are too long to be waited for.
pub proof fn law_complete_bodies_do_not_fail_on_the_way(
    s: Session,
    routing: Routing,
    more: Seq<u8>,
)
    requires
        parser_wf(s.parser),
        !(s.parser.wait is WriteSome),
        drive(feed(s, more), routing).1 is Done,
        headers_awaited(feed(s, more), routing),
    ensures
        !(drive(s, routing).1 is Fail),
    decreases s.parser.buf.len(), session_rank(s.parser),
{
    let p = s.parser;
    let fed = feed(s, more);
    lemma_find(p.buf, p.delimiter);
    lemma_find(p.buf, crlf_crlf());
    lemma_find(fed.parser.buf, p.delimiter);
    lemma_find(fed.parser.buf, crlf_crlf());
    if at_rest(s) {
        if p.phase is Headers {
            assert(find(fed.parser.buf, crlf_crlf()) is Some);
            let end = find(fed.parser.buf, crlf_crlf())->0;
            if end + 4 <= p.buf.len() {
                lemma_occurs_in_prefix(p.buf, more, crlf_crlf(), end);
            }
        } else if find(p.buf, p.delimiter) is None {
            lemma_waits(s, routing);
            match find(fed.parser.buf, p.delimiter) {
                None => {
                    lemma_waits(fed, routing);
                },
                Some(pos) => {
                    lemma_ends(fed, routing);
                    if pos + p.delimiter.len() <= p.buf.len() {
                        lemma_occurs_in_prefix(p.buf, more, p.delimiter, pos);
                    }
                },
            }
        } else {
            lemma_ends(s, routing);
        }
    } else {
        lemma_step_extends(s, routing, more);
        lemma_step_consumes(s, routing);
        match session_step(s, routing) {
            SessionStep::Next(t) => {
                assert(drive(s, routing) == drive(t, routing));
                if t.parser.phase is Done && t.parser.wait is Nothing {
                    assert(session_step(t, routing) == SessionStep::End(t, SessionEnd::Done));
                } else {
                    assert(drive(fed, routing) == drive(feed(t, more), routing));
                    law_complete_bodies_do_not_fail_on_the_way(t, routing, more);
                }
            },
            SessionStep::End(_, _) => {},
        }
    }
}

/// What stands before the first boundary is ignored.
pub proof fn law_the_preamble_is_ignored(
    delimiter: Seq<u8>,
    max_buffered: nat,
    routing: Routing,
    preamble: Seq<u8>,
    rest: Seq<u8>,
)
    requires
        delimiter.len() > 0,
        find(preamble + delimiter, delimiter) == Some(preamble.len() as int),
    ensures
        ({
            let with = drive(
                fresh_session(delimiter, preamble + delimiter + rest, max_buffered),
                routing,
            );
            let without = drive(fresh_session(delimiter, delimiter + rest, max_buffered), routing);
            &&& with.1 == without.1
            &&& with.0.parser.parts == without.0.parser.parts
            &&& with.0.files == without.0.files
        }),
{
    let s = fresh_session(delimiter, preamble + delimiter + rest, max_buffered);
    let t = fresh_session(delimiter, delimiter + rest, max_buffered);
    let n = preamble.len() as int;
    lemma_find_extends(preamble + delimiter, rest, delimiter);
    assert((delimiter + rest).subrange(0, delimiter.len() as int) =~= delimiter);
    lemma_find_is(delimiter + rest, delimiter, 0);
    lemma_ends(s, routing);
    lemma_ends(t, routing);
    assert(s.parser.buf.skip(n) =~= delimiter + rest);
    assert(consumed(s, n) == t);
}

/// A body is refused in which something else than a line end or the end of the
/// body stands behind a boundary.
pub proof fn law_malformed_boundaries_are_refused(
    delimiter: Seq<u8>,
    max_buffered: nat,
    routing: Routing,
    mark: Seq<u8>,
    more: Seq<u8>,
)
    requires
        delimiter.len() > 0,
        mark.len() == 2,
        mark != seq![13u8, 10u8],
        mark != seq![45u8, 45u8],
    ensures
        drive(fresh_session(delimiter, delimiter + mark + more, max_buffered), routing).1
            == SessionEnd::Fail(MultipartError::MalformedBoundary),
{
    let buf = delimiter + mark + more;
    let d = delimiter.len() as int;
    assert(buf.subrange(0, d) =~= delimiter);
    lemma_find_is(buf, delimiter, 0);
    assert(buf.subrange(d, d + 2) =~= mark);
}

/// A session right behind the first boundary of a body.
proof fn lemma_at_headers(delimiter: Seq<u8>, max_buffered: nat, routing: Routing, rest: Seq<u8>)
    requires
        delimiter.len() > 0,
    ensures
        ({
            let s = fresh_session(delimiter, delimiter + seq![13u8, 10u8] + rest, max_buffered);
            let t = Session {
                parser: ParserView { phase: MultipartPhase::Headers, buf: rest, ..s.parser },
                ..s
            };
            &&& parser_wf(t.parser)
            &&& drive(s, routing) == drive(t, routing)
        }),
{
    let buf = delimiter + seq![13u8, 10u8] + rest;
    let s = fresh_session(delimiter, buf, max_buffered);
    let d = delimiter.len() as int;
    assert(buf.subrange(0, d) =~= delimiter);
    lemma_find_is(buf, delimiter, 0);
    assert(buf.subrange(d, d + 2) =~= crlf());
    assert(crlf()[0] != dashes()[0]);
    assert(buf.skip(d + 2) =~= rest);
    let t = Session {
        parser: ParserView { phase: MultipartPhase::Headers, buf: rest, ..s.parser },
        ..s
    };
    assert(session_step(s, routing) == SessionStep::Next(t));
}

/// A part is refused whose headers take more than 64 KiB without an end, or are no
/// text.
pub proof fn law_bad_headers_are_refused(
    delimiter: Seq<u8>,
    max_buffered: nat,
    routing: Routing,
    headers: Seq<u8>,
    more: Seq<u8>,
)
    requires
        delimiter.len() > 0,
    ensures
        ({
            let front = delimiter + seq![13u8, 10u8];
            &&& headers.len() > 65536 && find(headers, crlf_crlf()) is None ==> drive(
                fresh_session(delimiter, front + headers, max_buffered),
                routing,
            ).1 == SessionEnd::Fail(MultipartError::HeadersTooLarge)
            &&& find(headers + crlf_crlf(), crlf_crlf()) == Some(headers.len() as int)
                && !valid_utf8(headers) ==> drive(
                fresh_session(delimiter, front + (headers + crlf_crlf() + more), max_buffered),
                routing,
            ).1 == SessionEnd::Fail(MultipartError::HeadersNotUtf8)
        }),
{
    reveal(part_headers);
    lemma_at_headers(delimiter, max_buffered, routing, headers);
    lemma_at_headers(delimiter, max_buffered, routing, headers + crlf_crlf() + more);
    if find(headers + crlf_crlf(), crlf_crlf()) == Some(headers.len() as int) {
        lemma_find_extends(headers + crlf_crlf(), more, crlf_crlf());
        assert((headers + crlf_crlf() + more).take(headers.len() as int) =~= headers);
    }
}

/// A part that is to be kept in memory and is too long for that is refused.
pub proof fn law_long_parts_are_refused(
    delimiter: Seq<u8>,
    max_buffered: nat,
    routing: Routing,
    part: SentPart,
    mark: Seq<u8>,
    more: Seq<u8>,
)
    requires
        delimiter.len() > 0,
        can_be_sent(delimiter, part),
        routing(Seq::empty(), part_headers(part.headers)->0) is Buffer,
        part.body.len() > max_buffered,
        mark.len() == 2,
    ensures
        drive(
            fresh_session(
                delimiter,
                delimiter + seq![13u8, 10u8] + (part.headers + crlf_crlf() + (part.body + delimiter
                    + mark + more)),
                max_buffered,
            ),
            routing,
        ).1 == SessionEnd::Fail(MultipartError::PartTooLarge { limit: max_buffered as usize }),
{
    let h = part.headers;
    let after = part.body + delimiter + mark + more;
    let rest = h + crlf_crlf() + after;
    let s = fresh_session(delimiter, delimiter + seq![13u8, 10u8] + rest, max_buffered);
    lemma_at_headers(delimiter, max_buffered, routing, rest);
    lemma_find_extends(h + crlf_crlf(), after, crlf_crlf());
    assert(rest.take(h.len() as int) =~= h);
    assert(rest.skip(h.len() as int + 4) =~= after);
    let t = Session {
        parser: ParserView { phase: MultipartPhase::Headers, buf: rest, ..s.parser },
        ..s
    };
    let headers = part_headers(h)->0;
    let u = Session {
        parser: begin_part(
            ParserView { buf: after, ..t.parser },
            headers,
            DispositionView::Buffer,
        ),
        ..s
    };
    assert(session_step(t, routing) == SessionStep::Next(u));
    assert(parser_wf(u.parser));
    lemma_find_extends(part.body + delimiter, mark + more, delimiter);
    assert(after =~= part.body + delimiter + (mark + more));
    assert(session_step(u, routing) == SessionStep::End(
        u,
        SessionEnd::Fail(MultipartError::PartTooLarge { limit: max_buffered as usize }),
    ));
    assert(drive(u, routing).1 == SessionEnd::Fail(
        MultipartError::PartTooLarge { limit: max_buffered as usize },
    ));
    assert(drive(t, routing) == drive(u, routing));
}

} // verus!
