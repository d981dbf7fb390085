//! The incremental parser for multipart bodies.

use vstd::prelude::*;

use crate::bytes::{append_bytes, crlf, crlf_crlf, dashes, drain_front, find, find_subsequence, lemma_find, starts_with, CR, DASH, LF};
use crate::chunked::ChunkError;
use crate::parts::{no_headers, parse_part_headers, part_headers, DispositionView, MultipartPart, PartContent, PartContentView, PartDisposition, PartHeaders, PartHeadersView, PartView};

verus! {

/// The longest header block of a part that is waited for.
pub const MAX_PART_HEADERS: usize = 65536;

/// Why a multipart body is refused.
#[derive(Debug, Clone, Copy, PartialEq, Eq, Structural)]
pub enum MultipartError {
    /// The chunked framing is broken.
    Chunk(ChunkError),
    /// The socket failed.
    Socket,
    /// The body is longer than `limit` bytes.
    BodyTooLarge { limit: u64 },
    /// The body ended before the terminal boundary was found.
    Truncated,
    /// A boundary is followed by bytes that cannot follow one.
    MalformedBoundary,
    /// The headers of a part are too long.
    HeadersTooLarge,
    /// The headers of a part are not valid UTF-8.
    HeadersNotUtf8,
    /// A part that is kept in memory is longer than `limit` bytes.
    PartTooLarge { limit: usize },
    /// The file for a part could not be created.
    CreateFailed,
    /// The file for a part could not be written.
    WriteFailed,
    /// The file for a part could not be flushed.
    FlushFailed,
}

/// What the parser reads next.
#[derive(Debug, Clone, Copy, PartialEq, Eq, Structural)]
pub enum MultipartPhase {
    /// Before the first boundary; any preamble data is discarded.
    Preamble,
    /// Reading the MIME headers of the current part.
    Headers,
    /// Reading the body of the current part.
    Body,
    /// Terminal boundary seen: all parts received.
    Done,
}

/// The work on a file that the parser waits for.
#[derive(Debug, Clone, Copy, PartialEq, Eq, Structural)]
pub enum FileWait {
    /// None.
    Nothing,
    /// The file for the current part is to be created.
    Create,
    /// The last bytes of the current part, which end at `pos`, are to be written.
    WriteLast { pos: usize },
    /// The file for the current part, which ends at `pos`, is to be flushed.
    Flush { pos: usize },
    /// The first `len` bytes, which belong to the current part, are to be written.
    WriteSome { len: usize },
}

/// [`FileWait`], with places as integers.
pub enum Waiting {
    Nothing,
    Create,
    WriteLast { pos: int },
    Flush { pos: int },
    WriteSome { len: int },
}

impl View for FileWait {
    type V = Waiting;

    open spec fn view(&self) -> Waiting {
        match self {
            FileWait::Nothing => Waiting::Nothing,
            FileWait::Create => Waiting::Create,
            FileWait::WriteLast { pos } => Waiting::WriteLast { pos: *pos as int },
            FileWait::Flush { pos } => Waiting::Flush { pos: *pos as int },
            FileWait::WriteSome { len } => Waiting::WriteSome { len: *len as int },
        }
    }
}

/// A parser, mathematically.
pub struct ParserView {
    /// What stands in front of every boundary line, and the boundary.
    pub delimiter: Seq<u8>,
    /// The bytes that are not consumed yet.
    pub buf: Seq<u8>,
    pub phase: MultipartPhase,
    pub wait: Waiting,
    /// The headers of the current part.
    pub headers: PartHeadersView,
    /// How the body of the current part is consumed.
    pub disposition: DispositionView,
    /// The body of the current part, as far as it is kept in memory.
    pub data: Seq<u8>,
    /// The bytes of the current part that were written to its file.
    pub file_bytes: nat,
    /// The completed parts.
    pub parts: Seq<PartView>,
    /// The most bytes of a part that are kept in memory.
    pub max_buffered: nat,
}

/// What the parser needs before it can go on.
pub enum Pause {
    /// More bytes.
    NeedMore,
    /// Nothing: all parts are received.
    Done,
    /// A decision on the part with these headers.
    Route(PartHeadersView),
    /// A new file at this path.
    Create(Seq<char>),
    /// These bytes at the end of the file.
    Write(Seq<u8>),
    /// The file flushed.
    Flush,
}

/// One move of a parser.
pub enum Move {
    /// It went on.
    Next(ParserView),
    /// It cannot go on by itself.
    Stop(ParserView, Pause),
    /// The body is refused.
    Fail(ParserView, MultipartError),
}

/// `buf` without a line end at its front.
pub open spec fn without_crlf(buf: Seq<u8>) -> Seq<u8> {
    if crlf().is_prefix_of(buf) {
        buf.skip(2)
    } else {
        buf
    }
}

/// Reads the two bytes behind a delimiter that ends at `after`.
pub open spec fn end_boundary(p: ParserView, after: int) -> Move {
    let mark = p.buf.subrange(after, after + 2);
    if mark == dashes() {
        Move::Next(
            ParserView {
                buf: without_crlf(p.buf.skip(after + 2)),
                phase: MultipartPhase::Done,
                ..p
            },
        )
    } else if mark == crlf() {
        Move::Next(
            ParserView { buf: p.buf.skip(after + 2), phase: MultipartPhase::Headers, ..p },
        )
    } else {
        Move::Fail(p, MultipartError::MalformedBoundary)
    }
}

/// Skips what stands before the first boundary.
pub open spec fn preamble_move(p: ParserView) -> Move {
    match find(p.buf, p.delimiter) {
        None => {
            let keep = p.delimiter.len() - 1;
            let buf = if p.buf.len() > keep {
                p.buf.skip(p.buf.len() - keep)
            } else {
                p.buf
            };
            Move::Stop(ParserView { buf, ..p }, Pause::NeedMore)
        },
        Some(pos) => {
            let after = pos + p.delimiter.len();
            if p.buf.len() < after + 2 {
                Move::Stop(p, Pause::NeedMore)
            } else {
                end_boundary(p, after)
            }
        },
    }
}

/// Reads the headers of a part.
pub open spec fn headers_move(p: ParserView) -> Move {
    match find(p.buf, crlf_crlf()) {
        None => if p.buf.len() > MAX_PART_HEADERS {
            Move::Fail(p, MultipartError::HeadersTooLarge)
        } else {
            Move::Stop(p, Pause::NeedMore)
        },
        Some(end) => {
            let q = ParserView { buf: p.buf.skip(end + 4), ..p };
            match part_headers(p.buf.take(end)) {
                None => Move::Fail(q, MultipartError::HeadersNotUtf8),
                Some(headers) => Move::Stop(q, Pause::Route(headers)),
            }
        },
    }
}

/// Completes the current part, whose body ends at `pos`.
pub open spec fn end_part(p: ParserView, pos: int) -> Move {
    let content = match p.disposition {
        DispositionView::Buffer => PartContentView::Buffered(p.data),
        DispositionView::StreamToFile(path) => PartContentView::StreamedToFile {
            path,
            bytes_written: p.file_bytes as u64,
        },
        DispositionView::Discard => PartContentView::Discarded,
    };
    let q = ParserView {
        wait: Waiting::Nothing,
        headers: no_headers(),
        disposition: DispositionView::Discard,
        data: if p.disposition is Buffer {
            Seq::empty()
        } else {
            p.data
        },
        file_bytes: 0,
        parts: p.parts.push(PartView { headers: p.headers, content }),
        ..p
    };
    end_boundary(q, pos + p.delimiter.len())
}

/// Reads the body of a part.
pub open spec fn body_move(p: ParserView) -> Move {
    match find(p.buf, p.delimiter) {
        Some(pos) => if p.buf.len() < pos + p.delimiter.len() + 2 {
            Move::Stop(p, Pause::NeedMore)
        } else {
            match p.disposition {
                DispositionView::Buffer => if pos > 0 && p.data.len() + pos > p.max_buffered {
                    Move::Fail(
                        p,
                        MultipartError::PartTooLarge { limit: p.max_buffered as usize },
                    )
                } else {
                    end_part(ParserView { data: p.data + p.buf.take(pos), ..p }, pos)
                },
                DispositionView::StreamToFile(_) => Move::Next(
                    ParserView {
                        wait: if pos > 0 {
                            Waiting::WriteLast { pos }
                        } else {
                            Waiting::Flush { pos }
                        },
                        ..p
                    },
                ),
                DispositionView::Discard => end_part(p, pos),
            }
        },
        None => {
            let held = p.delimiter.len() - 1;
            let len = p.buf.len() - held;
            if len <= 0 {
                Move::Stop(p, Pause::NeedMore)
            } else {
                match p.disposition {
                    DispositionView::Buffer => if p.data.len() + len > p.max_buffered {
                        Move::Fail(
                            p,
                            MultipartError::PartTooLarge { limit: p.max_buffered as usize },
                        )
                    } else {
                        Move::Stop(
                            ParserView {
                                data: p.data + p.buf.take(len),
                                buf: p.buf.skip(len),
                                ..p
                            },
                            Pause::NeedMore,
                        )
                    },
                    DispositionView::StreamToFile(_) => Move::Next(
                        ParserView { wait: Waiting::WriteSome { len }, ..p },
                    ),
                    DispositionView::Discard => Move::Stop(
                        ParserView { buf: p.buf.skip(len), ..p },
                        Pause::NeedMore,
                    ),
                }
            }
        },
    }
}

/// The move that a parser makes.
pub open spec fn parse_move(p: ParserView) -> Move {
    match p.wait {
        Waiting::Create => Move::Stop(p, Pause::Create(p.disposition->StreamToFile_0)),
        Waiting::WriteLast { pos } => Move::Stop(p, Pause::Write(p.buf.take(pos))),
        Waiting::WriteSome { len } => Move::Stop(p, Pause::Write(p.buf.take(len))),
        Waiting::Flush { .. } => Move::Stop(p, Pause::Flush),
        Waiting::Nothing => match p.phase {
            MultipartPhase::Preamble => preamble_move(p),
            MultipartPhase::Headers => headers_move(p),
            MultipartPhase::Body => body_move(p),
            MultipartPhase::Done => Move::Stop(p, Pause::Done),
        },
    }
}

/// Orders the moves that consume nothing.
pub open spec fn wait_rank(p: ParserView) -> nat {
    if p.wait is Nothing {
        1
    } else {
        0
    }
}

/// Every move consumes bytes or leads to work on a file.
pub proof fn lemma_move_consumes(p: ParserView)
    ensures
        parse_move(p) matches Move::Next(q) ==> {
            ||| q.buf.len() < p.buf.len()
            ||| q.buf.len() == p.buf.len() && wait_rank(q) < wait_rank(p)
        },
{
    lemma_find(p.buf, p.delimiter);
    lemma_find(p.buf, crlf_crlf());
}

/// How a run of moves ended.
pub enum ParseEnd {
    Stop(Pause),
    Fail(MultipartError),
}

/// Moves as long as the parser can go on by itself.
pub open spec fn parse_run(p: ParserView) -> (ParserView, ParseEnd)
    decreases p.buf.len(), wait_rank(p),
{
    match parse_move(p) {
        Move::Stop(q, pause) => (q, ParseEnd::Stop(pause)),
        Move::Fail(q, error) => (q, ParseEnd::Fail(error)),
        Move::Next(q) => {
            proof {
                lemma_move_consumes(p);
            }
            parse_run(q)
        },
    }
}

/// The parser once it was decided how the part with `headers` is consumed.
pub open spec fn begin_part(
    p: ParserView,
    headers: PartHeadersView,
    disposition: DispositionView,
) -> ParserView {
    ParserView {
        headers,
        disposition,
        data: Seq::empty(),
        file_bytes: 0,
        wait: if disposition is StreamToFile {
            Waiting::Create
        } else {
            Waiting::Nothing
        },
        phase: if disposition is StreamToFile {
            p.phase
        } else {
            MultipartPhase::Body
        },
        ..p
    }
}

/// Counts that would not fit stay at the largest that does.
pub open spec fn capped64(n: int) -> nat {
    if n > u64::MAX {
        u64::MAX as nat
    } else {
        n as nat
    }
}

/// The parser once the work on a file that it waited for was done.
pub open spec fn file_done(p: ParserView) -> Move {
    match p.wait {
        Waiting::Nothing => Move::Next(p),
        Waiting::Create => Move::Next(
            ParserView { wait: Waiting::Nothing, phase: MultipartPhase::Body, ..p },
        ),
        Waiting::WriteLast { pos } => Move::Next(
            ParserView {
                wait: Waiting::Flush { pos },
                file_bytes: capped64(p.file_bytes + pos),
                ..p
            },
        ),
        Waiting::Flush { pos } => end_part(p, pos),
        Waiting::WriteSome { len } => Move::Next(
            ParserView {
                wait: Waiting::Nothing,
                buf: p.buf.skip(len),
                file_bytes: capped64(p.file_bytes + len),
                ..p
            },
        ),
    }
}

/// The parser once the work on a file that it waited for failed, and how the
/// body is refused.
pub open spec fn file_failed(p: ParserView) -> (ParserView, MultipartError) {
    match p.wait {
        Waiting::Create => (
            ParserView { wait: Waiting::Nothing, disposition: DispositionView::Discard, ..p },
            MultipartError::CreateFailed,
        ),
        Waiting::Flush { .. } => (
            ParserView { wait: Waiting::Nothing, disposition: DispositionView::Discard, ..p },
            MultipartError::FlushFailed,
        ),
        _ => (ParserView { wait: Waiting::Nothing, ..p }, MultipartError::WriteFailed),
    }
}

/// All parts are received.
pub open spec fn all_received(p: ParserView) -> bool {
    p.phase is Done && p.wait is Nothing
}

/// The work on a file that a parser waits for fits what it holds.
pub open spec fn parser_wf(p: ParserView) -> bool {
    &&& p.delimiter.len() > 0
    &&& p.file_bytes <= u64::MAX
    &&& match p.wait {
        Waiting::Nothing => true,
        Waiting::Create => p.disposition is StreamToFile,
        Waiting::WriteLast { pos } => {
            &&& p.disposition is StreamToFile
            &&& p.phase is Body
            &&& 0 <= pos
            &&& pos + p.delimiter.len() + 2 <= p.buf.len()
        },
        Waiting::Flush { pos } => {
            &&& p.disposition is StreamToFile
            &&& p.phase is Body
            &&& 0 <= pos
            &&& pos + p.delimiter.len() + 2 <= p.buf.len()
        },
        Waiting::WriteSome { len } => {
            &&& p.disposition is StreamToFile
            &&& p.phase is Body
            &&& 0 < len <= p.buf.len()
        },
    }
}

/// [`Pause`], with the values that the outside world acts on.
pub enum ParsePause {
    NeedMore,
    Done,
    Route(PartHeaders),
    Create(String),
    Write(Vec<u8>),
    Flush,
}

impl View for ParsePause {
    type V = Pause;

    open spec fn view(&self) -> Pause {
        match self {
            ParsePause::NeedMore => Pause::NeedMore,
            ParsePause::Done => Pause::Done,
            ParsePause::Route(headers) => Pause::Route(headers@),
            ParsePause::Create(path) => Pause::Create(path@),
            ParsePause::Write(data) => Pause::Write(data@),
            ParsePause::Flush => Pause::Flush,
        }
    }
}

/// What the result of a call says about how a run ended.
pub open spec fn end_of(result: Result<ParsePause, MultipartError>) -> ParseEnd {
    match result {
        Ok(pause) => ParseEnd::Stop(pause@),
        Err(error) => ParseEnd::Fail(error),
    }
}

/// Parses a multipart body as its bytes arrive.
pub struct PartParser {
    delimiter: Vec<u8>,
    buf: Vec<u8>,
    phase: MultipartPhase,
    wait: FileWait,
    headers: PartHeaders,
    disposition: PartDisposition,
    data: Vec<u8>,
    file_bytes: u64,
    parts: Vec<MultipartPart>,
    max_buffered: usize,
}

/// The parts, with texts as their characters.
pub open spec fn part_views(parts: Seq<MultipartPart>) -> Seq<PartView> {
    parts.map_values(|part: MultipartPart| part@)
}

impl View for PartParser {
    type V = ParserView;

    closed spec fn view(&self) -> ParserView {
        ParserView {
            delimiter: self.delimiter@,
            buf: self.buf@,
            phase: self.phase,
            wait: self.wait@,
            headers: self.headers@,
            disposition: self.disposition@,
            data: self.data@,
            file_bytes: self.file_bytes as nat,
            parts: part_views(self.parts@),
            max_buffered: self.max_buffered as nat,
        }
    }
}

/// A parser that has not read anything but `buf`.
pub open spec fn fresh_parser(delimiter: Seq<u8>, buf: Seq<u8>, max_buffered: nat) -> ParserView {
    ParserView {
        delimiter,
        buf,
        phase: MultipartPhase::Preamble,
        wait: Waiting::Nothing,
        headers: no_headers(),
        disposition: DispositionView::Discard,
        data: Seq::empty(),
        file_bytes: 0,
        parts: Seq::empty(),
        max_buffered,
    }
}

impl PartParser {
    /// A parser for a body whose parts are separated by `delimiter`, and of
    /// which `buf` is received.
    pub fn new(delimiter: Vec<u8>, buf: Vec<u8>, max_buffered: usize) -> (parser: Self)
        ensures
            parser@ == fresh_parser(delimiter@, buf@, max_buffered as nat),
    {
        let parser = PartParser {
            delimiter,
            buf,
            phase: MultipartPhase::Preamble,
            wait: FileWait::Nothing,
            headers: PartHeaders::default(),
            disposition: PartDisposition::Discard,
            data: Vec::new(),
            file_bytes: 0,
            parts: Vec::new(),
            max_buffered,
        };
        assert(part_views(parser.parts@) =~= Seq::empty());
        parser
    }

    /// Sets the most bytes of a part that are kept in memory.
    pub fn set_max_buffered(&mut self, bytes: usize)
        ensures
            final(self)@ == (ParserView { max_buffered: bytes as nat, ..old(self)@ }),
    {
        self.max_buffered = bytes;
    }

    /// The completed parts.
    pub fn parts(&self) -> (parts: &[MultipartPart])
        ensures
            part_views(parts@) == self@.parts,
    {
        self.parts.as_slice()
    }

    /// Whether all parts are received.
    pub fn is_received(&self) -> (yes: bool)
        ensures
            yes == all_received(self@),
    {
        matches!(self.phase, MultipartPhase::Done) && matches!(self.wait, FileWait::Nothing)
    }

    /// Gives the completed parts away.
    pub fn into_parts(self) -> (parts: Vec<MultipartPart>)
        ensures
            part_views(parts@) == self@.parts,
    {
        self.parts
    }

    /// Takes the completed parts out.
    pub fn take_parts(&mut self) -> (parts: Vec<MultipartPart>)
        ensures
            part_views(parts@) == old(self)@.parts,
            final(self)@ == (ParserView { parts: Seq::empty(), ..old(self)@ }),
    {
        let mut parts: Vec<MultipartPart> = Vec::new();
        std::mem::swap(&mut parts, &mut self.parts);
        assert(part_views(self.parts@) =~= Seq::empty());
        parts
    }

    /// Adds bytes of the body behind those that are not consumed yet.
    pub fn feed(&mut self, more: &[u8])
        ensures
            final(self)@ == (ParserView { buf: old(self)@.buf + more@, ..old(self)@ }),
    {
        append_bytes(&mut self.buf, more);
    }

    /// Decodes chunks from `raw` and adds their data.
    pub fn feed_chunks(
        &mut self,
        decoder: &mut crate::chunked::ChunkedDecoder,
        raw: &mut Vec<u8>,
    ) -> (result: Result<crate::chunked::Advance, ChunkError>)
        ensures
            final(decoder)@ == crate::chunked::run(old(decoder)@, old(raw)@).decoder,
            final(raw)@ == crate::chunked::run(old(decoder)@, old(raw)@).rest,
            final(self)@ == (ParserView {
                buf: old(self)@.buf + crate::chunked::run(old(decoder)@, old(raw)@).out,
                ..old(self)@
            }),
            result == crate::chunked::advance_result(old(decoder)@, old(raw)@),
    {
        decoder.advance(raw, &mut self.buf)
    }

    /// Reads the two bytes behind a delimiter that ends at `after`.
    fn end_boundary(&mut self, after: usize) -> (result: Result<(), MultipartError>)
        requires
            after + 2 <= old(self)@.buf.len(),
        ensures
            match end_boundary(old(self)@, after as int) {
                Move::Next(q) => final(self)@ == q && result is Ok,
                Move::Fail(q, error) => final(self)@ == q && result == Err::<(), MultipartError>(
                    error,
                ),
                Move::Stop(..) => false,
            },
    {
        let ghost mark = self.buf@.subrange(after as int, after + 2);
        assert(after + 2 <= self.buf.len());
        let first: u8 = self.buf[after];
        let second: u8 = self.buf[after + 1];
        assert(mark[0] == first && mark[1] == second);
        if first == DASH && second == DASH {
            assert(mark =~= dashes());
            drain_front(&mut self.buf, after + 2);
            let line_end: [u8; 2] = [CR, LF];
            assert(line_end@ =~= crlf());
            if starts_with(self.buf.as_slice(), &line_end) {
                drain_front(&mut self.buf, 2);
            }
            self.phase = MultipartPhase::Done;
            Ok(())
        } else if first == CR && second == LF {
            assert(mark =~= crlf());
            assert(mark != dashes());
            drain_front(&mut self.buf, after + 2);
            self.phase = MultipartPhase::Headers;
            Ok(())
        } else {
            assert(mark != dashes() && mark != crlf());
            Err(MultipartError::MalformedBoundary)
        }
    }

    /// Scan past any preamble and consume the first boundary line.
    /// Returns `true` when it transitions to the next phase.
    fn parse_preamble(&mut self) -> (result: Result<bool, MultipartError>)
        requires
            parser_wf(old(self)@),
        ensures
            match preamble_move(old(self)@) {
                Move::Next(q) => final(self)@ == q && result == Ok::<bool, MultipartError>(true),
                Move::Stop(q, pause) => {
                    &&& final(self)@ == q
                    &&& pause is NeedMore
                    &&& result == Ok::<bool, MultipartError>(false)
                },
                Move::Fail(q, error) => {
                    &&& final(self)@ == q
                    &&& result == Err::<bool, MultipartError>(error)
                },
            },
    {
        let pos: usize = match find_subsequence(self.buf.as_slice(), self.delimiter.as_slice()) {
            Some(pos) => pos,
            None => {
                let keep: usize = self.delimiter.len() - 1;
                if self.buf.len() > keep {
                    let drain: usize = self.buf.len() - keep;
                    drain_front(&mut self.buf, drain);
                }
                return Ok(false);
            },
        };
        assert(pos + self.delimiter.len() <= self.buf.len());
        let after: usize = pos + self.delimiter.len();
        if self.buf.len() - after < 2 {
            return Ok(false);
        }
        match self.end_boundary(after) {
            Ok(()) => Ok(true),
            Err(error) => Err(error),
        }
    }

    /// Parse the MIME headers of the current part (terminated by an empty line).
    fn parse_headers(&mut self) -> (result: Result<Option<PartHeaders>, MultipartError>)
        ensures
            match headers_move(old(self)@) {
                Move::Next(q) => false,
                Move::Stop(q, pause) => {
                    &&& final(self)@ == q
                    &&& match pause {
                        Pause::NeedMore => result is Ok && result->Ok_0 is None,
                        Pause::Route(headers) => {
                            &&& result is Ok
                            &&& result->Ok_0 is Some
                            &&& result->Ok_0->0@ == headers
                        },
                        _ => false,
                    }
                },
                Move::Fail(q, error) => {
                    &&& final(self)@ == q
                    &&& result == Err::<Option<PartHeaders>, MultipartError>(error)
                },
            },
    {
        let blank: [u8; 4] = [CR, LF, CR, LF];
        assert(blank@ =~= crlf_crlf());
        let end: usize = match find_subsequence(self.buf.as_slice(), &blank) {
            Some(end) => end,
            None => {
                if self.buf.len() > MAX_PART_HEADERS {
                    return Err(MultipartError::HeadersTooLarge);
                }
                return Ok(None);
            },
        };
        let headers = parse_part_headers(
            vstd::slice::slice_subrange(self.buf.as_slice(), 0, end),
        );
        assert(self.buf@.subrange(0, end as int) =~= self.buf@.take(end as int));
        assert(end + 4 <= self.buf.len());
        drain_front(&mut self.buf, end + 4);
        match headers {
            Some(headers) => Ok(Some(headers)),
            None => Err(MultipartError::HeadersNotUtf8),
        }
    }

    /// Completes the current part, whose body ends at `pos`.
    fn finalize_current_part(&mut self, pos: usize) -> (result: Result<(), MultipartError>)
        requires
            pos + old(self)@.delimiter.len() + 2 <= old(self)@.buf.len(),
        ensures
            match end_part(old(self)@, pos as int) {
                Move::Next(q) => final(self)@ == q && result is Ok,
                Move::Fail(q, error) => final(self)@ == q && result == Err::<(), MultipartError>(
                    error,
                ),
                Move::Stop(..) => false,
            },
    {
        let ghost before = self@;
        let mut disposition = PartDisposition::Discard;
        std::mem::swap(&mut disposition, &mut self.disposition);
        let mut headers = PartHeaders::default();
        std::mem::swap(&mut headers, &mut self.headers);
        let content = match disposition {
            PartDisposition::Buffer => {
                let mut data: Vec<u8> = Vec::new();
                std::mem::swap(&mut data, &mut self.data);
                PartContent::Buffered(data)
            },
            PartDisposition::StreamToFile(path) => PartContent::StreamedToFile {
                path,
                bytes_written: self.file_bytes,
            },
            PartDisposition::Discard => PartContent::Discarded,
        };
        let part = MultipartPart { headers, content };
        let ghost parts = self.parts@;
        self.parts.push(part);
        assert(part_views(self.parts@) =~= part_views(parts).push(part@));
        self.wait = FileWait::Nothing;
        self.file_bytes = 0;
        assert(pos + self.delimiter.len() <= self.buf.len());
        let after: usize = pos + self.delimiter.len();
        self.end_boundary(after)
    }

    /// Keeps the first `len` bytes as body of the current part, in memory.
    fn emit_body_bytes(&mut self, len: usize) -> (result: Result<(), MultipartError>)
        requires
            len <= old(self)@.buf.len(),
        ensures
            if len > 0 && old(self)@.data.len() + len > old(self)@.max_buffered {
                &&& final(self)@ == old(self)@
                &&& result == Err::<(), MultipartError>(
                    MultipartError::PartTooLarge { limit: old(self)@.max_buffered as usize },
                )
            } else {
                &&& final(self)@ == (ParserView {
                    data: old(self)@.data + old(self)@.buf.take(len as int),
                    ..old(self)@
                })
                &&& result is Ok
            },
    {
        if len == 0 {
            assert(self@.data + self@.buf.take(0) =~= self@.data);
            return Ok(());
        }
        if len > self.max_buffered || self.data.len() > self.max_buffered - len {
            return Err(MultipartError::PartTooLarge { limit: self.max_buffered });
        }
        append_bytes(
            &mut self.data,
            vstd::slice::slice_subrange(self.buf.as_slice(), 0, len),
        );
        assert(old(self).buf@.subrange(0, len as int) =~= old(self).buf@.take(len as int));
        Ok(())
    }

    /// Incrementally consume body bytes until the next boundary is found.
    ///
    /// As long as there is no boundary, all but the last bytes, which may be
    /// the front of one, are consumed.
    fn parse_body(&mut self) -> (result: Result<bool, MultipartError>)
        requires
            parser_wf(old(self)@),
            old(self)@.wait is Nothing,
            old(self)@.phase is Body,
        ensures
            match body_move(old(self)@) {
                Move::Next(q) => {
                    &&& final(self)@ == q
                    &&& parser_wf(q)
                    &&& result == Ok::<bool, MultipartError>(true)
                },
                Move::Stop(q, pause) => {
                    &&& final(self)@ == q
                    &&& pause is NeedMore
                    &&& result == Ok::<bool, MultipartError>(false)
                },
                Move::Fail(q, error) => {
                    &&& final(self)@ == q
                    &&& result == Err::<bool, MultipartError>(error)
                },
            },
    {
        match find_subsequence(self.buf.as_slice(), self.delimiter.as_slice()) {
            Some(pos) => {
                assert(pos + self.delimiter.len() <= self.buf.len());
                let after: usize = pos + self.delimiter.len();
                if self.buf.len() - after < 2 {
                    return Ok(false);
                }
                match &self.disposition {
                    PartDisposition::Buffer => {
                        match self.emit_body_bytes(pos) {
                            Ok(()) => {},
                            Err(error) => {
                                return Err(error);
                            },
                        }
                    },
                    PartDisposition::StreamToFile(_) => {
                        self.wait = if pos > 0 {
                            FileWait::WriteLast { pos }
                        } else {
                            FileWait::Flush { pos }
                        };
                        return Ok(true);
                    },
                    PartDisposition::Discard => {},
                }
                match self.finalize_current_part(pos) {
                    Ok(()) => Ok(true),
                    Err(error) => Err(error),
                }
            },
            None => {
                let held: usize = self.delimiter.len() - 1;
                if self.buf.len() <= held {
                    return Ok(false);
                }
                let len: usize = self.buf.len() - held;
                match &self.disposition {
                    PartDisposition::Buffer => {
                        match self.emit_body_bytes(len) {
                            Ok(()) => {},
                            Err(error) => {
                                return Err(error);
                            },
                        }
                    },
                    PartDisposition::StreamToFile(_) => {
                        self.wait = FileWait::WriteSome { len };
                        return Ok(true);
                    },
                    PartDisposition::Discard => {},
                }
                drain_front(&mut self.buf, len);
                Ok(false)
            },
        }
    }

    /// Goes on until something is needed from the outside.
    pub fn parse(&mut self) -> (result: Result<ParsePause, MultipartError>)
        requires
            parser_wf(old(self)@),
        ensures
            parse_run(old(self)@) == (final(self)@, end_of(result)),
            parser_wf(final(self)@),
    {
        loop
            invariant
                parser_wf(self@),
                parse_run(self@) == parse_run(old(self)@),
            decreases self@.buf.len(), wait_rank(self@),
        {
            proof {
                lemma_move_consumes(self@);
            }
            match self.wait {
                FileWait::Create => {
                    let path = match &self.disposition {
                        PartDisposition::StreamToFile(path) => path.clone(),
                        _ => String::new(),
                    };
                    return Ok(ParsePause::Create(path));
                },
                FileWait::WriteLast { pos } => {
                    let data = vstd::slice::slice_to_vec(
                        vstd::slice::slice_subrange(self.buf.as_slice(), 0, pos),
                    );
                    assert(data@ =~= self.buf@.take(pos as int));
                    return Ok(ParsePause::Write(data));
                },
                FileWait::WriteSome { len } => {
                    let data = vstd::slice::slice_to_vec(
                        vstd::slice::slice_subrange(self.buf.as_slice(), 0, len),
                    );
                    assert(data@ =~= self.buf@.take(len as int));
                    return Ok(ParsePause::Write(data));
                },
                FileWait::Flush { .. } => {
                    return Ok(ParsePause::Flush);
                },
                FileWait::Nothing => {},
            }
            match self.phase {
                MultipartPhase::Preamble => match self.parse_preamble() {
                    Ok(true) => {},
                    Ok(false) => {
                        return Ok(ParsePause::NeedMore);
                    },
                    Err(error) => {
                        return Err(error);
                    },
                },
                MultipartPhase::Headers => match self.parse_headers() {
                    Ok(Some(headers)) => {
                        return Ok(ParsePause::Route(headers));
                    },
                    Ok(None) => {
                        return Ok(ParsePause::NeedMore);
                    },
                    Err(error) => {
                        return Err(error);
                    },
                },
                MultipartPhase::Body => match self.parse_body() {
                    Ok(true) => {},
                    Ok(false) => {
                        return Ok(ParsePause::NeedMore);
                    },
                    Err(error) => {
                        return Err(error);
                    },
                },
                MultipartPhase::Done => {
                    return Ok(ParsePause::Done);
                },
            }
        }
    }

    /// Starts the part with these headers.
    pub fn begin_part(&mut self, headers: PartHeaders, disposition: PartDisposition)
        requires
            parser_wf(old(self)@),
        ensures
            final(self)@ == begin_part(old(self)@, headers@, disposition@),
            parser_wf(final(self)@),
    {
        self.headers = headers;
        self.data = Vec::new();
        self.file_bytes = 0;
        match &disposition {
            PartDisposition::StreamToFile(_) => {
                self.wait = FileWait::Create;
            },
            _ => {
                self.wait = FileWait::Nothing;
                self.phase = MultipartPhase::Body;
            },
        }
        self.disposition = disposition;
    }

    /// Goes on after the work on a file was done.
    pub fn file_done(&mut self) -> (result: Result<(), MultipartError>)
        requires
            parser_wf(old(self)@),
        ensures
            match file_done(old(self)@) {
                Move::Next(q) => final(self)@ == q && result is Ok,
                Move::Fail(q, error) => final(self)@ == q && result == Err::<(), MultipartError>(
                    error,
                ),
                Move::Stop(..) => false,
            },
            parser_wf(final(self)@),
    {
        match self.wait {
            FileWait::Nothing => Ok(()),
            FileWait::Create => {
                self.wait = FileWait::Nothing;
                self.phase = MultipartPhase::Body;
                Ok(())
            },
            FileWait::WriteLast { pos } => {
                self.wait = FileWait::Flush { pos };
                self.file_bytes = self.file_bytes.saturating_add(pos as u64);
                Ok(())
            },
            FileWait::Flush { pos } => self.finalize_current_part(pos),
            FileWait::WriteSome { len } => {
                self.wait = FileWait::Nothing;
                drain_front(&mut self.buf, len);
                self.file_bytes = self.file_bytes.saturating_add(len as u64);
                Ok(())
            },
        }
    }

    /// Gives up after the work on a file failed.
    pub fn file_failed(&mut self) -> (error: MultipartError)
        requires
            parser_wf(old(self)@),
        ensures
            file_failed(old(self)@) == (final(self)@, error),
            parser_wf(final(self)@),
    {
        let wait = self.wait;
        self.wait = FileWait::Nothing;
        match wait {
            FileWait::Create => {
                self.disposition = PartDisposition::Discard;
                MultipartError::CreateFailed
            },
            FileWait::Flush { .. } => {
                self.disposition = PartDisposition::Discard;
                MultipartError::FlushFailed
            },
            _ => MultipartError::WriteFailed,
        }
    }
}

} // verus!
