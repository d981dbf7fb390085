//! The chunked transfer encoding.

use vstd::prelude::*;

use crate::bytes::{append_bytes, crlf, drain_front, find, find_subsequence, lemma_find, CR, LF, SEMICOLON};
use crate::seqs::{lemma_until, lemma_until_is, trim, trim_bounds, until};

verus! {

/// The longest chunk size line that is accepted, without its line end.
pub const MAX_SIZE_LINE: usize = 8192;

/// The most bytes that all trailer lines together may take.
pub const MAX_TRAILER_BYTES: usize = 32768;

/// What a call of [`ChunkedDecoder::advance`] came to.
#[derive(Debug, Clone, Copy, PartialEq, Eq, Structural)]
pub enum Advance {
    /// Nothing can be decoded before more bytes arrive.
    NeedMore,
    /// Something was decoded.
    Progress,
    /// The body is complete.
    Done,
}

/// Why a chunked body is refused.
#[derive(Debug, Clone, Copy, PartialEq, Eq, Structural)]
pub enum ChunkError {
    /// The line with the chunk size is too long.
    SizeLineTooLong,
    /// The line with the chunk size holds no size.
    EmptySize,
    /// The chunk size holds a byte that is no hexadecimal digit.
    InvalidHexDigit,
    /// The chunk size does not fit.
    SizeOverflow,
    /// The decoded body would grow past `limit` bytes.
    TooLarge { limit: usize },
    /// The data of a chunk is not followed by a line end.
    MissingCrlf,
    /// The trailer lines take too many bytes.
    TrailersTooLarge,
}

/// What the decoder reads next.
#[derive(Debug, Clone, Copy, PartialEq, Eq, Structural)]
pub enum ChunkState {
    ReadSizeLine,
    ReadData { remaining: usize },
    ReadDataCrlf,
    ReadTrailers,
    Done,
}

/// Space or horizontal tab.
pub open spec fn is_ows(b: u8) -> bool {
    b == 32 || b == 9
}

/// The value of a hexadecimal digit.
pub open spec fn hex_digit(b: u8) -> Option<nat> {
    if 48 <= b <= 57 {
        Some((b - 48) as nat)
    } else if 97 <= b <= 102 {
        Some((b - 87) as nat)
    } else if 65 <= b <= 70 {
        Some((b - 55) as nat)
    } else {
        None
    }
}

/// The number that hexadecimal digits stand for.
pub open spec fn hex_value(digits: Seq<u8>) -> nat
    decreases digits.len(),
{
    if digits.len() == 0 {
        0
    } else {
        hex_value(digits.drop_last()) * 16 + hex_digit(digits.last())->0
    }
}

/// The part of a chunk size line that gives the size: what stands before the
/// first semicolon, without white space around it.
pub open spec fn size_field(line: Seq<u8>) -> Seq<u8> {
    trim(line.take(until(line, |b: u8| b == SEMICOLON) as int), |b: u8| is_ows(b))
}

/// The hexadecimal digits that `field` begins with.
pub open spec fn leading_digits(field: Seq<u8>) -> Seq<u8> {
    field.take(until(field, |b: u8| hex_digit(b) is None) as int)
}

/// The size that a chunk size line gives.
pub open spec fn chunk_size(line: Seq<u8>) -> Result<usize, ChunkError> {
    let field = size_field(line);
    if field.len() == 0 {
        Err(ChunkError::EmptySize)
    } else if hex_value(leading_digits(field)) > usize::MAX {
        Err(ChunkError::SizeOverflow)
    } else if leading_digits(field).len() < field.len() {
        Err(ChunkError::InvalidHexDigit)
    } else {
        Ok(hex_value(field) as usize)
    }
}

/// Finds the first line end in `buf`.
pub fn find_crlf(buf: &[u8]) -> (at: Option<usize>)
    ensures
        match at {
            Some(i) => find(buf@, crlf()) == Some(i as int) && i + 2 <= buf@.len(),
            None => find(buf@, crlf()) is None,
        },
{
    let pattern: [u8; 2] = [CR, LF];
    assert(pattern@ =~= crlf());
    find_subsequence(buf, &pattern)
}

/// Takes the line that ends at `crlf_at` off the front of `buf`, with its line
/// end, and returns it without.
pub fn drain_line(buf: &mut Vec<u8>, crlf_at: usize) -> (line: Vec<u8>)
    requires
        crlf_at + 2 <= old(buf)@.len(),
    ensures
        line@ == old(buf)@.take(crlf_at as int),
        final(buf)@ == old(buf)@.skip(crlf_at + 2),
{
    let mut rest = buf.split_off(crlf_at);
    drain_front(&mut rest, 2);
    assert(rest@ =~= old(buf)@.skip(crlf_at + 2));
    let mut line = rest;
    std::mem::swap(&mut line, buf);
    line
}

/// Whether a byte is a space or a tab.
fn byte_is_ows(b: u8) -> (yes: bool)
    ensures
        yes == is_ows(b),
{
    b == 32 || b == 9
}

/// Removes spaces and tabs from both ends.
pub fn trim_ows(s: &[u8]) -> (trimmed: &[u8])
    ensures
        trimmed@ == trim(s@, |b: u8| is_ows(b)),
{
    let (from, to) = trim_bounds(s, byte_is_ows, Ghost(|b: u8| is_ows(b)));
    vstd::slice::slice_subrange(s, from, to)
}

proof fn lemma_hex_value_grows(digits: Seq<u8>, n: int)
    requires
        0 <= n <= digits.len(),
    ensures
        hex_value(digits.take(n)) <= hex_value(digits),
    decreases digits.len() - n,
{
    if n < digits.len() {
        lemma_hex_value_grows(digits, n + 1);
        assert(digits.take(n + 1).drop_last() =~= digits.take(n));
    } else {
        assert(digits.take(n) =~= digits);
    }
}

/// Reads the size from a chunk size line.
pub fn parse_chunk_size(line: &[u8]) -> (size: Result<usize, ChunkError>)
    ensures
        size == chunk_size(line@),
{
    let ghost is_semicolon = |b: u8| b == SEMICOLON;
    let ghost no_digit = |b: u8| hex_digit(b) is None;
    let mut end: usize = 0;
    while end < line.len() && line[end] != SEMICOLON
        invariant
            end <= line@.len(),
            forall|i: int| 0 <= i < end ==> #[trigger] line@[i] != SEMICOLON,
        decreases line@.len() - end,
    {
        end += 1;
    }
    proof {
        lemma_until_is(line@, is_semicolon, end as nat);
    }
    let field = trim_ows(vstd::slice::slice_subrange(line, 0, end));
    assert(line@.subrange(0, end as int) =~= line@.take(end as int));
    assert(field@ == size_field(line@));
    if field.len() == 0 {
        return Err(ChunkError::EmptySize);
    }
    let mut n: usize = 0;
    let mut i: usize = 0;
    proof {
        lemma_until(field@, no_digit);
    }
    assert(field@.take(0) =~= Seq::empty());
    while i < field.len()
        invariant
            i <= field@.len(),
            field@.len() > 0,
            field@ == size_field(line@),
            no_digit == (|b: u8| hex_digit(b) is None),
            n == hex_value(field@.take(i as int)),
            forall|k: int| 0 <= k < i ==> hex_digit(#[trigger] field@[k]) is Some,
        decreases field@.len() - i,
    {
        let b: u8 = field[i];
        let v: usize = if 48 <= b && b <= 57 {
            (b - 48) as usize
        } else if 97 <= b && b <= 102 {
            (b - 87) as usize
        } else if 65 <= b && b <= 70 {
            (b - 55) as usize
        } else {
            proof {
                lemma_until_is(field@, no_digit, i as nat);
                assert(leading_digits(field@) =~= field@.take(i as int));
            }
            return Err(ChunkError::InvalidHexDigit);
        };
        let ghost next = field@.take(i + 1);
        proof {
            assert(next.drop_last() =~= field@.take(i as int));
            assert(hex_value(next) == n * 16 + v);
            lemma_until(field@, no_digit);
            let k = until(field@, no_digit);
            assert(k > i) by {
                if k <= i {
                    assert(hex_digit(field@[k as int]) is Some);
                }
            }
            assert(leading_digits(field@).take(i + 1) =~= next);
            lemma_hex_value_grows(leading_digits(field@), i + 1);
        }
        n = match n.checked_mul(16) {
            Some(m) => m,
            None => {
                return Err(ChunkError::SizeOverflow);
            },
        };
        n = match n.checked_add(v) {
            Some(m) => m,
            None => {
                return Err(ChunkError::SizeOverflow);
            },
        };
        i += 1;
    }
    proof {
        lemma_until_is(field@, no_digit, field@.len());
        assert(leading_digits(field@) =~= field@);
        assert(field@.take(i as int) =~= field@);
    }
    Ok(n)
}

/// A decoder, mathematically: what it reads next and what it has counted.
pub struct DecoderView {
    pub state: ChunkState,
    /// The bytes decoded so far.
    pub decoded: nat,
    /// The bytes that trailer lines took so far.
    pub trailers: nat,
    /// The most bytes that may be decoded.
    pub max_decoded: nat,
}

/// One move of a decoder.
pub enum Transition {
    /// It cannot move before more bytes arrive.
    Wait,
    /// It consumed input down to `rest`, and decoded `out`.
    Next { decoder: DecoderView, rest: Seq<u8>, out: Seq<u8> },
    /// The body is complete.
    Done { decoder: DecoderView, rest: Seq<u8> },
    /// The body is refused.
    Fail { decoder: DecoderView, rest: Seq<u8>, error: ChunkError },
}

/// Counts that would not fit stay at the largest that does.
pub open spec fn capped(n: int) -> nat {
    if n > usize::MAX {
        usize::MAX as nat
    } else {
        n as nat
    }
}

/// The move that a decoder makes on `input`.
pub open spec fn transition(d: DecoderView, input: Seq<u8>) -> Transition {
    match d.state {
        ChunkState::ReadSizeLine => match find(input, crlf()) {
            None => Transition::Wait,
            Some(at) => if at > MAX_SIZE_LINE {
                Transition::Fail { decoder: d, rest: input, error: ChunkError::SizeLineTooLong }
            } else {
                match chunk_size(input.take(at)) {
                    Err(error) => Transition::Fail { decoder: d, rest: input.skip(at + 2), error },
                    Ok(size) => Transition::Next {
                        decoder: DecoderView {
                            state: if size == 0 {
                                ChunkState::ReadTrailers
                            } else {
                                ChunkState::ReadData { remaining: size }
                            },
                            ..d
                        },
                        rest: input.skip(at + 2),
                        out: Seq::empty(),
                    },
                }
            },
        },
        ChunkState::ReadData { remaining } => if input.len() < remaining {
            Transition::Wait
        } else if d.decoded + remaining > d.max_decoded {
            Transition::Fail {
                decoder: d,
                rest: input,
                error: ChunkError::TooLarge { limit: d.max_decoded as usize },
            }
        } else {
            Transition::Next {
                decoder: DecoderView {
                    state: ChunkState::ReadDataCrlf,
                    decoded: d.decoded + remaining as nat,
                    ..d
                },
                rest: input.skip(remaining as int),
                out: input.take(remaining as int),
            }
        },
        ChunkState::ReadDataCrlf => if input.len() < 2 {
            Transition::Wait
        } else if input.take(2) != crlf() {
            Transition::Fail { decoder: d, rest: input, error: ChunkError::MissingCrlf }
        } else {
            Transition::Next {
                decoder: DecoderView { state: ChunkState::ReadSizeLine, ..d },
                rest: input.skip(2),
                out: Seq::empty(),
            }
        },
        ChunkState::ReadTrailers => match find(input, crlf()) {
            None => Transition::Wait,
            Some(at) => {
                let trailers = capped(d.trailers + at + 2);
                if trailers > MAX_TRAILER_BYTES {
                    Transition::Fail {
                        decoder: DecoderView { trailers, ..d },
                        rest: input,
                        error: ChunkError::TrailersTooLarge,
                    }
                } else if at == 0 {
                    Transition::Done {
                        decoder: DecoderView { state: ChunkState::Done, trailers, ..d },
                        rest: input.skip(2),
                    }
                } else {
                    Transition::Next {
                        decoder: DecoderView { trailers, ..d },
                        rest: input.skip(at + 2),
                        out: Seq::empty(),
                    }
                }
            },
        },
        ChunkState::Done => Transition::Done { decoder: d, rest: input },
    }
}

/// How a run of moves ended.
pub enum RunEnd {
    Wait,
    Done,
    Fail(ChunkError),
}

/// A run of moves: the decoder and the input that it left, and all that it decoded.
pub struct Run {
    pub decoder: DecoderView,
    pub rest: Seq<u8>,
    pub out: Seq<u8>,
    pub end: RunEnd,
}

/// Orders the states that a move without input passes through.
pub open spec fn rank(state: ChunkState) -> nat {
    if state is ReadData {
        1
    } else {
        0
    }
}

/// Every move consumes input, except for one that reads a chunk without data.
pub proof fn lemma_transition_consumes(d: DecoderView, input: Seq<u8>)
    ensures
        transition(d, input) matches Transition::Next { decoder, rest, out } ==> {
            ||| rest.len() < input.len()
            ||| rest.len() == input.len() && rank(decoder.state) < rank(d.state)
        },
{
    lemma_find(input, crlf());
}

/// Moves as long as there are moves to make.
pub open spec fn run(d: DecoderView, input: Seq<u8>) -> Run
    decreases input.len(), rank(d.state),
{
    match transition(d, input) {
        Transition::Wait => Run { decoder: d, rest: input, out: Seq::empty(), end: RunEnd::Wait },
        Transition::Done { decoder, rest } => Run {
            decoder,
            rest,
            out: Seq::empty(),
            end: RunEnd::Done,
        },
        Transition::Fail { decoder, rest, error } => Run {
            decoder,
            rest,
            out: Seq::empty(),
            end: RunEnd::Fail(error),
        },
        Transition::Next { decoder, rest, out } => {
            proof {
                lemma_transition_consumes(d, input);
            }
            let more = run(decoder, rest);
            Run { out: out + more.out, ..more }
        },
    }
}

/// What a call that runs a decoder returns.
pub open spec fn advance_result(d: DecoderView, input: Seq<u8>) -> Result<Advance, ChunkError> {
    match run(d, input).end {
        RunEnd::Fail(error) => Err(error),
        RunEnd::Done => Ok(Advance::Done),
        RunEnd::Wait => if transition(d, input) is Wait {
            Ok(Advance::NeedMore)
        } else {
            Ok(Advance::Progress)
        },
    }
}

/// Decodes a body in the chunked transfer encoding as its bytes arrive.
#[derive(Debug)]
pub struct ChunkedDecoder {
    state: ChunkState,
    decoded_total: usize,
    max_decoded: usize,
    trailer_bytes: usize,
}

impl View for ChunkedDecoder {
    type V = DecoderView;

    closed spec fn view(&self) -> DecoderView {
        DecoderView {
            state: self.state,
            decoded: self.decoded_total as nat,
            trailers: self.trailer_bytes as nat,
            max_decoded: self.max_decoded as nat,
        }
    }
}

/// A decoder that has not read anything.
pub open spec fn fresh_decoder(max_decoded: nat) -> DecoderView {
    DecoderView { state: ChunkState::ReadSizeLine, decoded: 0, trailers: 0, max_decoded }
}

impl ChunkedDecoder {
    /// A decoder for a body of at most `max_decoded` bytes.
    pub fn new(max_decoded: usize) -> (decoder: Self)
        ensures
            decoder@ == fresh_decoder(max_decoded as nat),
    {
        ChunkedDecoder {
            state: ChunkState::ReadSizeLine,
            decoded_total: 0,
            max_decoded,
            trailer_bytes: 0,
        }
    }

    /// The whole body was decoded.
    pub fn is_done(&self) -> (done: bool)
        ensures
            done == (self@.state is Done),
    {
        matches!(self.state, ChunkState::Done)
    }

    /// Decodes what can be decoded of `in_buf`, takes it off the front of
    /// `in_buf`, and appends the data of the chunks to `out`.
    pub fn advance(&mut self, in_buf: &mut Vec<u8>, out: &mut Vec<u8>) -> (result: Result<
        Advance,
        ChunkError,
    >)
        ensures
            final(self)@ == run(old(self)@, old(in_buf)@).decoder,
            final(in_buf)@ == run(old(self)@, old(in_buf)@).rest,
            final(out)@ == old(out)@ + run(old(self)@, old(in_buf)@).out,
            result == advance_result(old(self)@, old(in_buf)@),
    {
        let ghost whole = run(self@, in_buf@);
        let mut made_progress = false;
        loop
            invariant
                whole == run(old(self)@, old(in_buf)@),
                whole.decoder == run(self@, in_buf@).decoder,
                whole.rest == run(self@, in_buf@).rest,
                whole.end == run(self@, in_buf@).end,
                old(out)@ + whole.out == out@ + run(self@, in_buf@).out,
                !made_progress ==> self@ == old(self)@ && in_buf@ == old(in_buf)@,
                made_progress ==> !(transition(old(self)@, old(in_buf)@) is Wait),
            decreases in_buf@.len(), rank(self.state),
        {
            let ghost d = self@;
            let ghost input = in_buf@;
            let ghost decoded = out@;
            proof {
                lemma_find(in_buf@, crlf());
                lemma_transition_consumes(d, input);
                assert(out@ + Seq::<u8>::empty() =~= out@);
            }
            match self.state {
                ChunkState::ReadSizeLine => {
                    let crlf_at: usize = match find_crlf(in_buf.as_slice()) {
                        Some(at) => at,
                        None => {
                            return Ok(
                                if made_progress {
                                    Advance::Progress
                                } else {
                                    Advance::NeedMore
                                },
                            );
                        },
                    };
                    if crlf_at > MAX_SIZE_LINE {
                        return Err(ChunkError::SizeLineTooLong);
                    }
                    let line = drain_line(in_buf, crlf_at);
                    let size: usize = match parse_chunk_size(line.as_slice()) {
                        Ok(size) => size,
                        Err(error) => {
                            return Err(error);
                        },
                    };
                    if size == 0 {
                        self.state = ChunkState::ReadTrailers;
                    } else {
                        self.state = ChunkState::ReadData { remaining: size };
                    }
                    made_progress = true;
                },
                ChunkState::ReadData { remaining } => {
                    if in_buf.len() < remaining {
                        return Ok(
                            if made_progress {
                                Advance::Progress
                            } else {
                                Advance::NeedMore
                            },
                        );
                    }
                    let total: usize = match self.decoded_total.checked_add(remaining) {
                        Some(total) => total,
                        None => {
                            return Err(ChunkError::TooLarge { limit: self.max_decoded });
                        },
                    };
                    if total > self.max_decoded {
                        return Err(ChunkError::TooLarge { limit: self.max_decoded });
                    }
                    append_bytes(out, vstd::slice::slice_subrange(in_buf.as_slice(), 0, remaining));
                    drain_front(in_buf, remaining);
                    self.decoded_total = total;
                    self.state = ChunkState::ReadDataCrlf;
                    made_progress = true;
                    proof {
                        assert(input.subrange(0, remaining as int) =~= input.take(remaining as int));
                    }
                },
                ChunkState::ReadDataCrlf => {
                    if in_buf.len() < 2 {
                        return Ok(
                            if made_progress {
                                Advance::Progress
                            } else {
                                Advance::NeedMore
                            },
                        );
                    }
                    if in_buf[0] != CR || in_buf[1] != LF {
                        assert(input.take(2)[0] != crlf()[0] || input.take(2)[1] != crlf()[1]);
                        return Err(ChunkError::MissingCrlf);
                    }
                    assert(input.take(2) =~= crlf());
                    drain_front(in_buf, 2);
                    self.state = ChunkState::ReadSizeLine;
                    made_progress = true;
                },
                ChunkState::ReadTrailers => {
                    let crlf_at: usize = match find_crlf(in_buf.as_slice()) {
                        Some(at) => at,
                        None => {
                            return Ok(
                                if made_progress {
                                    Advance::Progress
                                } else {
                                    Advance::NeedMore
                                },
                            );
                        },
                    };
                    assert(crlf_at + 2 <= in_buf.len());
                    self.trailer_bytes = self.trailer_bytes.saturating_add(crlf_at + 2);
                    if self.trailer_bytes > MAX_TRAILER_BYTES {
                        return Err(ChunkError::TrailersTooLarge);
                    }
                    let line = drain_line(in_buf, crlf_at);
                    if line.len() == 0 {
                        self.state = ChunkState::Done;
                        return Ok(Advance::Done);
                    }
                    made_progress = true;
                },
                ChunkState::Done => {
                    return Ok(Advance::Done);
                },
            }
            proof {
                match transition(d, input) {
                    Transition::Next { decoder, rest, out: more } => {
                        assert(decoder == self@);
                        assert(rest == in_buf@);
                        assert(decoded + (more + run(self@, in_buf@).out) =~= decoded + more + run(self@, in_buf@).out);
                    },
                    _ => {},
                }
            }
        }
    }
}

} // verus!
