//! Receiving a plain body.

use vstd::prelude::*;

use crate::bytes::{append_bytes, crlf, lemma_find};
use crate::chunked::{fresh_decoder, run, transition, Advance, ChunkError, ChunkedDecoder, DecoderView, RunEnd};
use crate::chunked_laws::{encode_chunks, joined, law_decoding_is_incremental, law_decoding_settles, law_encoded_chunks_read_back};

verus! {

/// The most bytes that the chunks of a body may decode to.
pub const MAX_BODY: usize = 1048576;

/// The most bytes of a body in chunks that are asked for at once.
pub const CHUNKED_READ: u64 = 16384;

/// The number that a result of the socket counts as: a negative one counts
/// from the largest count backwards.
pub open spec fn as_count(n: i32) -> nat {
    if n >= 0 {
        n as nat
    } else {
        (u64::MAX + 1 + n) as nat
    }
}

/// The number that a result of the socket counts as.
pub fn count_of(n: i32) -> (count: u64)
    ensures
        count == as_count(n),
{
    if n >= 0 {
        n as u64
    } else {
        let below: i32 = -(n + 1);
        u64::MAX - below as u64
    }
}

/// Why a body cannot be received.
#[derive(Debug, Clone, Copy, PartialEq, Eq, Structural)]
pub enum ReceiveError {
    /// The client disconnected before the body was complete.
    Disconnected,
    /// The socket failed.
    Socket,
    /// The chunked framing is broken.
    Chunk(ChunkError),
}

/// What the socket received: its result, and the bytes of the buffer.
pub struct Receipt {
    pub result: i32,
    pub buf: Vec<u8>,
}

/// What the program wants done before its next step.
#[derive(Debug, Clone, Copy, PartialEq, Eq, Structural)]
pub enum ReceiveTurn {
    /// Nothing: the body is complete.
    Complete,
    /// As many bytes received at most.
    Recv(u64),
}

/// A receiving program, mathematically.
pub struct ReceivingView {
    /// The body as far as it is received.
    pub buf: Seq<u8>,
    pub chunked: bool,
    /// The bytes received so far.
    pub received: nat,
    pub content_length: Option<u64>,
    /// Bytes in the chunked encoding that are not decoded yet.
    pub in_buf: Seq<u8>,
    pub decoder: Option<DecoderView>,
}

/// How the end of the body is known: by the chunks, or by its length.
pub open spec fn known_end(v: ReceivingView) -> bool {
    v.chunked == (v.content_length is None)
}

/// The program once its chunks were decoded, and what it answers.
pub open spec fn body_decoded(v: ReceivingView) -> (
    ReceivingView,
    Result<ReceiveTurn, ReceiveError>,
) {
    let r = run(v.decoder->0, v.in_buf);
    let next = ReceivingView {
        buf: v.buf + r.out,
        in_buf: r.rest,
        decoder: Some(r.decoder),
        ..v
    };
    match r.end {
        RunEnd::Fail(error) => (next, Err(ReceiveError::Chunk(error))),
        RunEnd::Done => (next, Ok(ReceiveTurn::Complete)),
        RunEnd::Wait => (next, Ok(ReceiveTurn::Recv(CHUNKED_READ))),
    }
}

/// A program for a body in chunks after the socket received, and what it answers.
pub open spec fn chunked_step(v: ReceivingView, result: i32, data: Seq<u8>) -> (
    ReceivingView,
    Result<ReceiveTurn, ReceiveError>,
) {
    if result == 0 {
        (v, Err(ReceiveError::Disconnected))
    } else if result == -1 {
        (v, Err(ReceiveError::Socket))
    } else {
        body_decoded(
            ReceivingView {
                received: v.received + as_count(result),
                in_buf: v.in_buf + data,
                ..v
            },
        )
    }
}

/// What a program for a body of known length answers.
pub open spec fn length_answer(v: ReceivingView) -> Result<ReceiveTurn, ReceiveError> {
    let length = v.content_length->0;
    if v.received >= length {
        Ok(ReceiveTurn::Complete)
    } else {
        Ok(ReceiveTurn::Recv((length - v.received) as u64))
    }
}

/// A program for a body of known length after the socket received, and what it
/// answers.
pub open spec fn length_step(v: ReceivingView, result: i32, data: Seq<u8>) -> (
    ReceivingView,
    Result<ReceiveTurn, ReceiveError>,
) {
    if result == 0 {
        (v, Err(ReceiveError::Disconnected))
    } else {
        let next = ReceivingView {
            received: v.received + as_count(result),
            buf: v.buf + data,
            ..v
        };
        (next, length_answer(next))
    }
}

/// A program after `receipt`, and what it answers.
pub open spec fn receive_step(v: ReceivingView, receipt: Option<Receipt>) -> (
    ReceivingView,
    Result<ReceiveTurn, ReceiveError>,
) {
    match receipt {
        None => if v.chunked {
            body_decoded(v)
        } else {
            (v, length_answer(v))
        },
        Some(receipt) => if v.chunked {
            chunked_step(v, receipt.result, receipt.buf@)
        } else {
            length_step(v, receipt.result, receipt.buf@)
        },
    }
}

/// The result of the socket still counts.
pub open spec fn countable(v: ReceivingView, receipt: Option<Receipt>) -> bool {
    receipt matches Some(receipt) ==> receipt.result == 0 || v.chunked && receipt.result == -1
        || v.received + as_count(receipt.result) <= u64::MAX
}

/// A program that has received nothing but `buf`.
pub open spec fn fresh_receiving(
    chunked: bool,
    content_length: Option<u64>,
    buf: Seq<u8>,
) -> ReceivingView {
    ReceivingView {
        buf,
        chunked,
        received: buf.len(),
        content_length,
        in_buf: Seq::empty(),
        decoder: if chunked {
            Some(fresh_decoder(MAX_BODY as nat))
        } else {
            None
        },
    }
}

/// The part of what was received that is the body.
pub open spec fn body_of(v: ReceivingView) -> Seq<u8> {
    let length = v.content_length->0;
    if length < v.buf.len() {
        v.buf.take(length as int)
    } else {
        v.buf
    }
}

/// Receives a body that comes in chunks or has a known length.
pub struct ReceivingBodyProgram {
    buf: Vec<u8>,
    chunked: bool,
    received: u64,
    content_length: Option<u64>,
    in_buf: Vec<u8>,
    chunk_dec: Option<ChunkedDecoder>,
}

impl View for ReceivingBodyProgram {
    type V = ReceivingView;

    closed spec fn view(&self) -> ReceivingView {
        ReceivingView {
            buf: self.buf@,
            chunked: self.chunked,
            received: self.received as nat,
            content_length: self.content_length,
            in_buf: self.in_buf@,
            decoder: match self.chunk_dec {
                Some(decoder) => Some(decoder@),
                None => None,
            },
        }
    }
}

impl ReceivingBodyProgram {
    /// There is a decoder where the body comes in chunks.
    pub open spec fn wf(&self) -> bool {
        self@.chunked == (self@.decoder is Some)
    }

    /// A program for a body of which `buf` is received.
    pub fn new(chunked: bool, content_length: Option<u64>, buf: Vec<u8>) -> (program: Self)
        ensures
            program@ == fresh_receiving(chunked, content_length, buf@),
            program.wf(),
    {
        ReceivingBodyProgram {
            received: buf.len() as u64,
            buf,
            in_buf: Vec::new(),
            chunked,
            content_length,
            chunk_dec: if chunked {
                Some(ChunkedDecoder::new(MAX_BODY))
            } else {
                None
            },
        }
    }

    /// The bytes that a body of known length is deserialized from.
    pub fn deserialize(&self) -> (body: &[u8])
        requires
            self@.content_length is Some,
        ensures
            body@ == body_of(self@),
    {
        match self.content_length {
            Some(length) if length < self.buf.len() as u64 => {
                let body = vstd::slice::slice_subrange(self.buf.as_slice(), 0, length as usize);
                assert(body@ =~= self.buf@.take(length as int));
                body
            },
            _ => self.buf.as_slice(),
        }
    }

    /// What was received so far.
    pub fn raw(&self) -> (buf: &[u8])
        ensures
            buf@ == self@.buf,
    {
        self.buf.as_slice()
    }

    /// Whether the end of the body is known, by the chunks or by its length,
    /// and the result of the socket still counts.
    pub fn can_step(&self, receipt: &Option<Receipt>) -> (yes: bool)
        ensures
            yes == (known_end(self@) && countable(self@, *receipt)),
    {
        if self.chunked != self.content_length.is_none() {
            return false;
        }
        match receipt {
            None => true,
            Some(receipt) => receipt.result == 0 || self.chunked && receipt.result == -1
                || count_of(receipt.result) <= u64::MAX - self.received,
        }
    }

    /// Goes on after the socket received, until more bytes are needed or the
    /// body is complete.
    pub fn step(&mut self, receipt: Option<Receipt>) -> (result: Result<ReceiveTurn, ReceiveError>)
        requires
            old(self).wf(),
            known_end(old(self)@),
            countable(old(self)@, receipt),
        ensures
            receive_step(old(self)@, receipt) == (final(self)@, result),
            final(self).wf(),
    {
        if self.chunked {
            self.step_chunked(receipt)
        } else {
            self.step_content_length(receipt)
        }
    }

    fn step_chunked(&mut self, receipt: Option<Receipt>) -> (result: Result<
        ReceiveTurn,
        ReceiveError,
    >)
        requires
            old(self).wf(),
            old(self)@.chunked,
            countable(old(self)@, receipt),
        ensures
            receive_step(old(self)@, receipt) == (final(self)@, result),
            final(self).wf(),
    {
        match receipt {
            None => {},
            Some(receipt) => {
                if receipt.result == 0 {
                    return Err(ReceiveError::Disconnected);
                }
                if receipt.result == -1 {
                    return Err(ReceiveError::Socket);
                }
                self.received = self.received + count_of(receipt.result);
                append_bytes(&mut self.in_buf, receipt.buf.as_slice());
            },
        }
        match self.chunk_dec.as_mut() {
            None => Ok(ReceiveTurn::Complete),
            Some(decoder) => {
                proof {
                    law_decoding_settles(decoder@, self.in_buf@);
                }
                let ghost ready = self.buf@;
                let first = decoder.advance(&mut self.in_buf, &mut self.buf);
                let last = match first {
                    Ok(Advance::Progress) => {
                        let second = decoder.advance(&mut self.in_buf, &mut self.buf);
                        second
                    },
                    _ => first,
                };
                match last {
                    Ok(Advance::Done) => Ok(ReceiveTurn::Complete),
                    Ok(_) => Ok(ReceiveTurn::Recv(CHUNKED_READ)),
                    Err(error) => Err(ReceiveError::Chunk(error)),
                }
            },
        }
    }

    fn step_content_length(&mut self, receipt: Option<Receipt>) -> (result: Result<
        ReceiveTurn,
        ReceiveError,
    >)
        requires
            old(self).wf(),
            !old(self)@.chunked,
            known_end(old(self)@),
            countable(old(self)@, receipt),
        ensures
            receive_step(old(self)@, receipt) == (final(self)@, result),
            final(self).wf(),
    {
        match receipt {
            None => {},
            Some(receipt) => {
                if receipt.result == 0 {
                    return Err(ReceiveError::Disconnected);
                }
                self.received = self.received + count_of(receipt.result);
                append_bytes(&mut self.buf, receipt.buf.as_slice());
            },
        }
        let length: u64 = match self.content_length {
            Some(length) => length,
            None => 0,
        };
        let remaining: u64 = length.saturating_sub(self.received);
        if remaining == 0 {
            Ok(ReceiveTurn::Complete)
        } else {
            Ok(ReceiveTurn::Recv(remaining))
        }
    }
}

/// How a body in chunks is cut into pieces on its way does not matter: two
/// pieces come to the same as both at once.
pub proof fn law_receiving_is_incremental(
    v: ReceivingView,
    m: i32,
    a: Seq<u8>,
    n: i32,
    b: Seq<u8>,
)
    requires
        v.decoder is Some,
        m > 0,
        n > 0,
        m + n <= i32::MAX,
    ensures
        ({
            let (v1, first) = chunked_step(v, m, a);
            first == Ok::<ReceiveTurn, ReceiveError>(ReceiveTurn::Recv(CHUNKED_READ)) ==> {
                chunked_step(v1, n, b) == chunked_step(v, (m + n) as i32, a + b)
            }
        }),
{
    let decoder = v.decoder->0;
    law_decoding_is_incremental(decoder, v.in_buf + a, b);
    assert(v.in_buf + a + b =~= v.in_buf + (a + b));
    let first = run(decoder, v.in_buf + a);
    let second = run(first.decoder, first.rest + b);
    assert(v.buf + first.out + second.out =~= v.buf + (first.out + second.out));
}

/// A body sent in chunks is received as it was before it was cut into chunks.
pub proof fn law_chunked_body_reads_back(chunks: Seq<Seq<u8>>, more: Seq<u8>, n: i32)
    requires
        n > 0,
        forall|i: int| 0 <= i < chunks.len() ==> (#[trigger] chunks[i]).len() > 0,
        joined(chunks).len() <= MAX_BODY,
    ensures
        ({
            let fresh = fresh_receiving(true, None, Seq::empty());
            let (done, answer) = chunked_step(fresh, n, encode_chunks(chunks) + more);
            &&& answer == Ok::<ReceiveTurn, ReceiveError>(ReceiveTurn::Complete)
            &&& done.buf == joined(chunks)
        }),
{
    let sent = encode_chunks(chunks) + more;
    law_encoded_chunks_read_back(fresh_decoder(MAX_BODY as nat), chunks, more);
    assert(Seq::<u8>::empty() + sent =~= sent);
    assert(Seq::<u8>::empty() + joined(chunks) =~= joined(chunks));
}

/// A body of known length is complete as soon as that many bytes arrived, and
/// is what arrived first.
pub proof fn law_known_length_is_exact(v: ReceivingView, n: i32, data: Seq<u8>)
    requires
        v.content_length is Some,
        n > 0,
        n == data.len(),
        v.received == v.buf.len(),
        v.received + n <= u64::MAX,
    ensures
        ({
            let (next, answer) = length_step(v, n, data);
            let length = v.content_length->0;
            if v.buf.len() + n >= length {
                &&& answer == Ok::<ReceiveTurn, ReceiveError>(ReceiveTurn::Complete)
                &&& body_of(next) == (v.buf + data).take(length as int)
            } else {
                answer == Ok::<ReceiveTurn, ReceiveError>(
                    ReceiveTurn::Recv((length - v.buf.len() - n) as u64),
                )
            }
        }),
{
    let length = v.content_length->0;
    if v.buf.len() + n == length {
        assert((v.buf + data).take(length as int) =~= v.buf + data);
    }
}

/// A program on a body that arrives in pieces, as long as it wants more.
pub open spec fn received_in_pieces(v: ReceivingView, pieces: Seq<Seq<u8>>) -> (
    ReceivingView,
    Result<ReceiveTurn, ReceiveError>,
)
    decreases pieces.len(),
{
    if pieces.len() == 0 {
        (v, Ok(ReceiveTurn::Recv(CHUNKED_READ)))
    } else {
        let (next, answer) = if v.chunked {
            chunked_step(v, pieces[0].len() as i32, pieces[0])
        } else {
            length_step(v, pieces[0].len() as i32, pieces[0])
        };
        if pieces.len() > 1 && (answer matches Ok(ReceiveTurn::Recv(_))) {
            received_in_pieces(next, pieces.skip(1))
        } else {
            (next, answer)
        }
    }
}

/// How a body in chunks is cut into pieces does not matter: with the last
/// chunk, it is complete, and is what its chunks decode to.
pub proof fn law_chunked_bodies_arrive_in_any_pieces(v: ReceivingView, pieces: Seq<Seq<u8>>)
    requires
        v.chunked,
        v.decoder is Some,
        pieces.len() > 0,
        forall|i: int| 0 <= i < pieces.len() ==> 0 < (#[trigger] pieces[i]).len() <= i32::MAX,
        run(v.decoder->0, v.in_buf + joined(pieces)).end is Done,
    ensures
        received_in_pieces(v, pieces).1 == Ok::<ReceiveTurn, ReceiveError>(ReceiveTurn::Complete),
        received_in_pieces(v, pieces).0.buf == v.buf + run(
            v.decoder->0,
            v.in_buf + joined(pieces),
        ).out,
    decreases pieces.len(),
{
    let d = v.decoder->0;
    let piece = pieces[0];
    let rest = pieces.skip(1);
    let first = run(d, v.in_buf + piece);
    assert(joined(pieces) == piece + joined(rest));
    law_decoding_is_incremental(d, v.in_buf + piece, joined(rest));
    assert(v.in_buf + piece + joined(rest) =~= v.in_buf + joined(pieces));
    let (next, answer) = chunked_step(v, piece.len() as i32, piece);
    if first.end is Wait {
        if rest.len() == 0 {
            assert(v.in_buf + joined(pieces) =~= v.in_buf + piece);
        } else {
            assert forall|i: int| 0 <= i < rest.len() implies 0 < (#[trigger] rest[i]).len()
                <= i32::MAX by {
                assert(rest[i] == pieces[i + 1]);
            }
            law_chunked_bodies_arrive_in_any_pieces(next, rest);
            let second = run(first.decoder, first.rest + joined(rest));
            assert(v.buf + first.out + second.out =~= v.buf + (first.out + second.out));
        }
    }
}

/// How a body of known length is cut into pieces does not matter: it is
/// complete with the piece that fills it, and is what arrived.
pub proof fn law_known_lengths_arrive_in_any_pieces(v: ReceivingView, pieces: Seq<Seq<u8>>)
    requires
        !v.chunked,
        v.content_length is Some,
        v.received == v.buf.len(),
        pieces.len() > 0,
        forall|i: int| 0 <= i < pieces.len() ==> 0 < (#[trigger] pieces[i]).len() <= i32::MAX,
        v.received + joined(pieces).len() == v.content_length->0,
    ensures
        received_in_pieces(v, pieces).1 == Ok::<ReceiveTurn, ReceiveError>(ReceiveTurn::Complete),
        body_of(received_in_pieces(v, pieces).0) == v.buf + joined(pieces),
    decreases pieces.len(),
{
    let piece = pieces[0];
    let rest = pieces.skip(1);
    let (next, answer) = length_step(v, piece.len() as i32, piece);
    assert(joined(pieces) == piece + joined(rest));
    if rest.len() == 0 {
        assert(v.buf + joined(pieces) =~= v.buf + piece);
    } else {
        assert(rest[0] == pieces[1]);
        assert(joined(rest).len() >= rest[0].len());
        assert forall|i: int| 0 <= i < rest.len() implies 0 < (#[trigger] rest[i]).len()
            <= i32::MAX by {
            assert(rest[i] == pieces[i + 1]);
        }
        law_known_lengths_arrive_in_any_pieces(next, rest);
        assert(v.buf + piece + joined(rest) =~= v.buf + joined(pieces));
    }
}

/// What receipts hold.
pub open spec fn receipt_bytes(receipts: Seq<Receipt>) -> Seq<Seq<u8>> {
    receipts.map_values(|receipt: Receipt| receipt.buf@)
}

/// Each receipt is of some bytes, and says how many.
pub open spec fn are_receipts(receipts: Seq<Receipt>) -> bool {
    forall|i: int|
        0 <= i < receipts.len() ==> 0 < (#[trigger] receipts[i]).result == receipts[i].buf@.len()
}

/// A program that is stepped with `receipts`, one after the other, as long as it
/// wants more: what it has come to, and what it answered last.
pub open spec fn stepped_through(
    v: ReceivingView,
    answer: Result<ReceiveTurn, ReceiveError>,
    receipts: Seq<Receipt>,
) -> (ReceivingView, Result<ReceiveTurn, ReceiveError>)
    decreases receipts.len(),
{
    if receipts.len() > 0 && (answer matches Ok(ReceiveTurn::Recv(_))) {
        let (next, last) = receive_step(v, Some(receipts[0]));
        stepped_through(next, last, receipts.skip(1))
    } else {
        (v, answer)
    }
}

/// A program from its first step on, which finds nothing received, and then with
/// `receipts`.
pub open spec fn receiving_run(v: ReceivingView, receipts: Seq<Receipt>) -> (
    ReceivingView,
    Result<ReceiveTurn, ReceiveError>,
) {
    let (first, answer) = receive_step(v, None);
    stepped_through(first, answer, receipts)
}

/// A receipt is taken whole, behind what was received before, and counts as many
/// bytes as it says.
pub proof fn law_receipts_are_taken_whole(v: ReceivingView, receipt: Receipt)
    requires
        receipt.result > 0,
        v.chunked == (v.decoder is Some),
        v.chunked == (v.content_length is None),
    ensures
        ({
            let (next, answer) = receive_step(v, Some(receipt));
            &&& next.received == v.received + receipt.result
            &&& next.chunked == v.chunked
            &&& next.content_length == v.content_length
            &&& !v.chunked ==> {
                &&& next.buf == v.buf + receipt.buf@
                &&& answer == Ok::<ReceiveTurn, ReceiveError>(
                    if v.received + receipt.result >= v.content_length->0 {
                        ReceiveTurn::Complete
                    } else {
                        ReceiveTurn::Recv(
                            (v.content_length->0 - v.received - receipt.result) as u64,
                        )
                    },
                )
            }
            &&& v.chunked ==> {
                let decoded = run(v.decoder->0, v.in_buf + receipt.buf@);
                &&& next.buf == v.buf + decoded.out
                &&& next.in_buf == decoded.rest
                &&& next.decoder == Some(decoded.decoder)
                &&& answer == match decoded.end {
                    RunEnd::Done => Ok::<ReceiveTurn, ReceiveError>(ReceiveTurn::Complete),
                    RunEnd::Wait => Ok(ReceiveTurn::Recv(16384)),
                    RunEnd::Fail(error) => Err(ReceiveError::Chunk(error)),
                }
            }
        }),
{
}

/// A client that is gone before its body is complete, and a socket that failed
/// under a body in chunks, end the program with an error, and what was received
/// stays.
pub proof fn law_broken_receipts_are_errors(v: ReceivingView, receipt: Receipt)
    ensures
        receipt.result == 0 ==> receive_step(v, Some(receipt)) == (
            v,
            Err::<ReceiveTurn, ReceiveError>(ReceiveError::Disconnected),
        ),
        receipt.result == -1 && v.chunked ==> receive_step(v, Some(receipt)) == (
            v,
            Err::<ReceiveTurn, ReceiveError>(ReceiveError::Socket),
        ),
{
}

/// A body of known length is received as it was sent, however it is divided
/// between what was read with the head and the receipts: the program asks for
/// what is missing, is complete with the receipt that brings the last byte, holds
/// all bytes that arrived, in order, and gives the first `length` of them as the
/// body.
pub proof fn law_bodies_of_known_length_are_received(
    length: u64,
    initial: Seq<u8>,
    receipts: Seq<Receipt>,
)
    requires
        are_receipts(receipts),
        initial.len() + joined(receipt_bytes(receipts)).len() >= length,
        receipts.len() > 0 ==> initial.len() + joined(
            receipt_bytes(receipts.drop_last()),
        ).len() < length,
    ensures
        ({
            let v = fresh_receiving(false, Some(length), initial);
            let (done, answer) = receiving_run(v, receipts);
            let all = initial + joined(receipt_bytes(receipts));
            &&& answer == Ok::<ReceiveTurn, ReceiveError>(ReceiveTurn::Complete)
            &&& done.buf == all
            &&& body_of(done) == all.take(length as int)
            &&& initial.len() < length ==> receive_step(v, None).1 == Ok::<
                ReceiveTurn,
                ReceiveError,
            >(ReceiveTurn::Recv((length - initial.len()) as u64))
        }),
{
    let v = fresh_receiving(false, Some(length), initial);
    lemma_known_length_from(v, receive_step(v, None).1, receipts);
    let all = initial + joined(receipt_bytes(receipts));
    assert(all.take(all.len() as int) =~= all);
}

/// The joined bytes of receipts, with the first apart.
proof fn lemma_joined_receipts(receipts: Seq<Receipt>)
    requires
        receipts.len() > 0,
    ensures
        joined(receipt_bytes(receipts)) == receipts[0].buf@ + joined(
            receipt_bytes(receipts.skip(1)),
        ),
{
    assert(receipt_bytes(receipts).skip(1) =~= receipt_bytes(receipts.skip(1)));
}

/// [`law_bodies_of_known_length_are_received`], from any step on.
proof fn lemma_known_length_from(
    v: ReceivingView,
    answer: Result<ReceiveTurn, ReceiveError>,
    receipts: Seq<Receipt>,
)
    requires
        !v.chunked,
        v.decoder is None,
        v.content_length is Some,
        v.received == v.buf.len(),
        answer == receive_step(v, None).1,
        are_receipts(receipts),
        v.buf.len() + joined(receipt_bytes(receipts)).len() >= v.content_length->0,
        receipts.len() > 0 ==> v.buf.len() + joined(receipt_bytes(receipts.drop_last())).len()
            < v.content_length->0,
    ensures
        ({
            let (done, last) = stepped_through(v, answer, receipts);
            &&& last == Ok::<ReceiveTurn, ReceiveError>(ReceiveTurn::Complete)
            &&& done.buf == v.buf + joined(receipt_bytes(receipts))
            &&& done.content_length == v.content_length
        }),
    decreases receipts.len(),
{
    if receipts.len() == 0 {
        assert(v.buf + joined(receipt_bytes(receipts)) =~= v.buf);
    } else {
        let first = receipts[0];
        let rest = receipts.skip(1);
        let (next, last) = receive_step(v, Some(first));
        law_receipts_are_taken_whole(v, first);
        lemma_joined_receipts(receipts);
        assert(v.buf + first.buf@ + joined(receipt_bytes(rest)) =~= v.buf + joined(
            receipt_bytes(receipts),
        ));
        assert forall|i: int| 0 <= i < rest.len() implies 0 < (#[trigger] rest[i]).result
            == rest[i].buf@.len() by {
            assert(rest[i] == receipts[i + 1]);
        }
        if rest.len() > 0 {
            let init = receipts.drop_last();
            lemma_joined_receipts(init);
            assert(init.skip(1) =~= rest.drop_last());
        }
        lemma_known_length_from(next, last, rest);
    }
}

/// A body that was sent in chunks is received as it was before it was cut into
/// chunks, whatever the chunks are and however they are divided among the
/// receipts, behind what was there before.
pub proof fn law_bodies_in_chunks_are_received(
    initial: Seq<u8>,
    chunks: Seq<Seq<u8>>,
    more: Seq<u8>,
    receipts: Seq<Receipt>,
)
    requires
        are_receipts(receipts),
        forall|i: int| 0 <= i < chunks.len() ==> (#[trigger] chunks[i]).len() > 0,
        joined(chunks).len() <= 1024 * 1024,
        joined(receipt_bytes(receipts)) == encode_chunks(chunks) + more,
    ensures
        ({
            let v = fresh_receiving(true, None, initial);
            let (done, answer) = receiving_run(v, receipts);
            &&& answer == Ok::<ReceiveTurn, ReceiveError>(ReceiveTurn::Complete)
            &&& done.buf == initial + joined(chunks)
            &&& receive_step(v, None).1 == Ok::<ReceiveTurn, ReceiveError>(
                ReceiveTurn::Recv(16384),
            )
        }),
{
    let v = fresh_receiving(true, None, initial);
    let d = fresh_decoder(1024 * 1024);
    let all = joined(receipt_bytes(receipts));
    law_encoded_chunks_read_back(d, chunks, more);
    lemma_find(Seq::empty(), crlf());
    assert(transition(d, Seq::empty()) is Wait);
    let first = receive_step(v, None).0;
    assert(initial + Seq::<u8>::empty() =~= initial);
    assert(first == v);
    assert(Seq::<u8>::empty() + all =~= all);
    lemma_chunked_from(v, receipts);
}

/// [`law_bodies_in_chunks_are_received`], from any step on.
proof fn lemma_chunked_from(v: ReceivingView, receipts: Seq<Receipt>)
    requires
        v.chunked,
        v.decoder is Some,
        v.content_length is None,
        are_receipts(receipts),
        transition(v.decoder->0, v.in_buf) is Wait,
        run(v.decoder->0, v.in_buf + joined(receipt_bytes(receipts))).end is Done,
    ensures
        ({
            let (done, last) = stepped_through(v, Ok(ReceiveTurn::Recv(16384)), receipts);
            &&& last == Ok::<ReceiveTurn, ReceiveError>(ReceiveTurn::Complete)
            &&& done.buf == v.buf + run(
                v.decoder->0,
                v.in_buf + joined(receipt_bytes(receipts)),
            ).out
        }),
    decreases receipts.len(),
{
    let d = v.decoder->0;
    if receipts.len() == 0 {
        assert(v.in_buf + joined(receipt_bytes(receipts)) =~= v.in_buf);
        assert(false);
    } else {
        let piece = receipts[0].buf@;
        let rest = receipts.skip(1);
        let left = joined(receipt_bytes(rest));
        let (next, last) = receive_step(v, Some(receipts[0]));
        law_receipts_are_taken_whole(v, receipts[0]);
        lemma_joined_receipts(receipts);
        law_decoding_is_incremental(d, v.in_buf + piece, left);
        law_decoding_settles(d, v.in_buf + piece);
        assert(v.in_buf + piece + left =~= v.in_buf + joined(receipt_bytes(receipts)));
        let first = run(d, v.in_buf + piece);
        assert forall|i: int| 0 <= i < rest.len() implies 0 < (#[trigger] rest[i]).result
            == rest[i].buf@.len() by {
            assert(rest[i] == receipts[i + 1]);
        }
        if first.end is Wait {
            lemma_chunked_from(next, rest);
            let second = run(first.decoder, first.rest + left);
            assert(v.buf + first.out + second.out =~= v.buf + (first.out + second.out));
        } else {
            assert(stepped_through(next, last, rest) == (next, last));
        }
        assert(stepped_through(v, Ok(ReceiveTurn::Recv(16384)), receipts) == stepped_through(
            next,
            last,
            rest,
        ));
    }
}

/// A program can be stepped with any receipt whose bytes can still be counted, as
/// long as the end of the body is known.
pub proof fn law_receipts_can_be_counted(v: ReceivingView, receipt: Receipt)
    ensures
        countable(v, None),
        receipt.result >= 0 && v.received + receipt.result <= u64::MAX ==> countable(
            v,
            Some(receipt),
        ),
        v.chunked && receipt.result == -1 ==> countable(v, Some(receipt)),
        v.chunked && v.content_length is None ==> known_end(v),
        !v.chunked && v.content_length is Some ==> known_end(v),
{
}

/// A body of known length is given as far as it arrived, and no further than its
/// length.
pub proof fn law_bodies_end_with_their_length(v: ReceivingView, length: u64)
    requires
        v.content_length == Some(length),
    ensures
        v.buf.len() >= length ==> body_of(v) == v.buf.take(length as int),
        v.buf.len() < length ==> body_of(v) == v.buf,
{
    if v.buf.len() == length {
        assert(v.buf.take(length as int) =~= v.buf);
    }
}

} // verus!
