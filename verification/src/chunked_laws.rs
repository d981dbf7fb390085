//! What holds of the chunked decoder as a whole.

use vstd::prelude::*;

use crate::bytes::{crlf, find, lemma_find, lemma_find_extends, lemma_find_is, occurs_at, CR, SEMICOLON};
use crate::chunked::{advance_result, chunk_size, hex_digit, hex_value, is_ows, leading_digits, lemma_transition_consumes, rank, run, size_field, transition, Advance, ChunkError, ChunkState, DecoderView, Run, RunEnd, Transition};
use crate::seqs::{lemma_trim_nothing, lemma_until_is, lemma_without_end_is, trim_start};

verus! {

/// A move that can be made is not changed by bytes that arrive later: they
/// only follow what the move leaves.
proof fn lemma_transition_extends(d: DecoderView, a: Seq<u8>, b: Seq<u8>)
    ensures
        match transition(d, a) {
            Transition::Wait => true,
            Transition::Next { decoder, rest, out } => transition(d, a + b) == (Transition::Next {
                decoder,
                rest: rest + b,
                out,
            }),
            Transition::Done { decoder, rest } => transition(d, a + b) == (Transition::Done {
                decoder,
                rest: rest + b,
            }),
            Transition::Fail { decoder, rest, error } => transition(d, a + b) == (
            Transition::Fail { decoder, rest: rest + b, error }),
        },
{
    lemma_find(a, crlf());
    match find(a, crlf()) {
        Some(at) => {
            lemma_find_extends(a, b, crlf());
            assert((a + b).take(at) =~= a.take(at));
            assert((a + b).skip(at + 2) =~= a.skip(at + 2) + b);
        },
        None => {},
    }
    match d.state {
        ChunkState::ReadData { remaining } => {
            if remaining <= a.len() {
                assert((a + b).take(remaining as int) =~= a.take(remaining as int));
                assert((a + b).skip(remaining as int) =~= a.skip(remaining as int) + b);
            }
        },
        ChunkState::ReadDataCrlf => {
            if a.len() >= 2 {
                assert((a + b).take(2) =~= a.take(2));
                assert((a + b).skip(2) =~= a.skip(2) + b);
            }
        },
        _ => {},
    }
}

/// How a body is cut into pieces on its way does not matter: decoding `a` and
/// then `b` comes to the same as decoding both at once.
pub proof fn law_decoding_is_incremental(d: DecoderView, a: Seq<u8>, b: Seq<u8>)
    ensures
        ({
            let first = run(d, a);
            match first.end {
                RunEnd::Wait => {
                    let second = run(first.decoder, first.rest + b);
                    run(d, a + b) == (Run { out: first.out + second.out, ..second })
                },
                _ => run(d, a + b) == (Run { rest: first.rest + b, ..first }),
            }
        }),
    decreases a.len(), rank(d.state),
{
    lemma_transition_extends(d, a, b);
    match transition(d, a) {
        Transition::Next { decoder, rest, out } => {
            lemma_transition_consumes(d, a);
            law_decoding_is_incremental(decoder, rest, b);
            let first = run(decoder, rest);
            match first.end {
                RunEnd::Wait => {
                    let second = run(first.decoder, first.rest + b);
                    assert(out + (first.out + second.out) =~= (out + first.out) + second.out);
                },
                _ => {},
            }
        },
        Transition::Wait => {
            let second = run(d, a + b);
            assert(Seq::<u8>::empty() + second.out =~= second.out);
        },
        _ => {},
    }
}

/// Once a decoder waits, it can only wait until more bytes arrive.
pub proof fn law_decoding_settles(d: DecoderView, input: Seq<u8>)
    ensures
        run(d, input).end is Wait ==> transition(run(d, input).decoder, run(d, input).rest) is Wait,
    decreases input.len(), rank(d.state),
{
    match transition(d, input) {
        Transition::Next { decoder, rest, out } => {
            lemma_transition_consumes(d, input);
            law_decoding_settles(decoder, rest);
        },
        _ => {},
    }
}

/// A decoder that is done stays done.
pub proof fn law_decoding_ends_done(d: DecoderView, input: Seq<u8>)
    ensures
        run(d, input).end is Done ==> run(d, input).decoder.state is Done,
    decreases input.len(), rank(d.state),
{
    match transition(d, input) {
        Transition::Next { decoder, rest, out } => {
            lemma_transition_consumes(d, input);
            law_decoding_ends_done(decoder, rest);
        },
        _ => {},
    }
}

/// A decoder counts what it decodes, and never decodes more than its limit.
pub proof fn law_decoding_is_bounded(d: DecoderView, input: Seq<u8>)
    requires
        d.decoded <= d.max_decoded,
    ensures
        run(d, input).decoder.max_decoded == d.max_decoded,
        run(d, input).decoder.decoded == d.decoded + run(d, input).out.len(),
        run(d, input).decoder.decoded <= d.max_decoded,
    decreases input.len(), rank(d.state),
{
    match transition(d, input) {
        Transition::Next { decoder, rest, out } => {
            lemma_transition_consumes(d, input);
            law_decoding_is_bounded(decoder, rest);
        },
        _ => {},
    }
}

/// The lower-case hexadecimal digit for a number below sixteen.
pub open spec fn hex_char(n: nat) -> u8 {
    if n < 10 {
        (48 + n) as u8
    } else {
        (87 + n) as u8
    }
}

/// A number in hexadecimal.
pub open spec fn hex_text(n: nat) -> Seq<u8>
    decreases n,
{
    if n < 16 {
        seq![hex_char(n)]
    } else {
        hex_text(n / 16).push(hex_char(n % 16))
    }
}

/// A chunk: its size, its data, and the line ends that frame them.
pub open spec fn encode_chunk(data: Seq<u8>) -> Seq<u8> {
    hex_text(data.len()) + crlf() + data + crlf()
}

/// A body in the chunked transfer encoding, without trailers.
pub open spec fn encode_chunks(chunks: Seq<Seq<u8>>) -> Seq<u8>
    decreases chunks.len(),
{
    if chunks.len() == 0 {
        hex_text(0) + crlf() + crlf()
    } else {
        encode_chunk(chunks[0]) + encode_chunks(chunks.skip(1))
    }
}

/// The data of all chunks.
pub open spec fn joined(chunks: Seq<Seq<u8>>) -> Seq<u8>
    decreases chunks.len(),
{
    if chunks.len() == 0 {
        Seq::empty()
    } else {
        chunks[0] + joined(chunks.skip(1))
    }
}

spec fn pow16(k: nat) -> nat
    decreases k,
{
    if k == 0 {
        1
    } else {
        16 * pow16((k - 1) as nat)
    }
}

proof fn lemma_hex_text_len(n: nat, k: nat)
    requires
        n < pow16(k),
        k >= 1,
    ensures
        hex_text(n).len() <= k,
    decreases n,
{
    if n >= 16 {
        if k == 1 {
            assert(pow16(1) == 16 * pow16(0));
        }
        lemma_hex_text_len(n / 16, (k - 1) as nat);
    }
}

/// A number written in hexadecimal reads as that number.
pub proof fn law_hex_text_reads_back(n: nat)
    ensures
        hex_text(n).len() > 0,
        hex_value(hex_text(n)) == n,
        forall|i: int| 0 <= i < hex_text(n).len() ==> hex_digit(#[trigger] hex_text(n)[i]) is Some,
    decreases n,
{
    if n < 16 {
        assert(hex_text(n).drop_last() =~= Seq::empty());
        assert(hex_value(Seq::<u8>::empty()) == 0);
        assert(hex_digit(hex_char(n)) == Some(n));
    } else {
        law_hex_text_reads_back(n / 16);
        assert(hex_text(n).drop_last() =~= hex_text(n / 16));
        assert(hex_digit(hex_char(n % 16)) == Some(n % 16));
        assert forall|i: int| 0 <= i < hex_text(n).len() implies hex_digit(
            #[trigger] hex_text(n)[i],
        ) is Some by {
            if i < hex_text(n).len() - 1 {
                assert(hex_text(n)[i] == hex_text(n / 16)[i]);
            }
        }
    }
}

proof fn lemma_chunk_size_of_hex_text(n: nat)
    requires
        n <= usize::MAX,
    ensures
        chunk_size(hex_text(n)) == Ok::<usize, crate::chunked::ChunkError>(n as usize),
{
    let text = hex_text(n);
    law_hex_text_reads_back(n);
    assert forall|i: int| 0 <= i < text.len() implies #[trigger] text[i] != SEMICOLON && !is_ows(
        text[i],
    ) by {
        assert(hex_digit(text[i]) is Some);
    }
    lemma_until_is(text, |b: u8| b == SEMICOLON, text.len());
    assert(text.take(text.len() as int) =~= text);
    lemma_trim_nothing(text, |b: u8| is_ows(b));
    assert(size_field(text) == text);
    lemma_until_is(text, |b: u8| hex_digit(b) is None, text.len());
    assert(leading_digits(text) =~= text);
}

/// A line without a carriage return ends where it is ended.
proof fn lemma_line_end(line: Seq<u8>, more: Seq<u8>)
    requires
        forall|i: int| 0 <= i < line.len() ==> #[trigger] line[i] != CR,
    ensures
        find(line + crlf() + more, crlf()) == Some(line.len() as int),
{
    let s = line + crlf() + more;
    let n = line.len() as int;
    assert(s.subrange(n, n + 2) =~= crlf());
    assert forall|j: int| 0 <= j < n implies !occurs_at(s, crlf(), j) by {
        if occurs_at(s, crlf(), j) {
            assert(s.subrange(j, j + 2)[0] == CR);
            assert(s[j] == line[j]);
        }
    }
    lemma_find_is(s, crlf(), n);
}

/// The decoder reads a size line as the size that was written.
proof fn lemma_size_line(d: DecoderView, n: nat, more: Seq<u8>)
    requires
        d.state is ReadSizeLine,
        n <= usize::MAX,
    ensures
        transition(d, hex_text(n) + crlf() + more) == (Transition::Next {
            decoder: DecoderView {
                state: if n == 0 {
                    ChunkState::ReadTrailers
                } else {
                    ChunkState::ReadData { remaining: n as usize }
                },
                ..d
            },
            rest: more,
            out: Seq::empty(),
        }),
{
    let text = hex_text(n);
    let input = text + crlf() + more;
    law_hex_text_reads_back(n);
    assert forall|i: int| 0 <= i < text.len() implies #[trigger] text[i] != CR by {
        assert(hex_digit(text[i]) is Some);
    }
    lemma_line_end(text, more);
    assert(pow16(16) == 0x1_0000_0000_0000_0000) by {
        reveal_with_fuel(pow16, 17);
    }
    lemma_hex_text_len(n, 16);
    lemma_chunk_size_of_hex_text(n);
    assert(input.take(text.len() as int) =~= text);
    assert(input.skip(text.len() as int + 2) =~= more);
}

/// What is encoded reads back: a decoder given the encoding of some chunks
/// decodes their data, in order, and stops right behind the encoding.
pub proof fn law_encoded_chunks_read_back(d: DecoderView, chunks: Seq<Seq<u8>>, more: Seq<u8>)
    requires
        d.state is ReadSizeLine,
        d.trailers == 0,
        forall|i: int| 0 <= i < chunks.len() ==> (#[trigger] chunks[i]).len() > 0,
        d.decoded + joined(chunks).len() <= d.max_decoded <= usize::MAX,
    ensures
        run(d, encode_chunks(chunks) + more) == (Run {
            decoder: DecoderView {
                state: ChunkState::Done,
                decoded: d.decoded + joined(chunks).len(),
                trailers: 2,
                max_decoded: d.max_decoded,
            },
            rest: more,
            out: joined(chunks),
            end: RunEnd::Done,
        }),
    decreases chunks.len(),
{
    if chunks.len() == 0 {
        assert(encode_chunks(chunks) + more =~= hex_text(0) + crlf() + (crlf() + more));
        lemma_size_line(d, 0, crlf() + more);
        lemma_line_end(Seq::empty(), more);
        assert(Seq::<u8>::empty() + crlf() + more =~= crlf() + more);
        assert((crlf() + more).skip(2) =~= more);
        let trailing = DecoderView { state: ChunkState::ReadTrailers, ..d };
        assert(run(trailing, crlf() + more).end is Done);
        assert(Seq::<u8>::empty() + Seq::<u8>::empty() =~= joined(chunks));
    } else {
        let data = chunks[0];
        let others = chunks.skip(1);
        let after = encode_chunks(others) + more;
        let n = data.len();
        let framed = data + (crlf() + after);
        assert(encode_chunks(chunks) + more =~= hex_text(n) + crlf() + framed);
        lemma_size_line(d, n, framed);
        let reading = DecoderView { state: ChunkState::ReadData { remaining: n as usize }, ..d };
        assert(framed.take(n as int) =~= data);
        assert(framed.skip(n as int) =~= crlf() + after);
        let ending = DecoderView { state: ChunkState::ReadDataCrlf, decoded: d.decoded + n, ..d };
        assert((crlf() + after).take(2) =~= crlf());
        assert((crlf() + after).skip(2) =~= after);
        let next = DecoderView { state: ChunkState::ReadSizeLine, decoded: d.decoded + n, ..d };
        assert forall|i: int| 0 <= i < others.len() implies (#[trigger] others[i]).len() > 0 by {
            assert(others[i] == chunks[i + 1]);
        }
        law_encoded_chunks_read_back(next, others, more);
        let tail = run(next, after);
        assert(transition(ending, crlf() + after) == (Transition::Next {
            decoder: next,
            rest: after,
            out: Seq::empty(),
        }));
        assert(run(ending, crlf() + after) == (Run { out: Seq::<u8>::empty() + tail.out, ..tail }));
        assert(transition(reading, framed) == (Transition::Next {
            decoder: ending,
            rest: crlf() + after,
            out: data,
        }));
        assert(Seq::<u8>::empty() + tail.out =~= tail.out);
        assert(run(reading, framed) == (Run { out: data + tail.out, ..tail }));
        assert(Seq::<u8>::empty() + (data + tail.out) =~= joined(chunks));
    }
}

/// As long as the encoding of some chunks is not all there, a decoder waits.
pub proof fn law_incomplete_chunks_are_awaited(d: DecoderView, chunks: Seq<Seq<u8>>, n: int)
    requires
        d.state is ReadSizeLine,
        d.trailers == 0,
        forall|i: int| 0 <= i < chunks.len() ==> (#[trigger] chunks[i]).len() > 0,
        d.decoded + joined(chunks).len() <= d.max_decoded <= usize::MAX,
        0 <= n < encode_chunks(chunks).len(),
    ensures
        run(d, encode_chunks(chunks).take(n)).end is Wait,
{
    let whole = encode_chunks(chunks);
    let a = whole.take(n);
    let b = whole.skip(n);
    law_encoded_chunks_read_back(d, chunks, Seq::empty());
    law_decoding_is_incremental(d, a, b);
    assert(a + b =~= whole);
    assert(whole + Seq::<u8>::empty() =~= whole);
}

/// The number that a byte stands for as a hexadecimal digit, in either case.
pub open spec fn digit_value(c: u8) -> Option<int> {
    if '0' as int <= c as int <= '9' as int {
        Some(c as int - '0' as int)
    } else if 'a' as int <= c as int <= 'f' as int {
        Some(10 + c as int - 'a' as int)
    } else if 'A' as int <= c as int <= 'F' as int {
        Some(10 + c as int - 'A' as int)
    } else {
        None
    }
}

/// Only hexadecimal digits.
pub open spec fn all_digits(s: Seq<u8>) -> bool {
    forall|i: int| 0 <= i < s.len() ==> digit_value(#[trigger] s[i]) is Some
}

proof fn lemma_field_of(s: Seq<u8>)
    requires
        s.len() > 0,
        forall|i: int| 0 <= i < s.len() ==> #[trigger] s[i] != SEMICOLON,
        !is_ows(s[0]),
        !is_ows(s.last()),
    ensures
        size_field(s) == s,
{
    lemma_until_is(s, |b: u8| b == SEMICOLON, s.len());
    assert(s.take(s.len() as int) =~= s);
    lemma_trim_nothing(s, |b: u8| is_ows(b));
}

proof fn lemma_digits_are(s: Seq<u8>)
    requires
        s.len() > 0,
        all_digits(s),
    ensures
        size_field(s) == s,
        leading_digits(s) == s,
        chunk_size(s) == if hex_value(s) <= usize::MAX {
            Ok::<usize, ChunkError>(hex_value(s) as usize)
        } else {
            Err(ChunkError::SizeOverflow)
        },
{
    assert forall|i: int| 0 <= i < s.len() implies #[trigger] s[i] != SEMICOLON && !is_ows(s[i])
        && hex_digit(s[i]) is Some by {
        assert(digit_value(s[i]) is Some);
    }
    assert(!is_ows(s[s.len() - 1]));
    lemma_field_of(s);
    lemma_until_is(s, |b: u8| hex_digit(b) is None, s.len());
    assert(s.take(s.len() as int) =~= s);
}

/// The size of a chunk is read digit by digit: a further digit makes sixteen times
/// as much of it, and itself more, as long as that fits.
pub proof fn law_sizes_are_read_by_digits(digits: Seq<u8>, c: u8)
    requires
        digits.len() > 0,
        all_digits(digits),
        digit_value(c) is Some,
    ensures
        chunk_size(seq![c]) == Ok::<usize, ChunkError>(digit_value(c)->0 as usize),
        chunk_size(digits) matches Ok(n) ==> chunk_size(digits.push(c)) == if n * 16
            + digit_value(c)->0 <= usize::MAX {
            Ok::<usize, ChunkError>((n * 16 + digit_value(c)->0) as usize)
        } else {
            Err(ChunkError::SizeOverflow)
        },
        chunk_size(digits) is Err ==> chunk_size(digits.push(c)) == Err::<usize, ChunkError>(
            ChunkError::SizeOverflow,
        ),
{
    let one = seq![c];
    let more = digits.push(c);
    assert(all_digits(one));
    assert(all_digits(more)) by {
        assert forall|i: int| 0 <= i < more.len() implies digit_value(#[trigger] more[i]) is Some by {
            if i < digits.len() {
                assert(more[i] == digits[i]);
            }
        }
    }
    lemma_digits_are(one);
    lemma_digits_are(digits);
    lemma_digits_are(more);
    assert(one.drop_last() =~= Seq::empty());
    assert(hex_value(Seq::<u8>::empty()) == 0);
    assert(more.drop_last() =~= digits);
}

/// Only spaces and tabs.
pub open spec fn all_blanks(s: Seq<u8>) -> bool {
    forall|i: int| 0 <= i < s.len() ==> #[trigger] s[i] == ' ' as u8 || s[i] == '\t' as u8
}

/// Blanks around the size, and an extension behind a semicolon, do not matter, and
/// a line that has nothing else gives no size.
pub proof fn law_extensions_do_not_matter(a: Seq<u8>, size: Seq<u8>, b: Seq<u8>, extension: Seq<u8>)
    requires
        all_blanks(a),
        all_blanks(b),
        forall|i: int| 0 <= i < size.len() ==> #[trigger] size[i] != ';' as u8,
        size.len() > 0 ==> size[0] != ' ' as u8 && size[0] != '\t' as u8 && size.last() != ' ' as u8
            && size.last() != '\t' as u8,
    ensures
        chunk_size(a + size + b) == chunk_size(size),
        chunk_size(a + size + b + seq![';' as u8] + extension) == chunk_size(size),
        size.len() == 0 ==> chunk_size(a + size + b) == Err::<usize, ChunkError>(
            ChunkError::EmptySize,
        ),
{
    let text = a + size + b;
    let line = text + seq![';' as u8] + extension;
    let semi = |x: u8| x == SEMICOLON;
    assert forall|i: int| 0 <= i < text.len() implies !semi(#[trigger] text[i]) by {
        if i < a.len() {
            assert(text[i] == a[i]);
        } else if i < a.len() + size.len() {
            assert(text[i] == size[i - a.len()]);
        } else {
            assert(text[i] == b[i - a.len() - size.len()]);
        }
    }
    lemma_until_is(text, semi, text.len());
    assert(text.take(text.len() as int) =~= text);
    assert forall|i: int| 0 <= i < text.len() implies !semi(#[trigger] line[i]) by {
        assert(line[i] == text[i]);
    }
    lemma_until_is(line, semi, text.len());
    assert(line.take(text.len() as int) =~= text);
    lemma_until_is(size, semi, size.len());
    assert(size.take(size.len() as int) =~= size);
    let p = |x: u8| is_ows(x);
    let not_p = |x: u8| !p(x);
    lemma_trim_nothing(size, p);
    let n = if size.len() > 0 {
        a.len()
    } else {
        text.len()
    };
    assert forall|i: int| 0 <= i < n implies !not_p(#[trigger] text[i]) by {
        if i < a.len() {
            assert(text[i] == a[i]);
        } else {
            assert(text[i] == b[i - a.len()]);
        }
    }
    if size.len() > 0 {
        assert(text[n as int] == size[0]);
    }
    lemma_until_is(text, not_p, n);
    let rest = text.skip(n as int);
    assert(trim_start(text, p) == rest);
    if size.len() > 0 {
        assert(rest =~= size + b);
        assert forall|i: int| size.len() <= i < rest.len() implies p(#[trigger] rest[i]) by {
            assert(rest[i] == b[i - size.len()]);
        }
        assert(rest[size.len() - 1] == size.last());
    }
    lemma_without_end_is(rest, p, size.len());
    assert(rest.take(size.len() as int) =~= size);
}

/// A byte that is no digit makes a size none.
pub proof fn law_sizes_hold_only_digits(digits: Seq<u8>, c: u8, more: Seq<u8>)
    requires
        all_digits(digits),
        digits.len() > 0 ==> chunk_size(digits) is Ok,
        digit_value(c) is None,
        forall|i: int|
            0 <= i < (digits.push(c) + more).len() ==> #[trigger] (digits.push(c) + more)[i]
                != ';' as u8,
        !is_ows((digits.push(c) + more)[0]),
        !is_ows((digits.push(c) + more).last()),
    ensures
        chunk_size(digits.push(c) + more) == Err::<usize, ChunkError>(ChunkError::InvalidHexDigit),
{
    let s = digits.push(c) + more;
    lemma_field_of(s);
    let none = |b: u8| hex_digit(b) is None;
    assert forall|i: int| 0 <= i < digits.len() implies !none(#[trigger] s[i]) by {
        assert(s[i] == digits[i]);
        assert(digit_value(digits[i]) is Some);
    }
    assert(s[digits.len() as int] == c);
    lemma_until_is(s, none, digits.len());
    assert(leading_digits(s) =~= digits);
    if digits.len() > 0 {
        lemma_digits_are(digits);
    } else {
        assert(digits =~= Seq::empty());
        assert(hex_value(digits) == 0);
    }
}

/// A chunk as it may be sent: a line that gives its size, and its data.
pub struct Frame {
    pub line: Seq<u8>,
    pub data: Seq<u8>,
}

/// A line can be read as a line: it holds no carriage return.
pub open spec fn is_one_line(line: Seq<u8>) -> bool {
    forall|i: int| 0 <= i < line.len() ==> #[trigger] line[i] != 13
}

/// The line of a chunk is no longer than 8 KiB, and gives the size of its data.
pub open spec fn is_framed(frame: Frame) -> bool {
    &&& is_one_line(frame.line)
    &&& frame.line.len() <= 8192
    &&& frame.data.len() <= usize::MAX
    &&& chunk_size(frame.line) == Ok::<usize, ChunkError>(frame.data.len() as usize)
}

/// Lines, each with its end.
pub open spec fn ended_lines(lines: Seq<Seq<u8>>) -> Seq<u8>
    decreases lines.len(),
{
    if lines.len() == 0 {
        Seq::empty()
    } else {
        lines[0] + seq![13u8, 10u8] + ended_lines(lines.skip(1))
    }
}

/// A body in chunks, with the line of the last chunk and the trailers.
pub open spec fn framed_body(frames: Seq<Frame>, last: Seq<u8>, trailers: Seq<Seq<u8>>) -> Seq<u8>
    decreases frames.len(),
{
    if frames.len() == 0 {
        last + seq![13u8, 10u8] + ended_lines(trailers) + seq![13u8, 10u8]
    } else {
        frames[0].line + seq![13u8, 10u8] + frames[0].data + seq![13u8, 10u8] + framed_body(
            frames.skip(1),
            last,
            trailers,
        )
    }
}

/// The data of all chunks.
pub open spec fn framed_data(frames: Seq<Frame>) -> Seq<u8>
    decreases frames.len(),
{
    if frames.len() == 0 {
        Seq::empty()
    } else {
        frames[0].data + framed_data(frames.skip(1))
    }
}

proof fn lemma_trailers(d: DecoderView, trailers: Seq<Seq<u8>>, more: Seq<u8>)
    requires
        d.state is ReadTrailers,
        forall|i: int|
            0 <= i < trailers.len() ==> is_one_line(#[trigger] trailers[i]) && trailers[i].len()
                > 0,
        d.trailers + ended_lines(trailers).len() + 2 <= 32768,
    ensures
        ({
            let r = run(d, ended_lines(trailers) + seq![13u8, 10u8] + more);
            &&& r.end is Done
            &&& r.rest == more
            &&& r.out == Seq::<u8>::empty()
        }),
    decreases trailers.len(),
{
    let input = ended_lines(trailers) + seq![13u8, 10u8] + more;
    if trailers.len() == 0 {
        assert(input =~= Seq::<u8>::empty() + crlf() + more);
        lemma_line_end(Seq::empty(), more);
        assert(input.skip(2) =~= more);
    } else {
        let line = trailers[0];
        let rest = trailers.skip(1);
        let after = ended_lines(rest) + seq![13u8, 10u8] + more;
        assert(input =~= line + crlf() + after);
        lemma_line_end(line, after);
        assert(input.skip(line.len() as int + 2) =~= after);
        let next = DecoderView { trailers: (d.trailers + line.len() + 2) as nat, ..d };
        assert forall|i: int| 0 <= i < rest.len() implies is_one_line(#[trigger] rest[i])
            && rest[i].len() > 0 by {
            assert(rest[i] == trailers[i + 1]);
        }
        lemma_trailers(next, rest, more);
        assert(transition(d, input) == (Transition::Next {
            decoder: next,
            rest: after,
            out: Seq::empty(),
        }));
    }
}

/// Whatever lines give the sizes of the chunks, and whatever trailers follow, a
/// body in chunks reads back: a decoder decodes the data of the chunks, in order,
/// and stops right behind the body.
pub proof fn law_framed_bodies_read_back(
    d: DecoderView,
    frames: Seq<Frame>,
    last: Seq<u8>,
    trailers: Seq<Seq<u8>>,
    more: Seq<u8>,
)
    requires
        d.state is ReadSizeLine,
        d.trailers == 0,
        forall|i: int|
            0 <= i < frames.len() ==> is_framed(#[trigger] frames[i]) && frames[i].data.len() > 0,
        is_framed(Frame { line: last, data: Seq::empty() }),
        forall|i: int|
            0 <= i < trailers.len() ==> is_one_line(#[trigger] trailers[i]) && trailers[i].len()
                > 0,
        ended_lines(trailers).len() + 2 <= 32768,
        d.decoded + framed_data(frames).len() <= d.max_decoded <= usize::MAX,
    ensures
        ({
            let r = run(d, framed_body(frames, last, trailers) + more);
            &&& r.end is Done
            &&& r.rest == more
            &&& r.out == framed_data(frames)
        }),
    decreases frames.len(),
{
    let input = framed_body(frames, last, trailers) + more;
    if frames.len() == 0 {
        let after = ended_lines(trailers) + seq![13u8, 10u8] + more;
        assert(input =~= last + crlf() + after);
        lemma_line_end(last, after);
        assert(input.take(last.len() as int) =~= last);
        assert(input.skip(last.len() as int + 2) =~= after);
        let trailing = DecoderView { state: ChunkState::ReadTrailers, ..d };
        lemma_trailers(trailing, trailers, more);
        assert(transition(d, input) == (Transition::Next {
            decoder: trailing,
            rest: after,
            out: Seq::empty(),
        }));
    } else {
        let line = frames[0].line;
        let data = frames[0].data;
        let n = data.len();
        let others = frames.skip(1);
        let after = framed_body(others, last, trailers) + more;
        let framed = data + (crlf() + after);
        assert(is_framed(frames[0]));
        assert(input =~= line + crlf() + framed);
        lemma_line_end(line, framed);
        assert(input.take(line.len() as int) =~= line);
        assert(input.skip(line.len() as int + 2) =~= framed);
        let reading = DecoderView { state: ChunkState::ReadData { remaining: n as usize }, ..d };
        assert(framed.take(n as int) =~= data);
        assert(framed.skip(n as int) =~= crlf() + after);
        let ending = DecoderView { state: ChunkState::ReadDataCrlf, decoded: d.decoded + n, ..d };
        assert((crlf() + after).take(2) =~= crlf());
        assert((crlf() + after).skip(2) =~= after);
        let next = DecoderView { state: ChunkState::ReadSizeLine, decoded: d.decoded + n, ..d };
        assert forall|i: int| 0 <= i < others.len() implies is_framed(#[trigger] others[i])
            && others[i].data.len() > 0 by {
            assert(others[i] == frames[i + 1]);
        }
        law_framed_bodies_read_back(next, others, last, trailers, more);
        let tail = run(next, after);
        assert(transition(ending, crlf() + after) == (Transition::Next {
            decoder: next,
            rest: after,
            out: Seq::empty(),
        }));
        assert(run(ending, crlf() + after) == (Run { out: Seq::<u8>::empty() + tail.out, ..tail }));
        assert(Seq::<u8>::empty() + tail.out =~= tail.out);
        assert(transition(reading, framed) == (Transition::Next {
            decoder: ending,
            rest: crlf() + after,
            out: data,
        }));
        assert(run(reading, framed) == (Run { out: data + tail.out, ..tail }));
        assert(transition(d, input) == (Transition::Next {
            decoder: reading,
            rest: framed,
            out: Seq::empty(),
        }));
        assert(Seq::<u8>::empty() + (data + tail.out) =~= framed_data(frames));
    }
}

/// A chunk is refused whose line is longer than 8 KiB or gives no size, whose data
/// is more than may still be decoded, or is not followed by a line end.
pub proof fn law_broken_chunks_are_refused(
    d: DecoderView,
    frame: Frame,
    mark: Seq<u8>,
    more: Seq<u8>,
)
    requires
        d.state is ReadSizeLine,
        is_one_line(frame.line),
        mark.len() == 2,
        frame.data.len() > 0,
    ensures
        ({
            let line = frame.line + seq![13u8, 10u8];
            &&& frame.line.len() > 8192 ==> run(d, line + more).end == RunEnd::Fail(
                ChunkError::SizeLineTooLong,
            )
            &&& frame.line.len() <= 8192 && chunk_size(frame.line) is Err ==> run(d, line + more).end
                == RunEnd::Fail(chunk_size(frame.line)->Err_0)
            &&& is_framed(frame) && d.decoded + frame.data.len() > d.max_decoded ==> run(
                d,
                line + frame.data + more,
            ).end == RunEnd::Fail(ChunkError::TooLarge { limit: d.max_decoded as usize })
            &&& is_framed(frame) && d.decoded + frame.data.len() <= d.max_decoded && mark != seq![
                13u8,
                10u8,
            ] ==> run(d, line + frame.data + mark + more).end == RunEnd::Fail(
                ChunkError::MissingCrlf,
            )
        }),
{
    let line = frame.line;
    let data = frame.data;
    let n = data.len();
    lemma_line_end(line, more);
    assert((line + crlf() + more).take(line.len() as int) =~= line);
    assert(line + seq![13u8, 10u8] + more =~= line + crlf() + more);
    if is_framed(frame) {
        let reading = DecoderView { state: ChunkState::ReadData { remaining: n as usize }, ..d };
        let short = data + more;
        assert(line + seq![13u8, 10u8] + data + more =~= line + crlf() + short);
        lemma_line_end(line, short);
        assert((line + crlf() + short).take(line.len() as int) =~= line);
        assert((line + crlf() + short).skip(line.len() as int + 2) =~= short);
        assert(transition(d, line + crlf() + short) == (Transition::Next {
            decoder: reading,
            rest: short,
            out: Seq::empty(),
        }));
        if d.decoded + n > d.max_decoded {
            assert(transition(reading, short) is Fail);
            assert(run(reading, short).end == RunEnd::Fail(
                ChunkError::TooLarge { limit: d.max_decoded as usize },
            ));
        } else {
            let long = data + (mark + more);
            assert(line + seq![13u8, 10u8] + data + mark + more =~= line + crlf() + long);
            lemma_line_end(line, long);
            assert((line + crlf() + long).take(line.len() as int) =~= line);
            assert((line + crlf() + long).skip(line.len() as int + 2) =~= long);
            assert(transition(d, line + crlf() + long) == (Transition::Next {
                decoder: reading,
                rest: long,
                out: Seq::empty(),
            }));
            let ending = DecoderView {
                state: ChunkState::ReadDataCrlf,
                decoded: d.decoded + n,
                ..d
            };
            assert(long.take(n as int) =~= data);
            assert(long.skip(n as int) =~= mark + more);
            assert(transition(reading, long) == (Transition::Next {
                decoder: ending,
                rest: mark + more,
                out: data,
            }));
            assert((mark + more).take(2) =~= mark);
            if mark != seq![13u8, 10u8] {
                assert(run(ending, mark + more).end == RunEnd::Fail(ChunkError::MissingCrlf));
                assert(run(reading, long).end == RunEnd::Fail(ChunkError::MissingCrlf));
            }
        }
    }
}

/// A trailer is refused with which the trailers take more than 32 KiB.
pub proof fn law_long_trailers_are_refused(d: DecoderView, line: Seq<u8>, more: Seq<u8>)
    requires
        d.state is ReadTrailers,
        is_one_line(line),
        d.trailers + line.len() + 2 > 32768,
    ensures
        run(d, line + seq![13u8, 10u8] + more).end == RunEnd::Fail(ChunkError::TrailersTooLarge),
{
    lemma_line_end(line, more);
    assert(line + seq![13u8, 10u8] + more =~= line + crlf() + more);
}

/// What a call tells: an error where decoding failed, that all is decoded where it
/// is, that more is needed where nothing could be taken, and progress where
/// something was.
pub proof fn law_calls_tell_what_came_of_them(d: DecoderView, input: Seq<u8>)
    requires
        d.state matches ChunkState::ReadData { remaining } ==> remaining > 0,
    ensures
        ({
            let r = run(d, input);
            advance_result(d, input) == match r.end {
                RunEnd::Fail(error) => Err::<Advance, ChunkError>(error),
                RunEnd::Done => Ok(Advance::Done),
                RunEnd::Wait => if r.rest == input {
                    Ok(Advance::NeedMore)
                } else {
                    Ok(Advance::Progress)
                },
            }
        }),
{
    lemma_run_takes(d, input);
    if !(transition(d, input) is Wait) && run(d, input).end is Wait {
        assert(run(d, input).rest.len() < input.len());
    }
}

/// What a decoder leaves is never more than there was, and less where it moved.
proof fn lemma_run_takes(d: DecoderView, input: Seq<u8>)
    ensures
        run(d, input).rest.len() <= input.len(),
        (d.state matches ChunkState::ReadData { remaining } ==> remaining > 0) && transition(
            d,
            input,
        ) is Next ==> run(d, input).rest.len() < input.len(),
    decreases input.len(), rank(d.state),
{
    lemma_find(input, crlf());
    lemma_transition_consumes(d, input);
    match transition(d, input) {
        Transition::Next { decoder, rest, out } => {
            lemma_run_takes(decoder, rest);
        },
        _ => {},
    }
}

/// Once a body was decoded, nothing that follows it is taken.
pub proof fn law_nothing_behind_a_body_is_taken(d: DecoderView, input: Seq<u8>)
    requires
        d.state is Done,
    ensures
        run(d, input) == (Run { decoder: d, rest: input, out: Seq::empty(), end: RunEnd::Done }),
        advance_result(d, input) == Ok::<Advance, ChunkError>(Advance::Done),
{
}

} // verus!
