//! What holds of requests and their headers.

use vstd::prelude::*;
use vstd::utf8::{encode_utf8, encode_utf8_decode_utf8, encode_utf8_valid_utf8, valid_utf8};

use crate::request::{chunked_body, head_view, header_text, header_value, header_views, length_of_body, names_chunked, request_head, request_in, request_of, request_view, same_name, ContentType, ContentTypeView, HeadView, OwnedRequest, ParsedHead, RequestError, RequestView};
use crate::seqs::{lemma_until_is, lemma_without_end_is, trim_start};
use crate::text::{ascii_lowercase, decimal_text, decimal_value, is_char, is_digit, is_whitespace, law_decimal_reads_back, lemma_decimal_text, lower_char, split_at_char, trimmed, u64_of, unsigned_digits};

verus! {

/// Two characters are the same letter, or are the same.
pub open spec fn same_letter(a: char, b: char) -> bool {
    ||| a == b
    ||| 'A' <= a <= 'Z' && b as int == a as int + 32
    ||| 'A' <= b <= 'Z' && a as int == b as int + 32
}

/// The names of headers are the same where they are the same letter by letter.
pub proof fn law_names_are_compared_by_letters(a: Seq<char>, b: Seq<char>)
    ensures
        same_name(a, b) <==> a.len() == b.len() && forall|i: int|
            0 <= i < a.len() ==> same_letter(#[trigger] a[i], b[i]),
{
    let x = ascii_lowercase(a);
    let y = ascii_lowercase(b);
    if same_name(a, b) {
        assert(x.len() == a.len() && y.len() == b.len());
        assert forall|i: int| 0 <= i < a.len() implies same_letter(#[trigger] a[i], b[i]) by {
            assert(x[i] == lower_char(a[i]));
            assert(y[i] == lower_char(b[i]));
        }
    } else if a.len() == b.len() && forall|i: int|
        0 <= i < a.len() ==> same_letter(#[trigger] a[i], b[i]) {
        assert forall|i: int| 0 <= i < a.len() implies x[i] == y[i] by {
            assert(same_letter(a[i], b[i]));
        }
        assert(x =~= y);
    }
}

/// Lower case changes `A` to `Z` to `a` to `z`, and nothing else.
pub proof fn law_lower_case_is_by_letters(s: Seq<char>, i: int)
    requires
        0 <= i < s.len(),
    ensures
        ascii_lowercase(s).len() == s.len(),
        'A' <= s[i] <= 'Z' ==> ascii_lowercase(s)[i] as int == s[i] as int + 32,
        !('A' <= s[i] <= 'Z') ==> ascii_lowercase(s)[i] == s[i],
{
}

/// A header that is not there is not found, and of those that are there only one
/// with the name is found.
pub proof fn law_only_headers_with_the_name_are_found(
    headers: Seq<(Seq<char>, Seq<u8>)>,
    key: Seq<char>,
)
    ensures
        match header_value(headers, key) {
            Some(value) => exists|i: int|
                0 <= i < headers.len() && same_name((#[trigger] headers[i]).0, key) && headers[i].1
                    == value && (forall|j: int|
                    0 <= j < i ==> !same_name((#[trigger] headers[j]).0, key)),
            None => forall|i: int|
                0 <= i < headers.len() ==> !same_name((#[trigger] headers[i]).0, key),
        },
    decreases headers.len(),
{
    if headers.len() > 0 && !same_name(headers[0].0, key) {
        let rest = headers.skip(1);
        law_only_headers_with_the_name_are_found(rest, key);
        match header_value(rest, key) {
            Some(value) => {
                let i = choose|i: int|
                    0 <= i < rest.len() && same_name((#[trigger] rest[i]).0, key) && rest[i].1
                        == value && (forall|j: int|
                        0 <= j < i ==> !same_name((#[trigger] rest[j]).0, key));
                assert(headers[i + 1] == rest[i]);
                assert forall|j: int| 0 <= j < i + 1 implies !same_name(
                    (#[trigger] headers[j]).0,
                    key,
                ) by {
                    if j > 0 {
                        assert(rest[j - 1] == headers[j]);
                    }
                }
            },
            None => {
                assert forall|i: int| 0 <= i < headers.len() implies !same_name(
                    (#[trigger] headers[i]).0,
                    key,
                ) by {
                    if i > 0 {
                        assert(rest[i - 1] == headers[i]);
                    }
                }
            },
        }
    }
}

/// A text of spaces and tabs.
pub open spec fn is_blank(s: Seq<char>) -> bool {
    forall|i: int| 0 <= i < s.len() ==> #[trigger] s[i] == ' ' || s[i] == '\t'
}

/// A text that is empty or has no white space around it.
pub open spec fn is_tight(s: Seq<char>) -> bool {
    s.len() > 0 ==> !is_whitespace(s[0]) && !is_whitespace(s.last())
}

/// Blanks around a text are trimmed, and nothing else.
pub proof fn lemma_trimmed_blanks(a: Seq<char>, text: Seq<char>, b: Seq<char>)
    requires
        is_blank(a),
        is_blank(b),
        is_tight(text),
    ensures
        trimmed(a + text + b) == text,
{
    let s = a + text + b;
    let p = |c: char| is_whitespace(c);
    let not_p = |c: char| !p(c);
    let n = if text.len() > 0 {
        a.len()
    } else {
        s.len()
    };
    assert forall|i: int| 0 <= i < n implies !not_p(#[trigger] s[i]) by {
        if i < a.len() {
            assert(s[i] == a[i]);
        } else {
            assert(s[i] == b[i - a.len()]);
        }
    }
    if text.len() > 0 {
        assert(s[n as int] == text[0]);
    }
    lemma_until_is(s, not_p, n);
    let rest = s.skip(n as int);
    assert(trim_start(s, p) == rest);
    if text.len() > 0 {
        assert(rest =~= text + b);
        assert forall|i: int| text.len() <= i < rest.len() implies p(#[trigger] rest[i]) by {
            assert(rest[i] == b[i - text.len()]);
        }
        assert(rest[text.len() - 1] == text.last());
    }
    lemma_without_end_is(rest, p, text.len());
    assert(rest.take(text.len() as int) =~= text);
}

/// The value of a header is its text without the blanks around it, and a header
/// that is not there or is not text has none.
pub proof fn law_header_values_read_back(
    headers: Seq<(Seq<char>, Seq<u8>)>,
    key: Seq<char>,
    a: Seq<char>,
    text: Seq<char>,
    b: Seq<char>,
)
    requires
        is_blank(a),
        is_blank(b),
        is_tight(text),
    ensures
        header_value(headers, key) == Some(encode_utf8(a + text + b)) ==> header_text(headers, key)
            == Some(text),
        header_value(headers, key) is None ==> header_text(headers, key) is None,
        header_value(headers, key) is Some && !valid_utf8(header_value(headers, key)->0)
            ==> header_text(headers, key) is None,
{
    encode_utf8_valid_utf8(a + text + b);
    encode_utf8_decode_utf8(a + text + b);
    lemma_trimmed_blanks(a, text, b);
}

/// A text that begins with something is a number where its digits are.
proof fn lemma_further_digit(s: Seq<char>, c: char)
    requires
        s.len() > 0,
    ensures
        u64_of(s) matches Some(n) ==> u64_of(s.push(c)) == if '0' <= c <= '9' && n * 10 + (c as int
            - '0' as int) <= u64::MAX {
            Some((n * 10 + (c as int - '0' as int)) as u64)
        } else {
            None
        },
{
    let digits = unsigned_digits(s);
    let more = digits.push(c);
    assert(s.push(c)[0] == s[0]);
    assert(unsigned_digits(s.push(c)) =~= more);
    assert(more.drop_last() =~= digits);
    assert(more.last() == c);
    if u64_of(s) is Some {
        if is_digit(c) {
            assert forall|i: int| 0 <= i < more.len() implies is_digit(#[trigger] more[i]) by {
                if i < digits.len() {
                    assert(more[i] == digits[i]);
                }
            }
        } else {
            assert(!is_digit(more[digits.len() as int]));
        }
    }
}

/// What is no number does not become one with a further character.
proof fn lemma_never_a_number(s: Seq<char>, c: char)
    requires
        s.len() > 0,
        s != seq!['+'],
        u64_of(s) is None,
    ensures
        u64_of(s.push(c)) is None,
{
    let digits = unsigned_digits(s);
    let more = digits.push(c);
    assert(s.push(c)[0] == s[0]);
    assert(unsigned_digits(s.push(c)) =~= more);
    assert(more.drop_last() =~= digits);
    assert(more.last() == c);
    if digits.len() == 0 {
        assert(s =~= seq!['+']);
    }
    if exists|i: int| 0 <= i < digits.len() && !is_digit(#[trigger] digits[i]) {
        let i = choose|i: int| 0 <= i < digits.len() && !is_digit(#[trigger] digits[i]);
        assert(!is_digit(more[i]));
    } else if is_digit(c) {
        assert(decimal_value(more) >= decimal_value(digits) * 10);
    } else {
        assert(!is_digit(more[digits.len() as int]));
    }
}

proof fn lemma_one_digit(c: char)
    ensures
        u64_of(seq![c]) == if '0' <= c <= '9' {
            Some((c as int - '0' as int) as u64)
        } else {
            None
        },
{
    let one = seq![c];
    assert(one.drop_last() =~= Seq::empty());
    assert(decimal_value(Seq::<char>::empty()) == 0);
    if c == '+' {
        assert(one.skip(1) =~= Seq::empty());
    } else if is_digit(c) {
        assert(unsigned_digits(one) == one);
        assert(decimal_value(one) == (c as u32 - '0' as u32) as nat);
    } else {
        assert(!is_digit(one[0]));
    }
}

/// A number in decimal is read digit by digit: a further digit makes ten times as
/// much of it, and itself more; what is no digit makes it no number, and so does
/// what no longer fits. A plus sign may stand in front.
pub proof fn law_numbers_are_read_by_digits(s: Seq<char>, c: char)
    ensures
        u64_of(Seq::empty()) is None,
        u64_of(seq![c]) == if '0' <= c <= '9' {
            Some((c as int - '0' as int) as u64)
        } else {
            None
        },
        u64_of(s) matches Some(n) ==> u64_of(s.push(c)) == if '0' <= c <= '9' && n * 10 + (c as int
            - '0' as int) <= u64::MAX {
            Some((n * 10 + (c as int - '0' as int)) as u64)
        } else {
            None
        },
        u64_of(s) is None && s.len() > 0 && s != seq!['+'] ==> u64_of(s.push(c)) is None,
        s.len() > 0 && s[0] != '+' ==> u64_of(seq!['+'] + s) == u64_of(s),
{
    lemma_one_digit(c);
    if s.len() > 0 {
        lemma_further_digit(s, c);
        if u64_of(s) is None && s != seq!['+'] {
            lemma_never_a_number(s, c);
        }
        if s[0] != '+' {
            assert((seq!['+'] + s).skip(1) =~= s);
        }
    }
}

/// The length of a body is the number that its header gives, blanks around it or
/// not, and is not known without that header.
pub proof fn law_lengths_of_bodies_read_back(
    headers: Seq<(Seq<char>, Seq<u8>)>,
    a: Seq<char>,
    text: Seq<char>,
    b: Seq<char>,
    n: u64,
)
    requires
        is_blank(a),
        is_blank(b),
        is_tight(text),
    ensures
        header_value(headers, "content-length"@) == Some(encode_utf8(a + text + b))
            ==> length_of_body(headers) == u64_of(text),
        header_value(headers, "content-length"@) == Some(encode_utf8(a + decimal_text(n as nat) + b))
            ==> length_of_body(headers) == Some(n),
        header_value(headers, "content-length"@) is None ==> length_of_body(headers) is None,
{
    law_header_values_read_back(headers, "content-length"@, a, text, b);
    lemma_decimal_text(n as nat);
    let digits = decimal_text(n as nat);
    assert(is_digit(digits[0]));
    assert(is_digit(digits[digits.len() - 1]));
    law_header_values_read_back(headers, "content-length"@, a, digits, b);
    law_decimal_reads_back(n);
}

/// A coding that stands alone is `chunked` where it is that letter by letter,
/// blanks around it or not.
pub proof fn law_one_coding_is_compared(a: Seq<char>, coding: Seq<char>, b: Seq<char>)
    requires
        is_blank(a),
        is_blank(b),
        is_tight(coding),
        forall|i: int| 0 <= i < coding.len() ==> #[trigger] coding[i] != ',',
    ensures
        names_chunked(a + coding + b) == same_name(coding, "chunked"@),
{
    let s = a + coding + b;
    assert forall|i: int| 0 <= i < s.len() implies !is_char(',')(#[trigger] s[i]) by {
        if i < a.len() {
            assert(s[i] == a[i]);
        } else if i < a.len() + coding.len() {
            assert(s[i] == coding[i - a.len()]);
        } else {
            assert(s[i] == b[i - a.len() - coding.len()]);
        }
    }
    lemma_until_is(s, is_char(','), s.len());
    let pieces = split_at_char(s, ',');
    assert(pieces == seq![s]);
    lemma_trimmed_blanks(a, coding, b);
    assert(pieces[0] == s);
}

/// A body comes in chunks where its header names that coding, and not without
/// that header.
pub proof fn law_codings_of_bodies_read_back(
    headers: Seq<(Seq<char>, Seq<u8>)>,
    codings: Seq<char>,
)
    requires
        is_tight(codings),
    ensures
        header_value(headers, "transfer-encoding"@) == Some(encode_utf8(codings))
            ==> chunked_body(headers) == names_chunked(codings),
        header_value(headers, "transfer-encoding"@) is None ==> !chunked_body(headers),
{
    let none = Seq::<char>::empty();
    law_header_values_read_back(headers, "transfer-encoding"@, none, codings, none);
    assert(none + codings + none =~= codings);
}

/// A request has the method, the path, the version and the headers of its head,
/// as they are, and keeps all its bytes.
pub proof fn law_requests_are_what_was_sent(buf: Seq<u8>, head: HeadView)
    requires
        head.method is Some,
        head.path is Some,
        head.version is Some,
        forall|i: int| 0 <= i < head.headers.len() ==> (#[trigger] head.headers[i]).0.len() > 0,
    ensures
        request_head(buf, 64) == Ok::<Option<HeadView>, ()>(Some(head)) ==> request_in(buf) == Ok::<
            RequestView,
            RequestError,
        >(
            RequestView {
                method: head.method->0,
                path: head.path->0,
                version: head.version->0,
                headers: head.headers,
                buf,
                body_offset: head.body_offset,
            },
        ),
        request_of(buf, Some(head)) == Ok::<RequestView, RequestError>(
            RequestView {
                method: head.method->0,
                path: head.path->0,
                version: head.version->0,
                headers: head.headers,
                buf,
                body_offset: head.body_offset,
            },
        ),
{
}

/// Bytes that are no complete head of a request, or lack a part of one, are
/// refused.
pub proof fn law_other_bytes_are_no_requests(buf: Seq<u8>, head: HeadView)
    ensures
        request_head(buf, 64) is Err ==> request_in(buf) == Err::<RequestView, RequestError>(
            RequestError::Malformed,
        ),
        request_head(buf, 64) == Ok::<Option<HeadView>, ()>(None) ==> request_in(buf) == Err::<
            RequestView,
            RequestError,
        >(RequestError::Partial),
        request_of(buf, None) == Err::<RequestView, RequestError>(RequestError::Partial),
        head.method is None || head.path is None || head.version is None || (exists|i: int|
            0 <= i < head.headers.len() && (#[trigger] head.headers[i]).0.len() == 0)
            ==> request_of(buf, Some(head)) is Err,
{
}

/// What is told of a request and its head is all of it.
pub proof fn law_requests_are_told_in_full(
    request: OwnedRequest,
    head: ParsedHead,
    headers: Seq<(String, Vec<u8>)>,
    i: int,
    text: String,
)
    ensures
        request@.method == request.method@,
        request@.path == request.path@,
        request@.version == request.version,
        request@.headers == header_views(request.headers@),
        request@.buf == request.buf@,
        request@.body_offset == request.body_offset,
        head.method == Some(text) ==> head@.method == Some(text@),
        head.path == Some(text) ==> head@.path == Some(text@),
        head.method is None ==> head@.method is None,
        head.path is None ==> head@.path is None,
        head@.version == head.version,
        head@.headers == header_views(head.headers@),
        head@.body_offset == head.body_offset,
        header_views(headers).len() == headers.len(),
        0 <= i < headers.len() ==> header_views(headers)[i] == (headers[i].0@, headers[i].1@),
        ContentType::MultiPart(text)@ == ContentTypeView::MultiPart(text@),
        ContentType::Json@ == ContentTypeView::Json,
        request_view(Ok(request)) == Ok::<RequestView, RequestError>(request@),
        head_view(Some(head)) == Some(head@),
{
}

} // verus!
