//! Responses, and how their heads are written.

use vstd::prelude::*;
use vstd::utf8::{encode_utf8, is_ascii_chars_encode_utf8};

use crate::bytes::{append_bytes, crlf, CR, LF};
use crate::request::header_views;
use crate::text::{decimal, decimal_bytes, law_numbers_are_written_by_digits};

verus! {

pub const OK: u16 = 200;

pub const BAD_REQUEST: u16 = 400;

pub const NOT_FOUND: u16 = 404;

pub const METHOD_NOT_ALLOWED: u16 = 405;

/// The head of a response.
#[derive(Debug)]
pub struct Response {
    pub status: u16,
    pub headers: Vec<(String, Vec<u8>)>,
}

/// The usual reason phrase for a status code, where there is one.
pub uninterp spec fn canonical_reason_of(status: u16) -> Option<Seq<char>>;

/// The reason phrases of the status codes that are answered here.
pub open spec fn answered_reason(status: u16) -> Option<Seq<char>> {
    if status == OK {
        Some("OK"@)
    } else if status == BAD_REQUEST {
        Some("Bad Request"@)
    } else if status == NOT_FOUND {
        Some("Not Found"@)
    } else if status == METHOD_NOT_ALLOWED {
        Some("Method Not Allowed"@)
    } else {
        None
    }
}

/// `http::StatusCode::canonical_reason`, of the status code that
/// `http::StatusCode::from_u16` makes of a number: the reason phrase, if the
/// number is a status code that has one. Of four codes it is stated which one.
#[verifier::external_body]
fn canonical_reason(status: u16) -> (reason: Option<&'static str>)
    ensures
        match reason {
            Some(phrase) => canonical_reason_of(status) == Some(phrase@),
            None => canonical_reason_of(status) is None,
        },
        answered_reason(status) is Some ==> reason is Some && reason->0@ == answered_reason(
            status,
        )->0,
{
    http::StatusCode::from_u16(status).ok().and_then(|code| code.canonical_reason())
}

/// The reason phrase that stands in a status line.
pub open spec fn reason_phrase(status: u16) -> Seq<char> {
    match answered_reason(status) {
        Some(phrase) => phrase,
        None => match canonical_reason_of(status) {
            Some(phrase) => phrase,
            None => Seq::empty(),
        },
    }
}

/// The header lines of a head.
pub open spec fn header_lines(headers: Seq<(Seq<char>, Seq<u8>)>) -> Seq<u8>
    decreases headers.len(),
{
    if headers.len() == 0 {
        Seq::empty()
    } else {
        header_lines(headers.drop_last()) + encode_utf8(headers.last().0) + encode_utf8(": "@)
            + headers.last().1 + crlf()
    }
}

/// The head of a response.
pub open spec fn head_bytes(
    status: u16,
    reason: Seq<char>,
    headers: Seq<(Seq<char>, Seq<u8>)>,
) -> Seq<u8> {
    encode_utf8("HTTP/1.1 "@) + decimal(status as nat) + encode_utf8(" "@) + encode_utf8(reason)
        + crlf() + header_lines(headers) + crlf()
}

/// Writes the head of a response with a given reason phrase.
pub fn encode_head(
    status: u16,
    reason: &str,
    headers: &Vec<(String, Vec<u8>)>,
    out: &mut Vec<u8>,
)
    ensures
        final(out)@ == old(out)@ + head_bytes(status, reason@, header_views(headers@)),
{
    let ghost before = out@;
    let line_end: [u8; 2] = [CR, LF];
    assert(line_end@ =~= crlf());
    append_bytes(out, "HTTP/1.1 ".as_bytes());
    append_bytes(out, decimal_bytes(status as u64).as_slice());
    append_bytes(out, " ".as_bytes());
    append_bytes(out, reason.as_bytes());
    append_bytes(out, &line_end);
    let ghost views = header_views(headers@);
    let ghost start = out@;
    let mut i: usize = 0;
    assert(views.take(0) =~= Seq::empty());
    assert(start + header_lines(views.take(0)) =~= start);
    while i < headers.len()
        invariant
            i <= headers@.len(),
            views == header_views(headers@),
            line_end@ == crlf(),
            out@ == start + header_lines(views.take(i as int)),
        decreases headers@.len() - i,
    {
        let ghost so_far = out@;
        append_bytes(out, headers[i].0.as_str().as_bytes());
        append_bytes(out, ": ".as_bytes());
        append_bytes(out, headers[i].1.as_slice());
        append_bytes(out, &line_end);
        proof {
            assert(views.take(i + 1).drop_last() =~= views.take(i as int));
            assert(views.take(i + 1).last() == (headers@[i as int].0@, headers@[i as int].1@));
            assert(out@ =~= start + header_lines(views.take(i + 1)));
        }
        i += 1;
    }
    assert(views.take(i as int) =~= views);
    append_bytes(out, &line_end);
    assert(out@ =~= before + head_bytes(status, reason@, views));
}

/// Writes the head of a response.
pub fn encode_http1_response_head(resp: &Response, out: &mut Vec<u8>)
    ensures
        final(out)@ == old(out)@ + head_bytes(
            resp.status,
            reason_phrase(resp.status),
            header_views(resp.headers@),
        ),
{
    match canonical_reason(resp.status) {
        Some(reason) => encode_head(resp.status, reason, &resp.headers, out),
        None => {
            let none = "";
            proof {
                reveal_strlit("");
                assert(none@ =~= Seq::empty());
            }
            encode_head(resp.status, none, &resp.headers, out)
        },
    }
}

/// The head of a response is its status line, with the three digits of the status
/// and its reason, and a blank line.
pub proof fn law_heads_begin_with_the_status(status: u16, reason: Seq<char>)
    requires
        100 <= status <= 999,
    ensures
        head_bytes(status, reason, Seq::empty()) == encode_utf8(
            seq!['H', 'T', 'T', 'P', '/', '1', '.', '1', ' '],
        ) + seq![
            (48 + status / 100) as u8,
            (48 + status / 10 % 10) as u8,
            (48 + status % 10) as u8,
            32u8,
        ] + encode_utf8(reason) + seq![13u8, 10u8, 13u8, 10u8],
{
    reveal_strlit("HTTP/1.1 ");
    reveal_strlit(" ");
    assert("HTTP/1.1 "@ =~= seq!['H', 'T', 'T', 'P', '/', '1', '.', '1', ' ']);
    is_ascii_chars_encode_utf8(" "@);
    assert(encode_utf8(" "@) =~= seq![32u8]) by {
        assert(" "@[0] as u8 == 32);
    }
    let n = status as nat;
    law_numbers_are_written_by_digits(0, n / 100);
    law_numbers_are_written_by_digits(n / 100, n / 10 % 10);
    law_numbers_are_written_by_digits(n / 10, n % 10);
    assert(n / 100 * 10 + n / 10 % 10 == n / 10);
    assert(n / 10 * 10 + n % 10 == n);
    assert(decimal(n) =~= seq![
        (48 + status / 100) as u8,
        (48 + status / 10 % 10) as u8,
        (48 + status % 10) as u8,
    ]);
    assert(head_bytes(status, reason, Seq::empty()) =~= encode_utf8("HTTP/1.1 "@) + seq![
        (48 + status / 100) as u8,
        (48 + status / 10 % 10) as u8,
        (48 + status % 10) as u8,
        32u8,
    ] + encode_utf8(reason) + seq![13u8, 10u8, 13u8, 10u8]);
}

/// A further header is a further line in front of the blank line: its name, a
/// colon and a space, and its value.
pub proof fn law_headers_are_lines(
    status: u16,
    reason: Seq<char>,
    headers: Seq<(Seq<char>, Seq<u8>)>,
    header: (Seq<char>, Seq<u8>),
)
    ensures
        ({
            let before = head_bytes(status, reason, headers);
            &&& before.len() >= 2
            &&& head_bytes(status, reason, headers.push(header)) == before.take(before.len() - 2)
                + encode_utf8(header.0) + seq![58u8, 32u8] + header.1 + seq![
                13u8,
                10u8,
                13u8,
                10u8,
            ]
        }),
{
    reveal_strlit(": ");
    is_ascii_chars_encode_utf8(": "@);
    assert(encode_utf8(": "@) =~= seq![58u8, 32u8]) by {
        assert(": "@[0] as u8 == 58);
        assert(": "@[1] as u8 == 32);
    }
    let all = headers.push(header);
    assert(all.drop_last() =~= headers);
    let before = head_bytes(status, reason, headers);
    let front = encode_utf8("HTTP/1.1 "@) + decimal(status as nat) + encode_utf8(" "@)
        + encode_utf8(reason) + crlf() + header_lines(headers);
    assert(before =~= front + crlf());
    assert(before.take(before.len() - 2) =~= front);
    assert(head_bytes(status, reason, all) =~= front + encode_utf8(header.0) + seq![58u8, 32u8]
        + header.1 + seq![13u8, 10u8, 13u8, 10u8]);
}

/// The reason for a status is the usual one, where there is one, and is empty where
/// there is none.
pub proof fn law_reasons_are_the_usual_ones(status: u16)
    ensures
        status == 200 ==> reason_phrase(status) == seq!['O', 'K'],
        status == 400 ==> reason_phrase(status) == "Bad Request"@,
        status == 404 ==> reason_phrase(status) == "Not Found"@,
        status == 405 ==> reason_phrase(status) == "Method Not Allowed"@,
        status != 200 && status != 400 && status != 404 && status != 405 ==> reason_phrase(status)
            == match canonical_reason_of(status) {
            Some(phrase) => phrase,
            None => Seq::empty(),
        },
{
    reveal_strlit("OK");
    assert("OK"@ =~= seq!['O', 'K']);
}

} // verus!
