//! What holds of the headers of parts.

use vstd::prelude::*;
use vstd::utf8::{encode_utf8, encode_utf8_decode_utf8, encode_utf8_valid_utf8, is_ascii_chars, valid_utf8};

use crate::content_laws::{lemma_lower_already, lemma_one_piece, lemma_trimmed_already};
use crate::parser::part_views;
use crate::parts::{disposition_param, first_value, header_line, no_headers, part_headers, type_contains, with_header, with_lines, DispositionView, MultipartPart, PartContent, PartContentView, PartDisposition, PartHeadersView};
use crate::request_laws::{is_blank, lemma_trimmed_blanks};
use crate::seqs::{lemma_until, lemma_until_is, lemma_without_end, lemma_without_end_is, trim_start, until};
use crate::text::{ascii_lowercase, is_char, is_whitespace, lemma_line_len_is, lemma_lowercase_front, lemma_split_join, line_len, lines, lower_char, lowercase, split_at_char, trimmed, unquoted};

verus! {

/// The end of a line.
pub open spec fn line_end() -> Seq<char> {
    seq!['\r', '\n']
}

/// A word of ASCII: it is not empty, and holds no white space and none of the
/// marks that separate words.
pub open spec fn is_word(s: Seq<char>) -> bool {
    &&& s.len() > 0
    &&& is_ascii_chars(s)
    &&& forall|i: int| 0 <= i < s.len() ==> {
        &&& #[trigger] s[i] != ':'
        &&& s[i] != ';'
        &&& s[i] != '='
        &&& s[i] != '"'
        &&& !is_whitespace(s[i])
    }
}

/// A text that can stand in double quotes: it holds no double quote, no semicolon
/// and no line end.
pub open spec fn can_be_quoted(s: Seq<char>) -> bool {
    forall|i: int| 0 <= i < s.len() ==> #[trigger] s[i] != '"' && s[i] != ';' && s[i] != '\r'
}

/// A text in double quotes.
pub open spec fn in_quotes(s: Seq<char>) -> Seq<char> {
    seq!['"'] + s + seq!['"']
}

/// A text of one line that has no white space around it, and is not empty.
pub open spec fn is_line(s: Seq<char>) -> bool {
    &&& s.len() > 0
    &&& !is_whitespace(s[0])
    &&& !is_whitespace(s.last())
    &&& forall|i: int| 0 <= i < s.len() ==> #[trigger] s[i] != '\r'
}

/// A header as it is sent.
pub open spec fn sent_header(key: Seq<char>, value: Seq<char>) -> Seq<char> {
    key + seq![':', ' '] + value
}

/// A parameter as it is sent.
pub open spec fn sent_parameter(key: Seq<char>, value: Seq<char>) -> Seq<char> {
    key + seq!['='] + value
}

/// Values that are separated by semicolons.
pub open spec fn separated(a: Seq<char>, b: Seq<char>) -> Seq<char> {
    a + seq![';', ' '] + b
}

/// A text with no line end in it is one line.
proof fn lemma_one_line(s: Seq<char>)
    requires
        forall|i: int| 0 <= i < s.len() ==> #[trigger] s[i] != '\r',
    ensures
        lines(s) == seq![s],
{
    lemma_line_len_is(s, s.len());
}

/// The lines of two texts that are joined by a line end are those of both.
pub proof fn lemma_lines_join(a: Seq<char>, b: Seq<char>)
    ensures
        lines(a + line_end() + b) == lines(a) + lines(b),
    decreases a.len(),
{
    let s = a + line_end() + b;
    let n = line_len(a);
    lemma_line_len(a);
    assert forall|i: int| 0 <= i < n && i + 1 < s.len() implies !(#[trigger] s[i] == '\r' && s[i
        + 1] == '\n') by {
        assert(s[i] == a[i]);
        if i + 1 < a.len() {
            assert(s[i + 1] == a[i + 1]);
        }
    }
    if n < a.len() {
        assert(s[n as int] == a[n as int]);
        assert(s[n as int + 1] == a[n as int + 1]);
    }
    lemma_line_len_is(s, n);
    if n >= a.len() {
        assert(s.take(n as int) =~= a);
        assert(s.skip(n as int + 2) =~= b);
    } else {
        let rest = a.skip(n as int + 2);
        lemma_lines_join(rest, b);
        assert(s.take(n as int) =~= a.take(n as int));
        assert(s.skip(n as int + 2) =~= rest + line_end() + b);
        assert(seq![a.take(n as int)] + (lines(rest) + lines(b)) =~= (seq![a.take(n as int)]
            + lines(rest)) + lines(b));
    }
}

/// What `line_len` counts.
proof fn lemma_line_len(s: Seq<char>)
    ensures
        line_len(s) <= s.len(),
        forall|i: int|
            0 <= i < line_len(s) && i + 1 < s.len() ==> !(#[trigger] s[i] == '\r' && s[i + 1] == '\n'),
        line_len(s) < s.len() ==> line_len(s) + 2 <= s.len() && s[line_len(s) as int] == '\r'
            && s[line_len(s) as int + 1] == '\n',
    decreases s.len(),
{
    if s.len() >= 2 && !(s[0] == '\r' && s[1] == '\n') {
        let rest = s.skip(1);
        lemma_line_len(rest);
        assert forall|i: int| 0 <= i < line_len(s) && i + 1 < s.len() implies !(#[trigger] s[i]
            == '\r' && s[i + 1] == '\n') by {
            if i > 0 {
                assert(rest[i - 1] == s[i]);
                assert(rest[i] == s[i + 1]);
            }
        }
    }
}

/// What lines add up to does not depend on where they are cut in two.
proof fn lemma_with_lines_join(headers: PartHeadersView, a: Seq<Seq<char>>, b: Seq<Seq<char>>)
    ensures
        with_lines(headers, a + b) == with_lines(with_lines(headers, a), b),
    decreases a.len(),
{
    if a.len() == 0 {
        assert(a + b =~= b);
    } else {
        let next = match header_line(a[0]) {
            Some((key, value)) => with_header(headers, key, value),
            None => headers,
        };
        assert((a + b)[0] == a[0]);
        assert((a + b).skip(1) =~= a.skip(1) + b);
        lemma_with_lines_join(next, a.skip(1), b);
    }
}

/// The headers of a block to which a line is added.
proof fn lemma_line_added(block: Seq<char>, line: Seq<char>)
    requires
        forall|i: int| 0 <= i < line.len() ==> #[trigger] line[i] != '\r',
    ensures
        part_headers(encode_utf8(block)) is Some,
        part_headers(encode_utf8(block + line_end() + line)) == Some(
            with_lines(part_headers(encode_utf8(block))->0, seq![line]),
        ),
        part_headers(encode_utf8(line)) == Some(with_lines(no_headers(), seq![line])),
{
    reveal(part_headers);
    let whole = block + line_end() + line;
    encode_utf8_valid_utf8(block);
    encode_utf8_decode_utf8(block);
    encode_utf8_valid_utf8(whole);
    encode_utf8_decode_utf8(whole);
    encode_utf8_valid_utf8(line);
    encode_utf8_decode_utf8(line);
    lemma_lines_join(block, line);
    lemma_one_line(line);
    lemma_with_lines_join(no_headers(), lines(block), seq![line]);
}

/// What one line adds.
proof fn lemma_one_header(headers: PartHeadersView, line: Seq<char>)
    ensures
        with_lines(headers, seq![line]) == match header_line(line) {
            Some((key, value)) => with_header(headers, key, value),
            None => headers,
        },
{
    assert(seq![line].skip(1) =~= Seq::empty());
    reveal_with_fuel(with_lines, 2);
}

/// A header line is read as its name, in lower case, and its value.
proof fn lemma_header_line(key: Seq<char>, value: Seq<char>)
    requires
        is_word(key),
        is_line(value),
    ensures
        header_line(sent_header(key, value)) == Some((ascii_lowercase(key), value)),
        forall|i: int|
            0 <= i < sent_header(key, value).len() ==> #[trigger] sent_header(key, value)[i] != '\r',
{
    let line = sent_header(key, value);
    let n = key.len() as int;
    assert(line[0] == key[0]);
    assert(line.last() == value.last());
    lemma_trimmed_already(line);
    assert forall|i: int| 0 <= i < n implies !is_char(':')(#[trigger] line[i]) by {
        assert(line[i] == key[i]);
    }
    lemma_until_is(line, is_char(':'), n as nat);
    assert(line.take(n) =~= key);
    lemma_trimmed_already(key);
    let rest = line.skip(n + 1);
    let p = |c: char| is_whitespace(c);
    let not_p = |c: char| !p(c);
    assert(rest =~= seq![' '] + value);
    assert(rest[1] == value[0]);
    lemma_until_is(rest, not_p, 1);
    assert(trim_start(rest, p) =~= value);
    lemma_without_end_is(value, p, value.len());
    assert(value.take(value.len() as int) =~= value);
    assert forall|i: int| 0 <= i < line.len() implies #[trigger] line[i] != '\r' by {
        if i < n {
            assert(line[i] == key[i]);
            assert(!is_whitespace(key[i]));
        } else if i >= n + 2 {
            assert(line[i] == value[i - n - 2]);
        }
    }
}

/// The content type of a part is read as it was sent, whatever the case of the
/// header's name, and changes nothing else.
pub proof fn law_content_types_of_parts_read_back(
    block: Seq<char>,
    key: Seq<char>,
    content_type: Seq<char>,
)
    requires
        is_word(key),
        ascii_lowercase(key) == "content-type"@,
        is_line(content_type),
    ensures
        part_headers(encode_utf8(block)) matches Some(before) && part_headers(
            encode_utf8(block + line_end() + sent_header(key, content_type)),
        ) == Some(PartHeadersView { content_type: Some(content_type), ..before }),
        part_headers(encode_utf8(sent_header(key, content_type))) == Some(
            PartHeadersView { content_type: Some(content_type), name: None, filename: None },
        ),
{
    let line = sent_header(key, content_type);
    lemma_header_line(key, content_type);
    lemma_line_added(block, line);
    lemma_one_header(part_headers(encode_utf8(block))->0, line);
    lemma_one_header(no_headers(), line);
}

/// All other headers of a part are ignored.
pub proof fn law_other_headers_of_parts_are_ignored(
    block: Seq<char>,
    key: Seq<char>,
    value: Seq<char>,
)
    requires
        is_word(key),
        ascii_lowercase(key) != "content-type"@,
        ascii_lowercase(key) != "content-disposition"@,
        is_line(value),
    ensures
        part_headers(encode_utf8(block + line_end() + sent_header(key, value))) == part_headers(
            encode_utf8(block),
        ),
        part_headers(encode_utf8(sent_header(key, value))) == Some(
            PartHeadersView { content_type: None, name: None, filename: None },
        ),
{
    let line = sent_header(key, value);
    lemma_header_line(key, value);
    lemma_line_added(block, line);
    lemma_one_header(part_headers(encode_utf8(block))->0, line);
    lemma_one_header(no_headers(), line);
}

/// A segment that is a parameter gives its value.
pub proof fn lemma_parameter_found(
    key: Seq<char>,
    value: Seq<char>,
    wanted: Seq<char>,
    pad: Seq<char>,
    rest: Seq<Seq<char>>,
)
    requires
        is_word(key),
        ascii_lowercase(key) == wanted,
        value.len() > 0,
        !is_whitespace(value[0]),
        !is_whitespace(value.last()),
        is_blank(pad),
    ensures
        first_value(seq![pad + sent_parameter(key, value)] + rest, wanted.push('=')) == Some(
            unquoted(value),
        ),
        trimmed(pad + sent_parameter(key, value)) == sent_parameter(key, value),
{
    let segment = sent_parameter(key, value);
    let n = key.len() as int;
    lemma_padded(pad, segment);
    let front = segment.take(n + 1);
    assert(front =~= key.push('='));
    assert(is_ascii_chars(front)) by {
        assert forall|i: int| 0 <= i < front.len() implies '\0' <= #[trigger] front[i] <= '\u{7f}' by {
            if i < n {
                assert(front[i] == key[i]);
            }
        }
    }
    lemma_lowercase_front(segment, n + 1);
    assert(ascii_lowercase(front) =~= wanted.push('='));
    assert(wanted.push('=').is_prefix_of(lowercase(segment)));
    assert(segment.skip(n + 1) =~= value);
    lemma_trimmed_already(value);
    let all = seq![pad + segment] + rest;
    assert(all[0] == pad + segment);
}

/// A segment that begins like no parameter with a name gives none.
pub proof fn lemma_parameter_skipped(
    segment: Seq<char>,
    prefix: Seq<char>,
    pad: Seq<char>,
    rest: Seq<Seq<char>>,
)
    requires
        segment.len() > 0,
        !is_whitespace(segment[0]),
        !is_whitespace(segment.last()),
        is_blank(pad),
        segment.len() >= prefix.len() ==> exists|k: int|
            0 <= k < prefix.len() && is_ascii_chars(segment.take(k + 1)) && lower_char(segment[k])
                != #[trigger] prefix[k],
    ensures
        first_value(seq![pad + segment] + rest, prefix) == first_value(rest, prefix),
{
    lemma_padded(pad, segment);
    let all = seq![pad + segment] + rest;
    assert(all[0] == pad + segment);
    assert(all.skip(1) =~= rest);
    if segment.len() >= prefix.len() {
        let k = choose|k: int|
            0 <= k < prefix.len() && is_ascii_chars(segment.take(k + 1)) && lower_char(segment[k])
                != #[trigger] prefix[k];
        lemma_lowercase_front(segment, k + 1);
        let lower = lowercase(segment);
        assert(lower.take(k + 1)[k] == lower_char(segment[k]));
        if prefix.is_prefix_of(lower) {
            assert(lower[k] == prefix[k]);
        }
    }
}

/// Blanks in front of a text that has no white space around it are trimmed.
pub proof fn lemma_padded(pad: Seq<char>, s: Seq<char>)
    requires
        s.len() > 0,
        !is_whitespace(s[0]),
        !is_whitespace(s.last()),
        is_blank(pad),
    ensures
        trimmed(pad + s) == s,
{
    let none = Seq::<char>::empty();
    assert(pad + s + none =~= pad + s);
    lemma_trimmed_blanks(pad, s, none);
}

/// The segments of two values that are separated by a semicolon.
pub proof fn lemma_separated(a: Seq<char>, b: Seq<char>)
    requires
        forall|i: int| 0 <= i < a.len() ==> #[trigger] a[i] != ';',
    ensures
        split_at_char(separated(a, b), ';') == seq![a] + split_at_char(seq![' '] + b, ';'),
{
    assert(separated(a, b) =~= a + seq![';'] + (seq![' '] + b));
    lemma_split_join(a, ';', seq![' '] + b);
    lemma_one_piece(a, ';');
}

/// A text without semicolons behind a space is one segment.
pub proof fn lemma_last_segment(b: Seq<char>)
    requires
        forall|i: int| 0 <= i < b.len() ==> #[trigger] b[i] != ';',
    ensures
        split_at_char(seq![' '] + b, ';') == seq![seq![' '] + b],
{
    let s = seq![' '] + b;
    assert forall|i: int| 0 <= i < s.len() implies #[trigger] s[i] != ';' by {
        if i > 0 {
            assert(s[i] == b[i - 1]);
        }
    }
    lemma_one_piece(s, ';');
}

pub proof fn lemma_quoted(value: Seq<char>)
    requires
        can_be_quoted(value),
    ensures
        unquoted(in_quotes(value)) == value,
        in_quotes(value)[0] == '"',
        in_quotes(value).last() == '"',
        forall|i: int|
            0 <= i < in_quotes(value).len() ==> #[trigger] in_quotes(value)[i] != ';' && in_quotes(
                value,
            )[i] != '\r',
{
    let q = in_quotes(value);
    assert(q.subrange(1, q.len() - 1) =~= value);
    assert forall|i: int| 0 <= i < q.len() implies #[trigger] q[i] != ';' && q[i] != '\r' by {
        if 0 < i < q.len() - 1 {
            assert(q[i] == value[i - 1]);
        }
    }
}

/// How a part says what it is for: the kind of the disposition, and its name and
/// filename in double quotes.
pub open spec fn sent_disposition(
    kind: Seq<char>,
    name_key: Seq<char>,
    name: Seq<char>,
    file_key: Seq<char>,
    filename: Seq<char>,
) -> Seq<char> {
    separated(
        kind,
        separated(
            sent_parameter(name_key, in_quotes(name)),
            sent_parameter(file_key, in_quotes(filename)),
        ),
    )
}

/// A parameter as it is sent holds neither semicolons nor line ends.
pub proof fn lemma_parameter_plain(key: Seq<char>, value: Seq<char>)
    requires
        is_word(key),
        can_be_quoted(value),
    ensures
        ({
            let p = sent_parameter(key, in_quotes(value));
            &&& p.len() > key.len() + 2
            &&& p[0] == key[0]
            &&& p.last() == '"'
            &&& forall|i: int| 0 <= i < p.len() ==> #[trigger] p[i] != ';' && p[i] != '\r'
        }),
{
    lemma_quoted(value);
    let p = sent_parameter(key, in_quotes(value));
    assert forall|i: int| 0 <= i < p.len() implies #[trigger] p[i] != ';' && p[i] != '\r' by {
        if i < key.len() {
            assert(p[i] == key[i]);
            assert(!is_whitespace(key[i]));
        } else if i > key.len() {
            assert(p[i] == in_quotes(value)[i - key.len() - 1]);
        }
    }
}

/// The parameters of a disposition.
proof fn lemma_disposition_params(
    kind: Seq<char>,
    name_key: Seq<char>,
    name: Seq<char>,
    file_key: Seq<char>,
    filename: Seq<char>,
)
    requires
        is_word(kind),
        is_word(name_key),
        ascii_lowercase(name_key) == "name"@,
        can_be_quoted(name),
        is_word(file_key),
        ascii_lowercase(file_key) == "filename"@,
        can_be_quoted(filename),
    ensures
        ({
            let value = sent_disposition(kind, name_key, name, file_key, filename);
            &&& disposition_param(value, "name"@) == Some(name)
            &&& disposition_param(value, "filename"@) == Some(filename)
            &&& is_line(value)
        }),
{
    reveal_strlit("name");
    reveal_strlit("filename");
    let value = sent_disposition(kind, name_key, name, file_key, filename);
    let a = sent_parameter(name_key, in_quotes(name));
    let b = sent_parameter(file_key, in_quotes(filename));
    let pad = seq![' '];
    lemma_parameter_plain(name_key, name);
    lemma_parameter_plain(file_key, filename);
    lemma_quoted(name);
    lemma_quoted(filename);
    let tail = separated(a, b);
    lemma_separated(kind, tail);
    assert(seq![' '] + tail =~= separated(pad + a, b));
    let padded = pad + a;
    assert forall|i: int| 0 <= i < padded.len() implies #[trigger] padded[i] != ';' by {
        if i > 0 {
            assert(padded[i] == a[i - 1]);
        }
    }
    lemma_separated(padded, b);
    lemma_last_segment(b);
    let segments = split_at_char(value, ';');
    let none = Seq::<char>::empty();
    assert(segments =~= seq![none + kind] + (seq![pad + a] + (seq![pad + b] + Seq::empty())));
    let n = "name"@.push('=');
    let f = "filename"@.push('=');
    lemma_lower_already("name"@);
    lemma_lower_already("filename"@);
    lemma_kind_skipped(kind, n, seq![pad + a] + (seq![pad + b] + Seq::empty()), 4);
    lemma_kind_skipped(kind, f, seq![pad + a] + (seq![pad + b] + Seq::empty()), 8);
    lemma_parameter_found(name_key, in_quotes(name), "name"@, pad, seq![pad + b] + Seq::empty());
    // The parameter for the name is not the one for the filename.
    assert(a.take(1) =~= seq![name_key[0]]);
    assert(is_ascii_chars(a.take(1))) by {
        assert(a.take(1)[0] == name_key[0]);
    }
    assert(lower_char(a[0]) == ascii_lowercase(name_key)[0]);
    assert(f[0] == 'f');
    assert(lower_char(a[0]) != f[0]);
    assert(!is_whitespace(a[0]));
    lemma_parameter_skipped(a, f, pad, seq![pad + b] + Seq::empty());
    lemma_parameter_found(file_key, in_quotes(filename), "filename"@, pad, Seq::empty());
    assert(value[0] == kind[0]);
    assert(value.last() == b.last());
    assert forall|i: int| 0 <= i < value.len() implies #[trigger] value[i] != '\r' by {
        let k = kind.len();
        if i < k {
            assert(value[i] == kind[i]);
            assert(!is_whitespace(kind[i]));
        } else if k + 2 <= i < k + 2 + a.len() {
            assert(value[i] == a[i - k - 2]);
        } else if i >= k + 4 + a.len() {
            assert(value[i] == b[i - k - 4 - a.len()]);
        }
    }
}

/// The kind of a disposition, which holds no equals sign, is no parameter.
pub proof fn lemma_kind_skipped(kind: Seq<char>, prefix: Seq<char>, rest: Seq<Seq<char>>, at: int)
    requires
        is_word(kind),
        0 <= at,
        prefix.len() == at + 1,
        prefix[at] == '=',
    ensures
        first_value(seq![Seq::<char>::empty() + kind] + rest, prefix) == first_value(rest, prefix),
{
    if kind.len() >= prefix.len() {
        let front = kind.take(at + 1);
        assert(is_ascii_chars(front)) by {
            assert forall|i: int| 0 <= i < front.len() implies '\0' <= #[trigger] front[i]
                <= '\u{7f}' by {
                assert(front[i] == kind[i]);
            }
        }
        assert(lower_char(kind[at]) != prefix[at]);
    }
    assert(!is_whitespace(kind[0]));
    assert(!is_whitespace(kind[kind.len() - 1]));
    lemma_parameter_skipped(kind, prefix, Seq::empty(), rest);
}

/// The name and the filename of a part are read character by character as they
/// were sent, whatever the case of the keys they are sent under, and change
/// nothing else.
pub proof fn law_names_of_parts_read_back(
    block: Seq<char>,
    key: Seq<char>,
    kind: Seq<char>,
    name_key: Seq<char>,
    name: Seq<char>,
    file_key: Seq<char>,
    filename: Seq<char>,
)
    requires
        is_word(key),
        ascii_lowercase(key) == "content-disposition"@,
        is_word(kind),
        is_word(name_key),
        ascii_lowercase(name_key) == "name"@,
        can_be_quoted(name),
        is_word(file_key),
        ascii_lowercase(file_key) == "filename"@,
        can_be_quoted(filename),
    ensures
        ({
            let line = sent_header(
                key,
                sent_disposition(kind, name_key, name, file_key, filename),
            );
            &&& part_headers(encode_utf8(line)) == Some(
                PartHeadersView { name: Some(name), filename: Some(filename), content_type: None },
            )
            &&& part_headers(encode_utf8(block)) matches Some(before) && part_headers(
                encode_utf8(block + line_end() + line),
            ) == Some(PartHeadersView { name: Some(name), filename: Some(filename), ..before })
        }),
{
    let value = sent_disposition(kind, name_key, name, file_key, filename);
    let line = sent_header(key, value);
    reveal_strlit("content-disposition");
    reveal_strlit("content-type");
    assert("content-disposition"@.len() != "content-type"@.len());
    lemma_disposition_params(kind, name_key, name, file_key, filename);
    lemma_header_line(key, value);
    lemma_line_added(block, line);
    lemma_one_header(part_headers(encode_utf8(block))->0, line);
    lemma_one_header(no_headers(), line);
}

/// The name of a part that is no file is read as it was sent, in double quotes or
/// as a word.
pub proof fn law_names_without_files_read_back(
    block: Seq<char>,
    key: Seq<char>,
    kind: Seq<char>,
    name_key: Seq<char>,
    name: Seq<char>,
    quoted: bool,
)
    requires
        is_word(key),
        ascii_lowercase(key) == "content-disposition"@,
        is_word(kind),
        is_word(name_key),
        ascii_lowercase(name_key) == "name"@,
        if quoted {
            can_be_quoted(name)
        } else {
            is_word(name)
        },
    ensures
        ({
            let sent = if quoted {
                in_quotes(name)
            } else {
                name
            };
            let line = sent_header(key, separated(kind, sent_parameter(name_key, sent)));
            &&& part_headers(encode_utf8(line)) == Some(
                PartHeadersView { name: Some(name), filename: None, content_type: None },
            )
            &&& part_headers(encode_utf8(block)) matches Some(before) && part_headers(
                encode_utf8(block + line_end() + line),
            ) == Some(PartHeadersView { name: Some(name), ..before })
        }),
{
    reveal_strlit("name");
    reveal_strlit("filename");
    reveal_strlit("content-disposition");
    reveal_strlit("content-type");
    assert("content-disposition"@.len() != "content-type"@.len());
    let sent = if quoted {
        in_quotes(name)
    } else {
        name
    };
    if quoted {
        lemma_quoted(name);
    } else {
        assert(!is_whitespace(name[0]));
        assert(!is_whitespace(name[name.len() - 1]));
        assert(name[0] != '"');
    }
    let a = sent_parameter(name_key, sent);
    let value = separated(kind, a);
    let line = sent_header(key, value);
    let pad = seq![' '];
    assert forall|i: int| 0 <= i < a.len() implies #[trigger] a[i] != ';' && a[i] != '\r' by {
        if i < name_key.len() {
            assert(a[i] == name_key[i]);
            assert(!is_whitespace(name_key[i]));
        } else if i > name_key.len() {
            assert(a[i] == sent[i - name_key.len() - 1]);
            if !quoted {
                assert(!is_whitespace(name[i - name_key.len() - 1]));
            }
        }
    }
    lemma_separated(kind, a);
    lemma_last_segment(a);
    let none = Seq::<char>::empty();
    assert(split_at_char(value, ';') =~= seq![none + kind] + (seq![pad + a] + Seq::empty()));
    let n = "name"@.push('=');
    let f = "filename"@.push('=');
    lemma_lower_already("name"@);
    lemma_lower_already("filename"@);
    lemma_kind_skipped(kind, n, seq![pad + a] + Seq::empty(), 4);
    lemma_kind_skipped(kind, f, seq![pad + a] + Seq::empty(), 8);
    lemma_parameter_found(name_key, sent, "name"@, pad, Seq::empty());
    assert(is_ascii_chars(a.take(1))) by {
        assert(a.take(1)[0] == name_key[0]);
    }
    assert(a[0] == name_key[0]);
    assert(lower_char(a[0]) == ascii_lowercase(name_key)[0]);
    assert(f[0] == 'f');
    assert(!is_whitespace(a[0]));
    assert(a.last() == sent.last());
    lemma_parameter_skipped(a, f, pad, Seq::empty());
    assert(value[0] == kind[0]);
    assert(value.last() == a.last());
    assert forall|i: int| 0 <= i < value.len() implies #[trigger] value[i] != '\r' by {
        if i < kind.len() {
            assert(value[i] == kind[i]);
            assert(!is_whitespace(kind[i]));
        } else if i >= kind.len() + 2 {
            assert(value[i] == a[i - kind.len() - 2]);
        }
    }
    lemma_header_line(key, value);
    lemma_line_added(block, line);
    lemma_one_header(part_headers(encode_utf8(block))->0, line);
    lemma_one_header(no_headers(), line);
}

/// `needle`, which is in lower case, stands in `text` at `at`, whatever the case
/// of the letters there.
pub open spec fn stands_at(text: Seq<char>, needle: Seq<char>, at: int) -> bool {
    &&& 0 <= at
    &&& at + needle.len() <= text.len()
    &&& forall|i: int|
        0 <= i < needle.len() ==> (text[at + i] == #[trigger] needle[i] || ('A' <= text[at + i]
            <= 'Z' && needle[i] as int == text[at + i] as int + 32))
}

/// The type of a part is found where it stands, whatever the case of its letters
/// and whatever is around it.
pub proof fn law_types_of_parts_ignore_case(headers: PartHeadersView, needle: Seq<char>, at: int)
    requires
        headers.content_type matches Some(text) && stands_at(text, needle, at) && is_ascii_chars(
            text.take(at + needle.len()),
        ),
        forall|i: int| 0 <= i < needle.len() ==> !('A' <= #[trigger] needle[i] <= 'Z'),
    ensures
        type_contains(headers, needle),
{
    let text = headers.content_type->0;
    let n = at + needle.len();
    lemma_lowercase_front(text, n);
    let lower = lowercase(text);
    assert forall|i: int| 0 <= i < needle.len() implies lower[at + i] == #[trigger] needle[i] by {
        assert(lower.take(n)[at + i] == lower[at + i]);
        assert(ascii_lowercase(text.take(n))[at + i] == lower_char(text[at + i]));
        let c = text[at + i];
        assert(c == needle[i] || ('A' <= c <= 'Z' && needle[i] as int == c as int + 32));
        assert(lower_char(c) == needle[i]);
    }
    assert(lower.subrange(at, at + needle.len()) =~= needle);
}

/// A part without a type has none that is looked for, and a type of ASCII is one
/// that is looked for only where it stands there.
pub proof fn law_types_of_parts_are_found_only_where_they_stand(
    headers: PartHeadersView,
    needle: Seq<char>,
)
    requires
        headers.content_type matches Some(text) ==> is_ascii_chars(text),
        type_contains(headers, needle),
    ensures
        headers.content_type matches Some(text) && exists|at: int|
            #[trigger] stands_at(text, needle, at),
{
    let text = headers.content_type->0;
    let lower = lowercase(text);
    let at = choose|at: int|
        0 <= at && at + needle.len() <= lower.len() && #[trigger] lower.subrange(
            at,
            at + needle.len(),
        ) == needle;
    assert forall|i: int| 0 <= i < needle.len() implies (text[at + i] == #[trigger] needle[i] || (
    'A' <= text[at + i] <= 'Z' && needle[i] as int == text[at + i] as int + 32)) by {
        assert(lower.subrange(at, at + needle.len())[i] == lower[at + i]);
        assert(lower[at + i] == lower_char(text[at + i]));
    }
    assert(stands_at(text, needle, at));
}

/// Headers of a part that are text are read, and others are not.
pub proof fn law_headers_of_parts_are_text(raw: Seq<u8>)
    ensures
        part_headers(raw) is Some <==> valid_utf8(raw),
        part_headers(Seq::empty()) == Some(
            PartHeadersView { name: None, filename: None, content_type: None },
        ),
{
    reveal(part_headers);
    let none = Seq::<char>::empty();
    encode_utf8_valid_utf8(none);
    encode_utf8_decode_utf8(none);
    assert(encode_utf8(none) =~= Seq::<u8>::empty());
    lemma_one_line(none);
    lemma_trimmed_already(none);
    lemma_one_header(no_headers(), none);
}

/// Blanks around the value of a header do not matter, and neither does a line that
/// is no header.
pub proof fn law_blanks_around_values_do_not_matter(
    block: Seq<char>,
    key: Seq<char>,
    a: Seq<char>,
    value: Seq<char>,
    b: Seq<char>,
    line: Seq<char>,
)
    requires
        is_word(key),
        is_line(value),
        is_blank(a),
        is_blank(b),
        forall|i: int| 0 <= i < line.len() ==> #[trigger] line[i] != '\r' && line[i] != ':',
    ensures
        part_headers(encode_utf8(block + line_end() + (key + seq![':'] + a + value + b)))
            == part_headers(encode_utf8(block + line_end() + sent_header(key, value))),
        part_headers(encode_utf8(block + line_end() + line)) == part_headers(encode_utf8(block)),
{
    let plain = sent_header(key, value);
    let padded = key + seq![':'] + a + value + b;
    let n = key.len() as int;
    lemma_header_line(key, value);
    // The padded line, without the blanks behind it.
    let text = key + seq![':'] + a + value;
    let none = Seq::<char>::empty();
    assert(!is_whitespace(key[0]));
    assert(text[0] == key[0]);
    assert(text.last() == value.last());
    assert(none + text + b =~= padded);
    lemma_trimmed_blanks(none, text, b);
    assert forall|i: int| 0 <= i < n implies !is_char(':')(#[trigger] text[i]) by {
        assert(text[i] == key[i]);
    }
    lemma_until_is(text, is_char(':'), n as nat);
    assert(text.take(n) =~= key);
    assert(!is_whitespace(key[n - 1]));
    lemma_trimmed_already(key);
    assert(text.skip(n + 1) =~= a + value + none);
    lemma_trimmed_blanks(a, value, none);
    assert(header_line(padded) == header_line(plain));
    assert forall|i: int| 0 <= i < padded.len() implies #[trigger] padded[i] != '\r' by {
        if i < n {
            assert(padded[i] == key[i]);
            assert(!is_whitespace(key[i]));
        } else if n < i < n + 1 + a.len() {
            assert(padded[i] == a[i - n - 1]);
        } else if n + 1 + a.len() <= i < n + 1 + a.len() + value.len() {
            assert(padded[i] == value[i - n - 1 - a.len()]);
        } else if i > n {
            assert(padded[i] == b[i - n - 1 - a.len() - value.len()]);
        }
    }
    lemma_line_added(block, padded);
    lemma_line_added(block, plain);
    lemma_one_header(part_headers(encode_utf8(block))->0, padded);
    lemma_one_header(part_headers(encode_utf8(block))->0, plain);
    lemma_line_added(block, line);
    lemma_one_header(part_headers(encode_utf8(block))->0, line);
    lemma_trimmed_holds(line, ':');
}

/// What is trimmed holds no character that was not there.
proof fn lemma_trimmed_holds(s: Seq<char>, c: char)
    requires
        forall|i: int| 0 <= i < s.len() ==> #[trigger] s[i] != c,
    ensures
        until(trimmed(s), is_char(c)) == trimmed(s).len(),
{
    let p = |x: char| is_whitespace(x);
    let not_p = |x: char| !p(x);
    lemma_until(s, not_p);
    let rest = trim_start(s, p);
    lemma_without_end(rest, p);
    let t = trimmed(s);
    assert forall|i: int| 0 <= i < t.len() implies !is_char(c)(#[trigger] t[i]) by {
        assert(t[i] == s[i + until(s, not_p)]);
    }
    lemma_until_is(t, is_char(c), t.len());
}

/// The name and the filename of a part are those that its disposition gives, and
/// what it does not give stays as it was.
pub proof fn law_dispositions_name_parts(block: Seq<char>, key: Seq<char>, value: Seq<char>)
    requires
        is_word(key),
        ascii_lowercase(key) == "content-disposition"@,
        is_line(value),
    ensures
        part_headers(encode_utf8(block)) matches Some(before) && part_headers(
            encode_utf8(block + line_end() + sent_header(key, value)),
        ) == Some(
            PartHeadersView {
                name: match disposition_param(value, "name"@) {
                    Some(name) => Some(name),
                    None => before.name,
                },
                filename: match disposition_param(value, "filename"@) {
                    Some(filename) => Some(filename),
                    None => before.filename,
                },
                content_type: before.content_type,
            },
        ),
{
    reveal_strlit("content-disposition");
    reveal_strlit("content-type");
    assert("content-disposition"@.len() != "content-type"@.len());
    let line = sent_header(key, value);
    lemma_header_line(key, value);
    lemma_line_added(block, line);
    lemma_one_header(part_headers(encode_utf8(block))->0, line);
}

/// A parameter with another name than is looked for gives no value.
proof fn lemma_other_parameter(
    key: Seq<char>,
    v: Seq<char>,
    name: Seq<char>,
    pad: Seq<char>,
    last: Seq<Seq<char>>,
)
    requires
        is_word(key),
        is_word(name),
        ascii_lowercase(key) != name,
        v.len() > 0,
        !is_whitespace(v.last()),
        is_blank(pad),
    ensures
        first_value(seq![pad + sent_parameter(key, v)] + last, name.push('=')) == first_value(
            last,
            name.push('='),
        ),
{
    let sent = sent_parameter(key, v);
    let prefix = name.push('=');
    let at = name.len() as int;
    let n = key.len();
    assert(!is_whitespace(sent[0])) by {
        assert(sent[0] == key[0]);
    }
    assert(sent.last() == v.last());
    if sent.len() >= prefix.len() {
        let lower = ascii_lowercase(key);
        let k: int = if n < at {
            n as int
        } else if n > at {
            at
        } else {
            if forall|i: int| 0 <= i < at ==> lower[i] == name[i] {
                assert(lower =~= name);
            }
            choose|i: int| 0 <= i < at && lower[i] != name[i]
        };
        let front = sent.take(k + 1);
        assert(is_ascii_chars(front)) by {
            assert forall|i: int| 0 <= i < front.len() implies '\0' <= #[trigger] front[i]
                <= '\u{7f}' by {
                if i < n {
                    assert(front[i] == key[i]);
                }
            }
        }
        if k < n {
            assert(sent[k] == key[k]);
            assert(lower[k] == lower_char(key[k]));
        } else {
            assert(sent[k] == '=');
            assert(name[k] != '=');
        }
        assert(lower_char(sent[k]) != prefix[k]);
    }
    lemma_parameter_skipped(sent, prefix, pad, last);
}

/// The segments of texts that are joined by semicolons.
proof fn lemma_segments(kind: Seq<char>, segment: Seq<char>, rest: Seq<char>)
    requires
        forall|i: int| 0 <= i < kind.len() ==> #[trigger] kind[i] != ';',
        forall|i: int| 0 <= i < segment.len() ==> #[trigger] segment[i] != ';',
    ensures
        ({
            let last = split_at_char(rest, ';');
            &&& split_at_char(kind + seq![';'] + (segment + seq![';'] + rest), ';') == seq![kind]
                + (seq![segment] + last)
            &&& split_at_char(kind + seq![';'] + rest, ';') == seq![kind] + last
            &&& split_at_char(kind + seq![';'] + segment, ';') == seq![kind] + seq![segment]
            &&& split_at_char(kind, ';') == seq![kind]
        }),
{
    lemma_one_piece(kind, ';');
    lemma_one_piece(segment, ';');
    lemma_split_join(kind, ';', segment + seq![';'] + rest);
    lemma_split_join(segment, ';', rest);
    lemma_split_join(kind, ';', rest);
    lemma_split_join(kind, ';', segment);
}

/// The parameters of a disposition are read one by one: the first with a name that
/// is looked for, whatever the case of its letters, gives its value, in double
/// quotes or as a word, whatever follows it; another one in front of it does not
/// matter; and without any parameter there is no value.
pub proof fn law_parameters_are_read_one_by_one(
    kind: Seq<char>,
    key: Seq<char>,
    value: Seq<char>,
    quoted: bool,
    pad: Seq<char>,
    rest: Seq<char>,
    name: Seq<char>,
)
    requires
        is_word(kind),
        is_word(key),
        if quoted {
            can_be_quoted(value)
        } else {
            is_word(value)
        },
        is_blank(pad),
        is_word(name),
        ascii_lowercase(name) == name,
    ensures
        ({
            let sent = sent_parameter(
                key,
                if quoted {
                    in_quotes(value)
                } else {
                    value
                },
            );
            let with = kind + seq![';'] + pad + sent + seq![';'] + rest;
            let without = kind + seq![';'] + rest;
            &&& ascii_lowercase(key) == name ==> disposition_param(with, name) == Some(value)
            &&& ascii_lowercase(key) != name ==> disposition_param(with, name)
                == disposition_param(without, name)
            &&& ascii_lowercase(key) == name ==> disposition_param(
                kind + seq![';'] + pad + sent,
                name,
            ) == Some(value)
            &&& disposition_param(kind, name) is None
        }),
{
    let v = if quoted {
        in_quotes(value)
    } else {
        value
    };
    if quoted {
        lemma_quoted(value);
    } else {
        assert(!is_whitespace(value[0]));
        assert(!is_whitespace(value[value.len() - 1]));
        assert(value[0] != '"');
    }
    let sent = sent_parameter(key, v);
    let segment = pad + sent;
    let with = kind + seq![';'] + pad + sent + seq![';'] + rest;
    let without = kind + seq![';'] + rest;
    let n = key.len();
    assert forall|i: int| 0 <= i < segment.len() implies #[trigger] segment[i] != ';' by {
        if pad.len() <= i < pad.len() + n {
            assert(segment[i] == key[i - pad.len()]);
        } else if i > pad.len() + n {
            assert(segment[i] == v[i - pad.len() - n - 1]);
        }
    }
    let alone = kind + seq![';'] + pad + sent;
    assert(with =~= kind + seq![';'] + (segment + seq![';'] + rest));
    assert(alone =~= kind + seq![';'] + segment);
    lemma_segments(kind, segment, rest);
    let last = split_at_char(rest, ';');
    let none = Seq::<char>::empty();
    let nothing = Seq::<Seq<char>>::empty();
    assert(none + kind =~= kind);
    assert(lowercase(name) == name);
    let prefix = name.push('=');
    let at = name.len() as int;
    lemma_kind_skipped(kind, prefix, seq![segment] + last, at);
    lemma_kind_skipped(kind, prefix, last, at);
    lemma_kind_skipped(kind, prefix, seq![segment] + nothing, at);
    lemma_kind_skipped(kind, prefix, nothing, at);
    assert(seq![kind] + nothing =~= seq![kind]);
    assert(seq![segment] + nothing =~= seq![segment]);
    assert(!is_whitespace(sent[0])) by {
        assert(sent[0] == key[0]);
    }
    assert(sent.last() == v.last());
    if ascii_lowercase(key) == name {
        lemma_parameter_found(key, v, name, pad, last);
        lemma_parameter_found(key, v, name, pad, nothing);
        if !quoted {
            assert(unquoted(v) == v);
        }
    } else {
        lemma_other_parameter(key, v, name, pad, last);
    }
}

/// What is told of a part is all of it.
pub proof fn law_parts_are_told_in_full(
    part: MultipartPart,
    data: Vec<u8>,
    path: String,
    bytes_written: u64,
    text: String,
)
    ensures
        part@.headers == part.headers@,
        part@.content == part.content@,
        PartContent::Buffered(data)@ == PartContentView::Buffered(data@),
        (PartContent::StreamedToFile { path, bytes_written })@ == (
        PartContentView::StreamedToFile { path: path@, bytes_written }),
        PartContent::Discarded@ == PartContentView::Discarded,
        PartDisposition::Buffer@ == DispositionView::Buffer,
        PartDisposition::StreamToFile(path)@ == DispositionView::StreamToFile(path@),
        PartDisposition::Discard@ == DispositionView::Discard,
        part.headers.name == Some(text) ==> part@.headers.name == Some(text@),
        part.headers.name is None ==> part@.headers.name is None,
        part.headers.filename == Some(text) ==> part@.headers.filename == Some(text@),
        part.headers.filename is None ==> part@.headers.filename is None,
        part.headers.content_type == Some(text) ==> part@.headers.content_type == Some(text@),
        part.headers.content_type is None ==> part@.headers.content_type is None,
{
}

/// What is told of parts is told of each, in order.
pub proof fn law_each_part_is_told(parts: Seq<MultipartPart>, i: int)
    requires
        0 <= i < parts.len(),
    ensures
        part_views(parts).len() == parts.len(),
        part_views(parts)[i] == parts[i]@,
{
}

} // verus!
