//! What holds of content types.

use vstd::prelude::*;
use vstd::utf8::{encode_utf8, encode_utf8_decode_utf8, encode_utf8_valid_utf8, is_ascii_chars};

use crate::parts::{boundary_of, disposition_param, first_value, parameter, segment_value, BoundaryError, PartHeadersView};
use crate::parts_laws::{can_be_quoted, in_quotes, is_word, law_types_of_parts_are_found_only_where_they_stand, lemma_kind_skipped, lemma_last_segment, lemma_padded, lemma_parameter_found, lemma_parameter_skipped, lemma_quoted, lemma_separated, sent_parameter, separated, stands_at};
use crate::request::{boundary_parameter, content_type_in, content_type_of, header_text, header_value, tokens, ContentTypeError, ContentTypeView};
use crate::request_laws::{is_blank, is_tight, law_header_values_read_back};
use crate::seqs::{lemma_trim_nothing, lemma_until, lemma_until_is, lemma_without_end_is, trim_start, until};
use crate::text::{ascii_lowercase, contains_text, filled, is_char, is_whitespace, lemma_lowercase_front, lemma_split_join, lower_char, lowercase, split_at_char, trimmed, trimmed_of, unquoted};

verus! {

/// A boundary that can be given as it is: it is not empty, and holds no
/// semicolon, no double quote and no white space.
pub open spec fn plain_boundary(boundary: Seq<char>) -> bool {
    &&& boundary.len() > 0
    &&& forall|i: int| 0 <= i < boundary.len() ==> {
        &&& #[trigger] boundary[i] != ';'
        &&& boundary[i] != '"'
        &&& !is_whitespace(boundary[i])
    }
}

/// The content type of a body with this boundary.
pub open spec fn multipart_type(boundary: Seq<char>) -> Seq<char> {
    "multipart/form-data; boundary="@ + boundary
}

/// A text without a character is one piece.
pub proof fn lemma_one_piece(s: Seq<char>, c: char)
    requires
        forall|i: int| 0 <= i < s.len() ==> #[trigger] s[i] != c,
    ensures
        split_at_char(s, c) == seq![s],
{
    lemma_until_is(s, is_char(c), s.len());
}

/// A text of lower-case ASCII is its own lower case.
pub proof fn lemma_lower_already(s: Seq<char>)
    requires
        forall|i: int|
            0 <= i < s.len() ==> '\0' <= #[trigger] s[i] <= '\u{7f}' && !('A' <= s[i] <= 'Z'),
    ensures
        is_ascii_chars(s),
        ascii_lowercase(s) == s,
{
    assert(ascii_lowercase(s) =~= s);
}

pub proof fn lemma_trimmed_already(s: Seq<char>)
    requires
        s.len() > 0 ==> !is_whitespace(s[0]) && !is_whitespace(s.last()),
    ensures
        trimmed(s) == s,
{
    lemma_trim_nothing(s, |c: char| is_whitespace(c));
}

/// The pieces of the content type of a multipart body.
proof fn lemma_pieces_of_type(boundary: Seq<char>)
    requires
        plain_boundary(boundary),
    ensures
        split_at_char(multipart_type(boundary), ';') == seq![
            "multipart/form-data"@,
            " boundary="@ + boundary,
        ],
        trimmed("multipart/form-data"@) == "multipart/form-data"@,
        trimmed(" boundary="@ + boundary) == "boundary="@ + boundary,
        trimmed(multipart_type(boundary)) == multipart_type(boundary),
        trimmed(boundary) == boundary,
{
    reveal_strlit("multipart/form-data; boundary=");
    reveal_strlit("multipart/form-data");
    reveal_strlit(" boundary=");
    reveal_strlit("boundary=");
    let a = "multipart/form-data"@;
    let b = " boundary="@ + boundary;
    assert(multipart_type(boundary) =~= a + seq![';'] + b);
    lemma_split_join(a, ';', b);
    lemma_one_piece(a, ';');
    assert forall|i: int| 0 <= i < b.len() implies #[trigger] b[i] != ';' by {
        if i >= 10 {
            assert(b[i] == boundary[i - 10]);
        }
    }
    lemma_one_piece(b, ';');
    assert(seq![a] + seq![b] =~= seq![a, b]);
    lemma_trimmed_already(a);
    assert(boundary.last() == boundary[boundary.len() - 1]);
    assert(boundary[0] != ';');
    lemma_trimmed_already(boundary);
    let whole = multipart_type(boundary);
    assert(whole.last() == boundary.last());
    lemma_trimmed_already(whole);
    let p = |c: char| is_whitespace(c);
    let not_p = |c: char| !p(c);
    lemma_until_is(b, not_p, 1);
    let rest = "boundary="@ + boundary;
    assert(trim_start(b, p) =~= rest);
    assert(rest.last() == boundary.last());
    lemma_without_end_is(rest, p, rest.len());
    assert(rest.take(rest.len() as int) =~= rest);
}

/// Both ways of reading a boundary off a content type agree.
pub proof fn law_boundaries_agree(boundary: Seq<char>)
    requires
        plain_boundary(boundary),
    ensures
        boundary_of(multipart_type(boundary)) == Ok::<Seq<char>, BoundaryError>(boundary),
        content_type_of(multipart_type(boundary)) == Ok::<ContentTypeView, ContentTypeError>(
            ContentTypeView::MultiPart(boundary),
        ),
{
    lemma_pieces_of_type(boundary);
    lemma_boundary_extracted(boundary);
    lemma_content_type_read(boundary);
}

proof fn lemma_boundary_extracted(boundary: Seq<char>)
    requires
        plain_boundary(boundary),
    ensures
        boundary_of(multipart_type(boundary)) == Ok::<Seq<char>, BoundaryError>(boundary),
{
    lemma_pieces_of_type(boundary);
    reveal_strlit("multipart/form-data; boundary=");
    reveal_strlit("multipart/form-data");
    reveal_strlit("multipart/");
    reveal_strlit("boundary=");
    let whole = multipart_type(boundary);
    let front = "multipart/form-data; boundary="@;
    assert(whole.take(30) =~= front);
    lemma_lower_already(front);
    lemma_lowercase_front(whole, 30);
    assert(lowercase(whole).subrange(0, 0int + "multipart/"@.len()) =~= "multipart/"@) by {
        assert forall|i: int| 0 <= i < 10 implies lowercase(whole)[i] == front[i] by {
            assert(lowercase(whole).take(30)[i] == lowercase(whole)[i]);
        }
    }
    let a = "multipart/form-data"@;
    let rest = "boundary="@ + boundary;
    let name = "boundary="@;
    let segments = split_at_char(whole, ';');
    assert(segments[0] == a);
    assert(segments.skip(1)[0] == " boundary="@ + boundary);
    lemma_lower_already(a);
    assert(a.take(a.len() as int) =~= a);
    lemma_lowercase_front(a, a.len() as int);
    assert(lowercase(a)[0] == 'm') by {
        assert(lowercase(a).take(a.len() as int)[0] == lowercase(a)[0]);
    }
    assert(!name.is_prefix_of(lowercase(a))) by {
        if name.is_prefix_of(lowercase(a)) {
            assert(lowercase(a).take(9)[0] == name[0]);
        }
    }
    assert(segment_value(a, lowercase(a), name) is None);
    assert(rest.take(9) =~= name);
    lemma_lower_already(name);
    lemma_lowercase_front(rest, 9);
    assert(name.is_prefix_of(lowercase(rest)));
    assert(rest.skip(9) =~= boundary);
    assert(boundary[0] != '"');
    assert(unquoted(boundary) == boundary);
    assert(segment_value(rest, lowercase(rest), name) == Some(boundary));
    reveal_with_fuel(first_value, 3);
    assert(parameter(whole, name) == Some(boundary));
}

proof fn lemma_content_type_read(boundary: Seq<char>)
    requires
        plain_boundary(boundary),
    ensures
        content_type_of(multipart_type(boundary)) == Ok::<ContentTypeView, ContentTypeError>(
            ContentTypeView::MultiPart(boundary),
        ),
{
    lemma_pieces_of_type(boundary);
    reveal_strlit("multipart/form-data");
    reveal_strlit("application/json");
    reveal_strlit("boundary=");
    reveal_strlit("boundary");
    let whole = multipart_type(boundary);
    let a = "multipart/form-data"@;
    let rest = "boundary="@ + boundary;
    let pieces = split_at_char(whole, ';');
    assert(tokens(pieces) =~= seq![a, rest]) by {
        reveal_with_fuel(filled, 3);
        let bare = pieces.map_values(|piece: Seq<char>| trimmed(piece));
        assert(bare =~= seq![a, rest]);
        assert(bare.skip(1)[0] == rest);
        assert(bare.skip(1).skip(1) =~= Seq::empty());
    }
    lemma_lower_already(a);
    assert(a[0] != "application/json"@[0]);
    let fields = seq![a, rest];
    assert(fields.skip(1)[0] == rest);
    lemma_until_is(rest, is_char('='), 8);
    assert(rest.take(8) =~= "boundary"@);
    lemma_lower_already("boundary"@);
    lemma_trimmed_already("boundary"@);
    assert(rest.skip(9) =~= boundary);
    assert(boundary[0] != '"');
    assert(boundary.last() == boundary[boundary.len() - 1]);
    lemma_trim_nothing(boundary, is_char('"'));
}

/// A request with the content type of a multipart body has the boundary that
/// is extracted from its content type.
pub proof fn law_requests_give_their_boundary(
    headers: Seq<(Seq<char>, Seq<u8>)>,
    boundary: Seq<char>,
)
    requires
        plain_boundary(boundary),
        header_value(headers, "content-type"@) == Some(encode_utf8(multipart_type(boundary))),
    ensures
        content_type_in(headers) == Ok::<ContentTypeView, ContentTypeError>(
            ContentTypeView::MultiPart(boundary),
        ),
        header_text(headers, "content-type"@) == Some(multipart_type(boundary)),
        boundary_of(multipart_type(boundary)) == Ok::<Seq<char>, BoundaryError>(boundary),
{
    let whole = multipart_type(boundary);
    encode_utf8_valid_utf8(whole);
    encode_utf8_decode_utf8(whole);
    lemma_pieces_of_type(boundary);
    law_boundaries_agree(boundary);
}

/// A boundary that can be given in double quotes, or as it is.
pub open spec fn can_be_given(boundary: Seq<char>, quoted: bool) -> bool {
    if quoted {
        boundary.len() > 0 && can_be_quoted(boundary)
    } else {
        plain_boundary(boundary)
    }
}

/// A boundary as it is given.
pub open spec fn as_given(boundary: Seq<char>, quoted: bool) -> Seq<char> {
    if quoted {
        in_quotes(boundary)
    } else {
        boundary
    }
}

/// Every text has its pieces without white space around them, and the empty ones
/// gone, one by one.
proof fn lemma_tokens_first(first: Seq<char>, pieces: Seq<Seq<char>>)
    ensures
        tokens(seq![first] + pieces) == if trimmed(first).len() == 0 {
            tokens(pieces)
        } else {
            seq![trimmed(first)] + tokens(pieces)
        },
{
    let f = |piece: Seq<char>| trimmed(piece);
    let all = seq![first] + pieces;
    assert(all.map_values(f)[0] == trimmed(first));
    assert(all.map_values(f).skip(1) =~= pieces.map_values(f));
}

proof fn lemma_word_is_bare(word: Seq<char>)
    requires
        is_word(word),
    ensures
        trimmed(word) == word,
        !is_whitespace(word[0]),
        !is_whitespace(word.last()),
        forall|i: int| 0 <= i < word.len() ==> #[trigger] word[i] != ';',
{
    assert(!is_whitespace(word[0]));
    assert(!is_whitespace(word[word.len() - 1]));
    lemma_trimmed_already(word);
}

/// A value as it is given, without its quotes.
proof fn lemma_given(boundary: Seq<char>, quoted: bool)
    requires
        can_be_given(boundary, quoted),
    ensures
        ({
            let v = as_given(boundary, quoted);
            &&& v.len() > 0
            &&& !is_whitespace(v[0])
            &&& !is_whitespace(v.last())
            &&& trimmed(v) == v
            &&& unquoted(v) == boundary
            &&& trimmed_of(v, '"') == boundary
            &&& forall|i: int| 0 <= i < v.len() ==> #[trigger] v[i] != ';'
        }),
{
    let v = as_given(boundary, quoted);
    if quoted {
        lemma_quoted(boundary);
        let p = is_char('"');
        let not_p = |x: char| !p(x);
        assert(v[1] == boundary[0]);
        lemma_until_is(v, not_p, 1);
        let rest = v.skip(1);
        assert(trim_start(v, p) =~= rest);
        assert(rest =~= boundary.push('"'));
        assert(rest[boundary.len() - 1] == boundary[boundary.len() - 1]);
        lemma_without_end_is(rest, p, boundary.len());
        assert(rest.take(boundary.len() as int) =~= boundary);
    } else {
        assert(boundary[0] != '"');
        assert(boundary[boundary.len() - 1] != '"');
        lemma_trim_nothing(boundary, is_char('"'));
    }
    lemma_trimmed_already(v);
}

/// The boundary that a parameter of a content type gives.
proof fn lemma_boundary_given(key: Seq<char>, boundary: Seq<char>, quoted: bool, rest: Seq<Seq<char>>)
    requires
        is_word(key),
        ascii_lowercase(key) == "boundary"@,
        can_be_given(boundary, quoted),
    ensures
        boundary_parameter(seq![sent_parameter(key, as_given(boundary, quoted))] + rest) == Ok::<
            ContentTypeView,
            ContentTypeError,
        >(ContentTypeView::MultiPart(boundary)),
{
    let v = as_given(boundary, quoted);
    let p = sent_parameter(key, v);
    let n = key.len();
    lemma_given(boundary, quoted);
    lemma_word_is_bare(key);
    assert forall|i: int| 0 <= i < n implies !is_char('=')(#[trigger] p[i]) by {
        assert(p[i] == key[i]);
    }
    lemma_until_is(p, is_char('='), n);
    assert(p.take(n as int) =~= key);
    assert(p.skip(n as int + 1) =~= v);
    assert((seq![p] + rest)[0] == p);
}

/// The type of a multipart body says so in lower case.
proof fn lemma_says_multipart(kind: Seq<char>, rest: Seq<char>)
    requires
        is_word(kind),
        ascii_lowercase(kind) == "multipart/form-data"@,
    ensures
        contains_text(lowercase(kind + rest), "multipart/"@),
{
    reveal_strlit("multipart/form-data");
    reveal_strlit("multipart/");
    let text = kind + rest;
    let n = kind.len() as int;
    assert(text.take(n) =~= kind);
    lemma_lowercase_front(text, n);
    let lower = lowercase(text);
    assert(lower.subrange(0, 10) =~= lower.take(n).take(10));
    assert("multipart/form-data"@.take(10) =~= "multipart/"@);
    assert(lower.subrange(0, 0int + "multipart/"@.len()) == "multipart/"@);
}

/// The boundary of a multipart body is read as it was given, in double quotes or
/// not, whatever the case of the words around it, and both ways to read it agree.
pub proof fn law_boundaries_read_back(
    kind: Seq<char>,
    key: Seq<char>,
    boundary: Seq<char>,
    quoted: bool,
)
    requires
        is_word(kind),
        ascii_lowercase(kind) == "multipart/form-data"@,
        is_word(key),
        ascii_lowercase(key) == "boundary"@,
        can_be_given(boundary, quoted),
    ensures
        ({
            let text = separated(kind, sent_parameter(key, as_given(boundary, quoted)));
            &&& content_type_of(text) == Ok::<ContentTypeView, ContentTypeError>(
                ContentTypeView::MultiPart(boundary),
            )
            &&& boundary_of(text) == Ok::<Seq<char>, BoundaryError>(boundary)
        }),
{
    reveal_strlit("multipart/form-data");
    reveal_strlit("application/json");
    reveal_strlit("boundary");
    reveal_strlit("boundary=");
    let v = as_given(boundary, quoted);
    let p = sent_parameter(key, v);
    let text = separated(kind, p);
    let pad = seq![' '];
    let none = Seq::<char>::empty();
    lemma_given(boundary, quoted);
    lemma_word_is_bare(kind);
    lemma_word_is_bare(key);
    assert forall|i: int| 0 <= i < p.len() implies #[trigger] p[i] != ';' by {
        if i < key.len() {
            assert(p[i] == key[i]);
        } else if i > key.len() {
            assert(p[i] == v[i - key.len() - 1]);
        }
    }
    lemma_separated(kind, p);
    lemma_last_segment(p);
    assert(p[0] == key[0]);
    assert(p.last() == v.last());
    lemma_padded(pad, p);
    let pieces = split_at_char(text, ';');
    assert(pieces =~= seq![kind] + (seq![pad + p] + Seq::empty()));
    lemma_tokens_first(kind, seq![pad + p] + Seq::empty());
    lemma_tokens_first(pad + p, Seq::empty());
    assert(tokens(Seq::empty()) =~= Seq::empty());
    let fields = tokens(pieces);
    assert(fields.skip(1) =~= seq![p] + Seq::empty());
    assert("application/json"@.len() != "multipart/form-data"@.len());
    lemma_boundary_given(key, boundary, quoted, Seq::empty());
    assert(text =~= kind + (seq![';', ' '] + p));
    lemma_says_multipart(kind, seq![';', ' '] + p);
    let prefix = "boundary"@.push('=');
    assert(prefix =~= "boundary="@);
    assert(pieces =~= seq![none + kind] + (seq![pad + p] + Seq::empty()));
    lemma_kind_skipped(kind, prefix, seq![pad + p] + Seq::empty(), 8);
    lemma_parameter_found(key, v, "boundary"@, pad, Seq::empty());
}

/// Other parameters in front of the boundary do not matter.
pub proof fn law_other_parameters_do_not_matter(
    kind: Seq<char>,
    key: Seq<char>,
    value: Seq<char>,
    rest: Seq<char>,
)
    requires
        is_word(kind),
        ascii_lowercase(kind) == "multipart/form-data"@,
        is_word(key),
        ascii_lowercase(key) != "boundary"@,
        value.len() > 0,
        !is_whitespace(value[0]),
        !is_whitespace(value.last()),
        forall|i: int| 0 <= i < value.len() ==> #[trigger] value[i] != ';',
    ensures
        ({
            let more = separated(kind, separated(sent_parameter(key, value), rest));
            &&& content_type_of(more) == content_type_of(separated(kind, rest))
            &&& boundary_of(more) == boundary_of(separated(kind, rest))
        }),
{
    reveal_strlit("multipart/form-data");
    reveal_strlit("application/json");
    reveal_strlit("boundary");
    reveal_strlit("boundary=");
    let p = sent_parameter(key, value);
    let more = separated(kind, separated(p, rest));
    let less = separated(kind, rest);
    let pad = seq![' '];
    let none = Seq::<char>::empty();
    lemma_word_is_bare(kind);
    lemma_word_is_bare(key);
    let padded = pad + p;
    assert forall|i: int| 0 <= i < padded.len() implies #[trigger] padded[i] != ';' by {
        if 0 < i <= key.len() {
            assert(padded[i] == key[i - 1]);
        } else if i > key.len() + 1 {
            assert(padded[i] == value[i - key.len() - 2]);
        }
    }
    lemma_separated(kind, separated(p, rest));
    assert(pad + separated(p, rest) =~= separated(padded, rest));
    lemma_separated(padded, rest);
    lemma_separated(kind, rest);
    let last = split_at_char(pad + rest, ';');
    assert(p[0] == key[0]);
    assert(p.last() == value.last());
    lemma_padded(pad, p);
    assert(split_at_char(more, ';') =~= seq![kind] + (seq![padded] + last));
    lemma_tokens_first(kind, seq![padded] + last);
    lemma_tokens_first(padded, last);
    lemma_tokens_first(kind, last);
    assert((seq![kind] + (seq![p] + tokens(last))).skip(1) =~= seq![p] + tokens(last));
    assert((seq![kind] + tokens(last)).skip(1) =~= tokens(last));
    let n = key.len();
    assert forall|i: int| 0 <= i < n implies !is_char('=')(#[trigger] p[i]) by {
        assert(p[i] == key[i]);
    }
    lemma_until_is(p, is_char('='), n);
    assert(p.take(n as int) =~= key);
    assert((seq![p] + tokens(last))[0] == p);
    assert((seq![p] + tokens(last)).skip(1) =~= tokens(last));
    // The other way to read it.
    assert(more =~= kind + (seq![';', ' '] + separated(p, rest)));
    assert(less =~= kind + (seq![';', ' '] + rest));
    lemma_says_multipart(kind, seq![';', ' '] + separated(p, rest));
    lemma_says_multipart(kind, seq![';', ' '] + rest);
    let prefix = "boundary"@.push('=');
    assert(prefix =~= "boundary="@);
    assert(none + kind =~= kind);
    lemma_kind_skipped(kind, prefix, seq![padded] + last, 8);
    lemma_kind_skipped(kind, prefix, last, 8);
    if p.len() >= prefix.len() {
        let lower = ascii_lowercase(key);
        let k: int = if n < 8 {
            n as int
        } else if n > 8 {
            8
        } else {
            if forall|i: int| 0 <= i < 8 ==> lower[i] == "boundary"@[i] {
                assert(lower =~= "boundary"@);
            }
            choose|i: int| 0 <= i < 8 && lower[i] != "boundary"@[i]
        };
        let front = p.take(k + 1);
        assert(is_ascii_chars(front)) by {
            assert forall|i: int| 0 <= i < front.len() implies '\0' <= #[trigger] front[i]
                <= '\u{7f}' by {
                if i < n {
                    assert(front[i] == key[i]);
                }
            }
        }
        if k < n {
            assert(p[k] == key[k]);
            assert(lower[k] == lower_char(key[k]));
        }
        assert(lower_char(p[k]) != prefix[k]);
    }
    lemma_parameter_skipped(p, prefix, pad, last);
}

/// JSON is told by its type, whatever the case of its letters and whatever
/// parameters follow, and a type that is neither is refused.
pub proof fn law_types_are_told_apart(kind: Seq<char>, rest: Seq<char>)
    requires
        is_word(kind),
    ensures
        ascii_lowercase(kind) == "application/json"@ ==> {
            &&& content_type_of(kind) == Ok::<ContentTypeView, ContentTypeError>(
                ContentTypeView::Json,
            )
            &&& content_type_of(separated(kind, rest)) == Ok::<ContentTypeView, ContentTypeError>(
                ContentTypeView::Json,
            )
        },
        ascii_lowercase(kind) != "application/json"@ && ascii_lowercase(kind)
            != "multipart/form-data"@ ==> {
            &&& content_type_of(kind) == Err::<ContentTypeView, ContentTypeError>(
                ContentTypeError::Unsupported,
            )
            &&& content_type_of(separated(kind, rest)) == Err::<ContentTypeView, ContentTypeError>(
                ContentTypeError::Unsupported,
            )
        },
        ascii_lowercase(kind) == "multipart/form-data"@ ==> {
            &&& content_type_of(kind) == Err::<ContentTypeView, ContentTypeError>(
                ContentTypeError::MissingBoundary,
            )
            &&& boundary_of(kind) == Err::<Seq<char>, BoundaryError>(BoundaryError::Missing)
        },
        content_type_of(Seq::empty()) == Err::<ContentTypeView, ContentTypeError>(
            ContentTypeError::Empty,
        ),
{
    reveal_strlit("multipart/form-data");
    reveal_strlit("application/json");
    reveal_strlit("boundary=");
    lemma_word_is_bare(kind);
    lemma_one_piece(kind, ';');
    lemma_separated(kind, rest);
    let none = Seq::<Seq<char>>::empty();
    let last = split_at_char(seq![' '] + rest, ';');
    assert(tokens(none) =~= none);
    assert(seq![kind] + none =~= seq![kind]);
    lemma_tokens_first(kind, none);
    lemma_tokens_first(kind, last);
    assert((seq![kind] + none).skip(1) =~= none);
    assert("application/json"@.len() != "multipart/form-data"@.len());
    let nothing = Seq::<char>::empty();
    lemma_one_piece(nothing, ';');
    assert(seq![nothing] + none =~= seq![nothing]);
    lemma_trimmed_already(nothing);
    lemma_tokens_first(nothing, none);
    if ascii_lowercase(kind) == "multipart/form-data"@ {
        lemma_says_multipart(kind, nothing);
        assert(kind + nothing =~= kind);
        assert(nothing + kind =~= kind);
        lemma_kind_skipped(kind, "boundary="@, none, 8);
    }
}

/// A type of ASCII in which `multipart/` does not stand, whatever the case of its
/// letters, gives no boundary.
pub proof fn law_other_types_give_no_boundary(text: Seq<char>)
    requires
        is_ascii_chars(text),
        forall|at: int| !#[trigger] stands_at(text, "multipart/"@, at),
    ensures
        boundary_of(text) == Err::<Seq<char>, BoundaryError>(BoundaryError::NotMultipart),
{
    if contains_text(lowercase(text), "multipart/"@) {
        let headers = PartHeadersView { name: None, filename: None, content_type: Some(text) };
        law_types_of_parts_are_found_only_where_they_stand(headers, "multipart/"@);
    }
}

/// A request has the content type that its header gives, and none without it.
pub proof fn law_content_types_of_requests_read_back(
    headers: Seq<(Seq<char>, Seq<u8>)>,
    a: Seq<char>,
    text: Seq<char>,
    b: Seq<char>,
)
    requires
        is_blank(a),
        is_blank(b),
        is_tight(text),
    ensures
        header_value(headers, "content-type"@) == Some(encode_utf8(a + text + b))
            ==> content_type_in(headers) == content_type_of(text),
        header_value(headers, "content-type"@) is None ==> content_type_in(headers) == Err::<
            ContentTypeView,
            ContentTypeError,
        >(ContentTypeError::Missing),
{
    law_header_values_read_back(headers, "content-type"@, a, text, b);
}

/// A boundary that is empty is none.
pub proof fn law_empty_boundaries_are_refused(kind: Seq<char>, key: Seq<char>)
    requires
        is_word(kind),
        ascii_lowercase(kind) == "multipart/form-data"@,
        is_word(key),
        ascii_lowercase(key) == "boundary"@,
    ensures
        ({
            let text = separated(kind, sent_parameter(key, seq!['"', '"']));
            &&& content_type_of(text) == Err::<ContentTypeView, ContentTypeError>(
                ContentTypeError::EmptyBoundary,
            )
            &&& boundary_of(text) == Err::<Seq<char>, BoundaryError>(BoundaryError::Empty)
        }),
{
    reveal_strlit("multipart/form-data");
    reveal_strlit("application/json");
    reveal_strlit("boundary");
    reveal_strlit("boundary=");
    let none = Seq::<char>::empty();
    let v = seq!['"', '"'];
    let p = sent_parameter(key, v);
    let text = separated(kind, p);
    let pad = seq![' '];
    lemma_quoted(none);
    assert(in_quotes(none) =~= v);
    lemma_word_is_bare(kind);
    lemma_word_is_bare(key);
    lemma_trimmed_already(v);
    let q = is_char('"');
    let not_q = |x: char| !q(x);
    lemma_until_is(v, not_q, 2);
    assert(trim_start(v, q) =~= none);
    lemma_without_end_is(none, q, 0);
    assert forall|i: int| 0 <= i < p.len() implies #[trigger] p[i] != ';' by {
        if i < key.len() {
            assert(p[i] == key[i]);
        } else if i > key.len() {
            assert(p[i] == v[i - key.len() - 1]);
        }
    }
    lemma_separated(kind, p);
    lemma_last_segment(p);
    assert(p[0] == key[0]);
    assert(p.last() == v.last());
    lemma_padded(pad, p);
    let pieces = split_at_char(text, ';');
    assert(pieces =~= seq![kind] + (seq![pad + p] + Seq::empty()));
    lemma_tokens_first(kind, seq![pad + p] + Seq::empty());
    lemma_tokens_first(pad + p, Seq::empty());
    assert(tokens(Seq::empty()) =~= Seq::empty());
    assert(tokens(pieces).skip(1) =~= seq![p] + Seq::empty());
    assert("application/json"@.len() != "multipart/form-data"@.len());
    let n = key.len();
    assert forall|i: int| 0 <= i < n implies !is_char('=')(#[trigger] p[i]) by {
        assert(p[i] == key[i]);
    }
    lemma_until_is(p, is_char('='), n);
    assert(p.take(n as int) =~= key);
    assert(p.skip(n as int + 1) =~= v);
    assert((seq![p] + Seq::<Seq<char>>::empty())[0] == p);
    assert(text =~= kind + (seq![';', ' '] + p));
    lemma_says_multipart(kind, seq![';', ' '] + p);
    let prefix = "boundary"@.push('=');
    assert(prefix =~= "boundary="@);
    assert(none + kind =~= kind);
    lemma_kind_skipped(kind, prefix, seq![pad + p] + Seq::empty(), 8);
    lemma_parameter_found(key, v, "boundary"@, pad, Seq::empty());
}

/// Blanks in front of a text make no difference to what is left without white
/// space around it.
proof fn lemma_blanks_in_front(pad: Seq<char>, s: Seq<char>)
    requires
        is_blank(pad),
    ensures
        trimmed(pad + s) == trimmed(s),
{
    let p = |c: char| is_whitespace(c);
    let not_p = |c: char| !p(c);
    let t = pad + s;
    lemma_until(s, not_p);
    let n = until(s, not_p);
    assert forall|i: int| 0 <= i < pad.len() + n implies !not_p(#[trigger] t[i]) by {
        if i < pad.len() {
            assert(t[i] == pad[i]);
        } else {
            assert(t[i] == s[i - pad.len()]);
        }
    }
    if n < s.len() {
        assert(t[(pad.len() + n) as int] == s[n as int]);
    }
    lemma_until_is(t, not_p, (pad.len() + n) as nat);
    assert(trim_start(t, p) =~= trim_start(s, p));
}

/// Blanks in front of a text go to its first segment.
proof fn lemma_split_blanks(pad: Seq<char>, s: Seq<char>)
    requires
        is_blank(pad),
    ensures
        split_at_char(s, ';').len() > 0,
        split_at_char(pad + s, ';') == seq![pad + split_at_char(s, ';')[0]] + split_at_char(
            s,
            ';',
        ).skip(1),
{
    let p = is_char(';');
    let t = pad + s;
    lemma_until(s, p);
    let n = until(s, p);
    assert forall|i: int| 0 <= i < pad.len() + n implies !p(#[trigger] t[i]) by {
        if i < pad.len() {
            assert(t[i] == pad[i]);
        } else {
            assert(t[i] == s[i - pad.len()]);
        }
    }
    if n < s.len() {
        assert(t[(pad.len() + n) as int] == s[n as int]);
    }
    lemma_until_is(t, p, (pad.len() + n) as nat);
    let first = split_at_char(s, ';');
    if n >= s.len() {
        assert(first.skip(1) =~= Seq::empty());
        assert(seq![pad + first[0]] + first.skip(1) =~= seq![t]);
    } else {
        assert(t.take((pad.len() + n) as int) =~= pad + s.take(n as int));
        assert(t.skip((pad.len() + n + 1) as int) =~= s.skip(n as int + 1));
        assert(first.skip(1) =~= split_at_char(s.skip(n as int + 1), ';'));
    }
}

/// Blanks behind a semicolon make no difference to content types and their
/// boundaries, nor to the parameters of dispositions.
pub proof fn law_blanks_behind_semicolons_do_not_matter(
    kind: Seq<char>,
    pad: Seq<char>,
    rest: Seq<char>,
    name: Seq<char>,
)
    requires
        is_word(kind),
        is_blank(pad),
    ensures
        content_type_of(kind + seq![';'] + pad + rest) == content_type_of(kind + seq![';'] + rest),
        ascii_lowercase(kind) == "multipart/form-data"@ ==> boundary_of(
            kind + seq![';'] + pad + rest,
        ) == boundary_of(kind + seq![';'] + rest),
        disposition_param(kind + seq![';'] + pad + rest, name) == disposition_param(
            kind + seq![';'] + rest,
            name,
        ),
{
    let wide = kind + seq![';'] + pad + rest;
    let tight = kind + seq![';'] + rest;
    lemma_word_is_bare(kind);
    lemma_one_piece(kind, ';');
    assert(wide =~= kind + seq![';'] + (pad + rest));
    lemma_split_join(kind, ';', pad + rest);
    lemma_split_join(kind, ';', rest);
    lemma_split_blanks(pad, rest);
    let segments = split_at_char(rest, ';');
    let first = segments[0];
    let others = segments.skip(1);
    lemma_blanks_in_front(pad, first);
    assert(segments =~= seq![first] + others);
    lemma_tokens_first(kind, seq![pad + first] + others);
    lemma_tokens_first(kind, seq![first] + others);
    lemma_tokens_first(pad + first, others);
    lemma_tokens_first(first, others);
    lemma_same_first_value(kind, pad + first, first, others, "boundary="@);
    lemma_same_first_value(kind, pad + first, first, others, lowercase(name).push('='));
    if ascii_lowercase(kind) == "multipart/form-data"@ {
        assert(wide =~= kind + (seq![';'] + pad + rest));
        assert(tight =~= kind + (seq![';'] + rest));
        lemma_says_multipart(kind, seq![';'] + pad + rest);
        lemma_says_multipart(kind, seq![';'] + rest);
    }
}

/// Segments that are the same without white space around them give the same value.
proof fn lemma_same_first_value(
    kind: Seq<char>,
    a: Seq<char>,
    b: Seq<char>,
    others: Seq<Seq<char>>,
    prefix: Seq<char>,
)
    requires
        trimmed(a) == trimmed(b),
    ensures
        first_value(seq![kind] + (seq![a] + others), prefix) == first_value(
            seq![kind] + (seq![b] + others),
            prefix,
        ),
{
    let x = seq![a] + others;
    let y = seq![b] + others;
    assert(x.skip(1) =~= others);
    assert(y.skip(1) =~= others);
    assert(first_value(x, prefix) == first_value(y, prefix));
    assert((seq![kind] + x).skip(1) =~= x);
    assert((seq![kind] + y).skip(1) =~= y);
    assert((seq![kind] + x)[0] == kind);
    assert((seq![kind] + y)[0] == kind);
}

} // verus!
