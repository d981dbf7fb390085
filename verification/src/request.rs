//! Requests: the head that was parsed, and what its headers say.

use vstd::prelude::*;
use vstd::utf8::{decode_utf8, valid_utf8};

use crate::seqs::until;
use crate::text::{ascii_lowercase, ascii_lowercase_chars, chars_of, filled, filled_of, from_utf8, is_char, is_text, lemma_split_join, parse_u64, position_of, same_chars, split_at_char, split_chars, string_of, texts, trim_char, trim_str, trim_whitespace, trimmed, trimmed_of, u64_of};

verus! {

/// The most headers that a request may have.
pub const MAX_HEADERS: usize = 64;

/// The declaration of `httparse::Error`, which is carried and never looked into.
#[verifier::external_type_specification]
#[verifier::external_body]
pub struct ExHttparseError(httparse::Error);

/// The head of a request, as it was parsed.
pub struct ParsedHead {
    pub method: Option<String>,
    pub path: Option<String>,
    pub version: Option<u8>,
    pub headers: Vec<(String, Vec<u8>)>,
    /// Where the body begins.
    pub body_offset: usize,
}

/// [`ParsedHead`], with texts as their characters.
pub struct HeadView {
    pub method: Option<Seq<char>>,
    pub path: Option<Seq<char>>,
    pub version: Option<u8>,
    pub headers: Seq<(Seq<char>, Seq<u8>)>,
    pub body_offset: nat,
}

/// Headers, with texts as their characters.
pub open spec fn header_views(headers: Seq<(String, Vec<u8>)>) -> Seq<(Seq<char>, Seq<u8>)> {
    headers.map_values(|header: (String, Vec<u8>)| (header.0@, header.1@))
}

impl View for ParsedHead {
    type V = HeadView;

    open spec fn view(&self) -> HeadView {
        HeadView {
            method: crate::parts::opt_text(self.method),
            path: crate::parts::opt_text(self.path),
            version: self.version,
            headers: header_views(self.headers@),
            body_offset: self.body_offset as nat,
        }
    }
}

/// What parsing makes of the bytes of a request: its head, nothing as long as
/// the head is not complete, or an error.
pub uninterp spec fn request_head(buf: Seq<u8>, max_headers: nat) -> Result<Option<HeadView>, ()>;

/// The head that `buf` begins with ends at `end`: with less of it there is none
/// that is complete, and what follows it does not matter.
pub open spec fn head_ends(buf: Seq<u8>, end: int, max_headers: nat) -> bool {
    &&& 0 <= end <= buf.len()
    &&& forall|k: int|
        0 <= k < end ==> !(request_head(#[trigger] buf.take(k), max_headers) matches Ok(Some(_)))
    &&& forall|more: Seq<u8>|
        #[trigger] request_head(buf.take(end) + more, max_headers) == request_head(
            buf,
            max_headers,
        )
}

/// `httparse::Request::parse`, with room for `max_headers` headers: the parsed
/// head where the status is complete, and nothing where it is partial. A head
/// is complete only with a method, a path and a version, and has no more headers
/// than there is room for. The bytes are read from front to back, so that a head
/// is complete with its last byte, not before, whatever follows it.
#[verifier::external_body]
fn parse_head(buf: &[u8], max_headers: usize) -> (parsed: Result<
    Option<ParsedHead>,
    httparse::Error,
>)
    requires
        max_headers <= MAX_HEADERS,
    ensures
        match parsed {
            Ok(Some(head)) => request_head(buf@, max_headers as nat) == Ok::<
                Option<HeadView>,
                (),
            >(Some(head@)),
            Ok(None) => request_head(buf@, max_headers as nat) == Ok::<Option<HeadView>, ()>(None),
            Err(_) => request_head(buf@, max_headers as nat) is Err,
        },
        parsed matches Ok(Some(head)) ==> {
            &&& head_ends(buf@, head.body_offset as int, max_headers as nat)
            &&& head.method is Some
            &&& head.path is Some
            &&& head.version is Some
            &&& head.headers@.len() <= max_headers
        },
{
    let mut room = vec![httparse::EMPTY_HEADER; max_headers];
    let mut req = httparse::Request::new(&mut room);
    match req.parse(buf)? {
        httparse::Status::Complete(body_offset) => Ok(Some(ParsedHead {
            method: req.method.map(str::to_owned),
            path: req.path.map(str::to_owned),
            version: req.version,
            headers: req.headers.iter().map(|h| (h.name.to_owned(), h.value.to_vec())).collect(),
            body_offset,
        })),
        httparse::Status::Partial => Ok(None),
    }
}

/// Why bytes are no request.
#[derive(Debug, Clone, Copy, PartialEq, Eq, Structural)]
pub enum RequestError {
    /// The head cannot be parsed.
    Malformed,
    /// The head is not complete.
    Partial,
    /// The method is missing.
    MissingMethod,
    /// The path is missing.
    MissingPath,
    /// The version is missing.
    MissingVersion,
    /// A header has an empty name.
    EmptyHeaderName,
}

/// A request.
#[derive(Debug)]
pub struct OwnedRequest {
    pub method: String,
    pub path: String,
    pub version: u8,
    pub headers: Vec<(String, Vec<u8>)>,
    pub buf: Vec<u8>,
    pub body_offset: usize,
}

/// [`OwnedRequest`], with texts as their characters.
pub struct RequestView {
    pub method: Seq<char>,
    pub path: Seq<char>,
    pub version: u8,
    pub headers: Seq<(Seq<char>, Seq<u8>)>,
    pub buf: Seq<u8>,
    pub body_offset: nat,
}

impl View for OwnedRequest {
    type V = RequestView;

    open spec fn view(&self) -> RequestView {
        RequestView {
            method: self.method@,
            path: self.path@,
            version: self.version,
            headers: header_views(self.headers@),
            buf: self.buf@,
            body_offset: self.body_offset as nat,
        }
    }
}

/// Some header has an empty name.
pub open spec fn has_unnamed(headers: Seq<(Seq<char>, Seq<u8>)>) -> bool {
    exists|i: int| 0 <= i < headers.len() && (#[trigger] headers[i]).0.len() == 0
}

/// The request that `buf` holds, if its head is `head`.
pub open spec fn request_of(buf: Seq<u8>, head: Option<HeadView>) -> Result<
    RequestView,
    RequestError,
> {
    match head {
        None => Err(RequestError::Partial),
        Some(head) => if head.method is None {
            Err(RequestError::MissingMethod)
        } else if head.path is None {
            Err(RequestError::MissingPath)
        } else if head.version is None {
            Err(RequestError::MissingVersion)
        } else if has_unnamed(head.headers) {
            Err(RequestError::EmptyHeaderName)
        } else {
            Ok(
                RequestView {
                    method: head.method->0,
                    path: head.path->0,
                    version: head.version->0,
                    headers: head.headers,
                    buf,
                    body_offset: head.body_offset,
                },
            )
        },
    }
}

/// Two header names are the same.
pub open spec fn same_name(a: Seq<char>, b: Seq<char>) -> bool {
    ascii_lowercase(a) == ascii_lowercase(b)
}

/// The value of the first header with the name `key`.
pub open spec fn header_value(headers: Seq<(Seq<char>, Seq<u8>)>, key: Seq<char>) -> Option<
    Seq<u8>,
>
    decreases headers.len(),
{
    if headers.len() == 0 {
        None
    } else if same_name(headers[0].0, key) {
        Some(headers[0].1)
    } else {
        header_value(headers.skip(1), key)
    }
}

/// The value of the first header with the name `key`, as text without white
/// space around it, where it is text.
pub open spec fn header_text(headers: Seq<(Seq<char>, Seq<u8>)>, key: Seq<char>) -> Option<
    Seq<char>,
> {
    match header_value(headers, key) {
        Some(value) if valid_utf8(value) => Some(trimmed(decode_utf8(value))),
        _ => None,
    }
}

/// One of the codings in a list that is separated by commas is `chunked`.
pub open spec fn names_chunked(codings: Seq<char>) -> bool {
    exists|i: int|
        0 <= i < split_at_char(codings, ',').len() && same_name(
            trimmed(#[trigger] split_at_char(codings, ',')[i]),
            "chunked"@,
        )
}

/// The body of a request with these headers comes in chunks.
pub open spec fn chunked_body(headers: Seq<(Seq<char>, Seq<u8>)>) -> bool {
    header_text(headers, "transfer-encoding"@) matches Some(codings) && names_chunked(codings)
}

/// The length of the body that these headers give.
pub open spec fn length_of_body(headers: Seq<(Seq<char>, Seq<u8>)>) -> Option<u64> {
    match header_text(headers, "content-length"@) {
        Some(text) => u64_of(text),
        None => None,
    }
}

/// What the body of a request is.
#[derive(Debug)]
pub enum ContentType {
    Json,
    /// Parts, with this boundary between them.
    MultiPart(String),
}

/// [`ContentType`], with texts as their characters.
pub enum ContentTypeView {
    Json,
    MultiPart(Seq<char>),
}

impl View for ContentType {
    type V = ContentTypeView;

    open spec fn view(&self) -> ContentTypeView {
        match self {
            ContentType::Json => ContentTypeView::Json,
            ContentType::MultiPart(boundary) => ContentTypeView::MultiPart(boundary@),
        }
    }
}

/// Why a request has no content type that is supported.
#[derive(Debug, Clone, Copy, PartialEq, Eq, Structural)]
pub enum ContentTypeError {
    /// There is no content type, or it is not text.
    Missing,
    /// The content type is empty.
    Empty,
    /// The boundary parameter has no value.
    MissingBoundaryValue,
    /// The boundary is empty.
    EmptyBoundary,
    /// There is no boundary parameter.
    MissingBoundary,
    /// The content type is another one.
    Unsupported,
}

/// The pieces without white space around them, and without those that are empty.
pub open spec fn tokens(pieces: Seq<Seq<char>>) -> Seq<Seq<char>> {
    filled(pieces.map_values(|piece: Seq<char>| trimmed(piece)))
}

/// The boundary that the first of `parameters` to be named so gives.
pub open spec fn boundary_parameter(parameters: Seq<Seq<char>>) -> Result<
    ContentTypeView,
    ContentTypeError,
>
    decreases parameters.len(),
{
    if parameters.len() == 0 {
        Err(ContentTypeError::MissingBoundary)
    } else {
        let p = parameters[0];
        let equals = until(p, is_char('='));
        if ascii_lowercase(trimmed(p.take(equals as int))) != "boundary"@ {
            boundary_parameter(parameters.skip(1))
        } else if equals >= p.len() {
            Err(ContentTypeError::MissingBoundaryValue)
        } else {
            let boundary = trimmed_of(trimmed(p.skip(equals as int + 1)), '"');
            if boundary.len() == 0 {
                Err(ContentTypeError::EmptyBoundary)
            } else {
                Ok(ContentTypeView::MultiPart(boundary))
            }
        }
    }
}

/// The content type that a header value gives.
pub open spec fn content_type_of(text: Seq<char>) -> Result<ContentTypeView, ContentTypeError> {
    let fields = tokens(split_at_char(text, ';'));
    if fields.len() == 0 {
        Err(ContentTypeError::Empty)
    } else if ascii_lowercase(fields[0]) == "application/json"@ {
        Ok(ContentTypeView::Json)
    } else if ascii_lowercase(fields[0]) == "multipart/form-data"@ {
        boundary_parameter(fields.skip(1))
    } else {
        Err(ContentTypeError::Unsupported)
    }
}

/// The content type that headers give.
pub open spec fn content_type_in(headers: Seq<(Seq<char>, Seq<u8>)>) -> Result<
    ContentTypeView,
    ContentTypeError,
> {
    match header_text(headers, "content-type"@) {
        None => Err(ContentTypeError::Missing),
        Some(text) => content_type_of(text),
    }
}

/// Whether two texts differ in the case of `A` to `Z` at most.
pub fn equal_ignoring_case(a: &[char], b: &str) -> (same: bool)
    ensures
        same == same_name(a@, b@),
{
    let chars = chars_of(b);
    let left = ascii_lowercase_chars(a);
    let right = ascii_lowercase_chars(chars.as_slice());
    same_chars(left.as_slice(), right.as_slice())
}

/// Removes white space around pieces, and the pieces that are then empty.
pub fn tokens_of<'a>(pieces: &Vec<&'a [char]>) -> (found: Vec<&'a [char]>)
    ensures
        texts(found@) == tokens(texts(pieces@)),
{
    let mut bare: Vec<&'a [char]> = Vec::new();
    let mut i: usize = 0;
    while i < pieces.len()
        invariant
            i <= pieces@.len(),
            bare@.len() == i,
            forall|k: int| 0 <= k < i ==> (#[trigger] bare@[k])@ == trimmed(pieces@[k]@),
        decreases pieces@.len() - i,
    {
        bare.push(trim_whitespace(pieces[i]));
        i += 1;
    }
    assert(texts(bare@) =~= texts(pieces@).map_values(|piece: Seq<char>| trimmed(piece)));
    filled_of(&bare)
}

/// Finds the boundary among the parameters from `from` on.
fn read_boundary(parameters: &Vec<&[char]>, from: usize) -> (found: Result<
    ContentType,
    ContentTypeError,
>)
    requires
        from <= parameters@.len(),
    ensures
        content_view(found) == boundary_parameter(texts(parameters@).skip(from as int)),
{
    let ghost all = texts(parameters@);
    let mut i: usize = from;
    while i < parameters.len()
        invariant
            from <= i <= parameters@.len(),
            all == texts(parameters@),
            boundary_parameter(all.skip(i as int)) == boundary_parameter(all.skip(from as int)),
        decreases parameters@.len() - i,
    {
        let p: &[char] = parameters[i];
        proof {
            assert(all.skip(i as int)[0] == p@);
            assert(all.skip(i as int).skip(1) =~= all.skip(i + 1));
        }
        let equals: usize = position_of(p, '=');
        let name = trim_whitespace(vstd::slice::slice_subrange(p, 0, equals));
        assert(p@.subrange(0, equals as int) =~= p@.take(equals as int));
        let key = ascii_lowercase_chars(name);
        if is_text(key.as_slice(), "boundary") {
            if equals >= p.len() {
                return Err(ContentTypeError::MissingBoundaryValue);
            }
            let value = trim_whitespace(vstd::slice::slice_subrange(p, equals + 1, p.len()));
            assert(p@.subrange(equals + 1, p@.len() as int) =~= p@.skip(equals + 1));
            let boundary = trim_char(value, '"');
            if boundary.len() == 0 {
                return Err(ContentTypeError::EmptyBoundary);
            }
            return Ok(ContentType::MultiPart(string_of(boundary)));
        }
        i += 1;
    }
    assert(all.skip(i as int) =~= Seq::empty());
    Err(ContentTypeError::MissingBoundary)
}

/// A result, with the view of what it holds.
pub open spec fn content_view(result: Result<ContentType, ContentTypeError>) -> Result<
    ContentTypeView,
    ContentTypeError,
> {
    match result {
        Ok(content) => Ok(content@),
        Err(error) => Err(error),
    }
}

/// Reads the content type off a header value.
pub fn parse_content_type(text: &str) -> (content: Result<ContentType, ContentTypeError>)
    ensures
        content_view(content) == content_type_of(text@),
{
    let chars = chars_of(text);
    let pieces = split_chars(chars.as_slice(), ';');
    let fields = tokens_of(&pieces);
    if fields.len() == 0 {
        return Err(ContentTypeError::Empty);
    }
    assert(texts(fields@)[0] == fields@[0]@);
    let media_type = ascii_lowercase_chars(fields[0]);
    if is_text(media_type.as_slice(), "application/json") {
        return Ok(ContentType::Json);
    }
    if is_text(media_type.as_slice(), "multipart/form-data") {
        return read_boundary(&fields, 1);
    }
    Err(ContentTypeError::Unsupported)
}

/// Whether one of the codings in a list is `chunked`.
pub fn lists_chunked(codings: &str) -> (yes: bool)
    ensures
        yes == names_chunked(codings@),
{
    let chars = chars_of(codings);
    let pieces = split_chars(chars.as_slice(), ',');
    let ghost all = split_at_char(codings@, ',');
    let mut i: usize = 0;
    while i < pieces.len()
        invariant
            i <= pieces@.len(),
            all == texts(pieces@),
            all == split_at_char(codings@, ','),
            forall|j: int| 0 <= j < i ==> !same_name(trimmed(#[trigger] all[j]), "chunked"@),
        decreases pieces@.len() - i,
    {
        assert(all[i as int] == pieces@[i as int]@);
        if equal_ignoring_case(trim_whitespace(pieces[i]), "chunked") {
            return true;
        }
        i += 1;
    }
    false
}

/// Whether some header has an empty name.
fn any_unnamed(headers: &Vec<(String, Vec<u8>)>) -> (yes: bool)
    ensures
        yes == has_unnamed(header_views(headers@)),
{
    let ghost views = header_views(headers@);
    let mut i: usize = 0;
    while i < headers.len()
        invariant
            i <= headers@.len(),
            views == header_views(headers@),
            forall|j: int| 0 <= j < i ==> (#[trigger] views[j]).0.len() != 0,
        decreases headers@.len() - i,
    {
        assert(views[i as int].0 == headers@[i as int].0@);
        if headers[i].0.as_str().is_empty() {
            return true;
        }
        i += 1;
    }
    false
}

impl OwnedRequest {
    /// The body begins within the bytes of the request.
    pub open spec fn wf(&self) -> bool {
        self@.body_offset <= self@.buf.len()
    }

    /// Case-insensitive header lookup. Returns the first match, raw bytes.
    ///
    /// Prefer this as the base primitive; higher-level helpers can decode.
    pub fn header_raw(&self, key: &str) -> (value: Option<&[u8]>)
        ensures
            match value {
                Some(bytes) => header_value(self@.headers, key@) == Some(bytes@),
                None => header_value(self@.headers, key@) is None,
            },
    {
        let ghost all = self@.headers;
        let mut i: usize = 0;
        assert(all.skip(0) =~= all);
        while i < self.headers.len()
            invariant
                i <= self.headers@.len(),
                all == self@.headers,
                header_value(all.skip(i as int), key@) == header_value(all, key@),
            decreases self.headers@.len() - i,
        {
            let header = &self.headers[i];
            proof {
                assert(all.skip(i as int)[0] == (header.0@, header.1@));
                assert(all.skip(i as int).skip(1) =~= all.skip(i + 1));
            }
            let name = chars_of(header.0.as_str());
            if equal_ignoring_case(name.as_slice(), key) {
                return Some(header.1.as_slice());
            }
            i += 1;
        }
        None
    }

    /// Case-insensitive header lookup, decoded as UTF-8 and trimmed.
    ///
    /// Returns `None` if header missing or value is not valid UTF-8.
    pub fn header(&self, key: &str) -> (value: Option<&str>)
        ensures
            match value {
                Some(text) => header_text(self@.headers, key@) == Some(text@),
                None => header_text(self@.headers, key@) is None,
            },
    {
        match self.header_raw(key) {
            Some(raw) => match from_utf8(raw) {
                Some(text) => Some(trim_str(text)),
                None => None,
            },
            None => None,
        }
    }

    /// Like `header`, but lowercases the returned value (ASCII) into an owned `String`.
    ///
    /// This is useful for token-ish header values where case-insensitivity applies
    /// (e.g. media types, `chunked`, `keep-alive`). Do **not** use this for
    /// case-sensitive values like bearer tokens.
    pub fn header_lowercase(&self, key: &str) -> (value: Option<String>)
        ensures
            match value {
                Some(text) => header_text(self@.headers, key@) matches Some(found) && text@
                    == ascii_lowercase(found),
                None => header_text(self@.headers, key@) is None,
            },
    {
        match self.header(key) {
            Some(text) => {
                let chars = chars_of(text);
                let lower = ascii_lowercase_chars(chars.as_slice());
                Some(string_of(lower.as_slice()))
            },
            None => None,
        }
    }

    /// Whether the body comes in chunks. Accepts comma-separated codings, any
    /// casing, extra whitespace, e.g. `gzip, chunked`.
    pub fn is_chunked(&self) -> (yes: bool)
        ensures
            yes == chunked_body(self@.headers),
    {
        match self.header("transfer-encoding") {
            Some(codings) => lists_chunked(codings),
            None => false,
        }
    }

    /// The length of the body, where a header gives it.
    pub fn content_length(&self) -> (length: Option<u64>)
        ensures
            length == length_of_body(self@.headers),
    {
        match self.header("content-length") {
            Some(text) => {
                let chars = chars_of(text);
                parse_u64(chars.as_slice())
            },
            None => None,
        }
    }

    /// What the body is.
    pub fn content_type(&self) -> (content: Result<ContentType, ContentTypeError>)
        ensures
            content_view(content) == content_type_in(self@.headers),
    {
        match self.header("content-type") {
            Some(text) => parse_content_type(text),
            None => Err(ContentTypeError::Missing),
        }
    }

    /// The request that `req_buf` holds, if its head is `head`.
    pub fn from_head(req_buf: Vec<u8>, head: Option<ParsedHead>) -> (request: Result<
        Self,
        RequestError,
    >)
        ensures
            request_view(request) == request_of(req_buf@, head_view(head)),
    {
        let head = match head {
            Some(head) => head,
            None => {
                return Err(RequestError::Partial);
            },
        };
        let method = match head.method {
            Some(method) => method,
            None => {
                return Err(RequestError::MissingMethod);
            },
        };
        let path = match head.path {
            Some(path) => path,
            None => {
                return Err(RequestError::MissingPath);
            },
        };
        let version: u8 = match head.version {
            Some(version) => version,
            None => {
                return Err(RequestError::MissingVersion);
            },
        };
        if any_unnamed(&head.headers) {
            return Err(RequestError::EmptyHeaderName);
        }
        Ok(
            OwnedRequest {
                method,
                path,
                version,
                headers: head.headers,
                body_offset: head.body_offset,
                buf: req_buf,
            },
        )
    }

    /// Parses the request that `req_buf` holds.
    pub fn from_buf(req_buf: Vec<u8>) -> (request: Result<Self, RequestError>)
        ensures
            request_view(request) == request_in(req_buf@),
            request matches Ok(found) ==> {
                &&& found.wf()
                &&& found.buf@ == req_buf@
                &&& found.headers@.len() <= MAX_HEADERS
                &&& !has_unnamed(found@.headers)
                &&& head_ends(req_buf@, found.body_offset as int, MAX_HEADERS as nat)
            },
    {
        match parse_head(req_buf.as_slice(), MAX_HEADERS) {
            Ok(head) => {
                let request = Self::from_head(req_buf, head);
                assert(request is Ok ==> request->Ok_0@.headers.len()
                    == request->Ok_0.headers@.len());
                assert(head is Some ==> head->0@.headers.len() == head->0.headers@.len());
                request
            },
            Err(_) => Err(RequestError::Malformed),
        }
    }
}

/// A head that may be missing, with texts as their characters.
pub open spec fn head_view(head: Option<ParsedHead>) -> Option<HeadView> {
    match head {
        Some(head) => Some(head@),
        None => None,
    }
}

/// A result, with the view of what it holds.
pub open spec fn request_view(result: Result<OwnedRequest, RequestError>) -> Result<
    RequestView,
    RequestError,
> {
    match result {
        Ok(request) => Ok(request@),
        Err(error) => Err(error),
    }
}

/// How far the head of a request has arrived.
#[derive(Debug, Clone, Copy, PartialEq, Eq, Structural)]
pub enum HeadStatus {
    /// All of it.
    Complete,
    /// Not all of it.
    Partial,
    /// It cannot be parsed.
    Malformed,
}

/// Tells whether the head of the request in `buf` has arrived.
pub fn head_status(buf: &[u8]) -> (status: HeadStatus)
    ensures
        status == match request_head(buf@, MAX_HEADERS as nat) {
            Err(_) => HeadStatus::Malformed,
            Ok(None) => HeadStatus::Partial,
            Ok(Some(_)) => HeadStatus::Complete,
        },
{
    match parse_head(buf, MAX_HEADERS) {
        Ok(Some(_)) => HeadStatus::Complete,
        Ok(None) => HeadStatus::Partial,
        Err(_) => HeadStatus::Malformed,
    }
}

/// Header names are looked up whatever the case of their letters.
pub proof fn law_header_names_ignore_case(
    headers: Seq<(Seq<char>, Seq<u8>)>,
    key: Seq<char>,
    other: Seq<char>,
)
    requires
        same_name(key, other),
    ensures
        header_value(headers, key) == header_value(headers, other),
        header_text(headers, key) == header_text(headers, other),
    decreases headers.len(),
{
    if headers.len() > 0 {
        law_header_names_ignore_case(headers.skip(1), key, other);
    }
}

/// Of several headers with one name, the first one counts.
pub proof fn law_the_first_header_counts(
    before: Seq<(Seq<char>, Seq<u8>)>,
    header: (Seq<char>, Seq<u8>),
    after: Seq<(Seq<char>, Seq<u8>)>,
    key: Seq<char>,
)
    requires
        same_name(header.0, key),
        forall|i: int| 0 <= i < before.len() ==> !same_name(#[trigger] before[i].0, key),
    ensures
        header_value(before + seq![header] + after, key) == Some(header.1),
    decreases before.len(),
{
    let all = before + seq![header] + after;
    if before.len() > 0 {
        assert(all[0] == before[0]);
        let rest = before.skip(1);
        assert forall|i: int| 0 <= i < rest.len() implies !same_name(#[trigger] rest[i].0, key) by {
            assert(rest[i] == before[i + 1]);
        }
        law_the_first_header_counts(rest, header, after, key);
        assert(all.skip(1) =~= rest + seq![header] + after);
    }
}

/// Codings are a list: a body comes in chunks if one of two lists that are
/// joined by a comma says so.
pub proof fn law_codings_are_a_list(a: Seq<char>, b: Seq<char>)
    ensures
        names_chunked(a + seq![','] + b) == (names_chunked(a) || names_chunked(b)),
{
    let all = split_at_char(a + seq![','] + b, ',');
    let left = split_at_char(a, ',');
    let right = split_at_char(b, ',');
    lemma_split_join(a, ',', b);
    if names_chunked(a) {
        let i = choose|i: int|
            0 <= i < left.len() && same_name(trimmed(#[trigger] left[i]), "chunked"@);
        assert(all[i] == left[i]);
    }
    if names_chunked(b) {
        let i = choose|i: int|
            0 <= i < right.len() && same_name(trimmed(#[trigger] right[i]), "chunked"@);
        assert(all[left.len() + i] == right[i]);
    }
    if names_chunked(a + seq![','] + b) {
        let i = choose|i: int|
            0 <= i < all.len() && same_name(trimmed(#[trigger] all[i]), "chunked"@);
        if i < left.len() {
            assert(left[i] == all[i]);
        } else {
            assert(right[i - left.len()] == all[i]);
        }
    }
}

/// The request that `from_buf` makes of `buf`.
pub open spec fn request_in(buf: Seq<u8>) -> Result<RequestView, RequestError> {
    match request_head(buf, MAX_HEADERS as nat) {
        Err(_) => Err(RequestError::Malformed),
        Ok(head) => request_of(buf, head),
    }
}

/// A request is one with the last byte of its head: less of the head is
/// refused, and what follows it changes nothing but the bytes that are kept.
pub proof fn law_a_request_ends_with_its_head(buf: Seq<u8>, end: int, k: int, more: Seq<u8>)
    ensures
        head_ends(buf, end, MAX_HEADERS as nat) && request_in(buf) is Ok ==> {
            &&& 0 <= k < end ==> request_in(buf.take(k)) is Err
            &&& request_in(buf.take(end) + more) == Ok::<RequestView, RequestError>(
                (RequestView { buf: buf.take(end) + more, ..request_in(buf)->Ok_0 }),
            )
        },
{
}

} // verus!
