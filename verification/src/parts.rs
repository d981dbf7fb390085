//! The parts of a multipart body, and what their headers say.

use vstd::prelude::*;
use vstd::utf8::{decode_utf8, valid_utf8};

use crate::seqs::until;
use crate::text::{begins_with, chars_of, contains_chars, contains_text, from_utf8, is_char, is_text, lines, lowercase, lowercase_chars, position_of, split_at_char, split_chars, split_lines, string_of, texts, to_lowercase, trim_whitespace, trimmed, unquote, unquoted};

verus! {

/// A text that may be missing.
pub open spec fn opt_text(text: Option<String>) -> Option<Seq<char>> {
    match text {
        Some(s) => Some(s@),
        None => None,
    }
}

/// Parsed MIME headers for a single multipart part.
#[derive(Debug, Clone)]
pub struct PartHeaders {
    /// The `name` parameter from `Content-Disposition`.
    pub name: Option<String>,
    /// The `filename` parameter from `Content-Disposition`, if present.
    pub filename: Option<String>,
    /// The `Content-Type` of this part (e.g. `application/json`).
    pub content_type: Option<String>,
}

/// [`PartHeaders`], with texts as their characters.
pub struct PartHeadersView {
    pub name: Option<Seq<char>>,
    pub filename: Option<Seq<char>>,
    pub content_type: Option<Seq<char>>,
}

impl View for PartHeaders {
    type V = PartHeadersView;

    open spec fn view(&self) -> PartHeadersView {
        PartHeadersView {
            name: opt_text(self.name),
            filename: opt_text(self.filename),
            content_type: opt_text(self.content_type),
        }
    }
}

/// Headers that say nothing.
pub open spec fn no_headers() -> PartHeadersView {
    PartHeadersView { name: None, filename: None, content_type: None }
}

impl Default for PartHeaders {
    fn default() -> (headers: Self)
        ensures
            headers@ == no_headers(),
    {
        PartHeaders { name: None, filename: None, content_type: None }
    }
}

/// How a completed part's body was stored.
#[derive(Debug)]
pub enum PartContent {
    /// Entire body buffered in memory, suitable for JSON and small payloads.
    Buffered(Vec<u8>),
    /// Body was incrementally written to a file on disk.
    StreamedToFile { path: String, bytes_written: u64 },
    /// Body was discarded without storing.
    Discarded,
}

/// [`PartContent`], with texts as their characters.
pub enum PartContentView {
    Buffered(Seq<u8>),
    StreamedToFile { path: Seq<char>, bytes_written: u64 },
    Discarded,
}

impl View for PartContent {
    type V = PartContentView;

    open spec fn view(&self) -> PartContentView {
        match self {
            PartContent::Buffered(data) => PartContentView::Buffered(data@),
            PartContent::StreamedToFile { path, bytes_written } => PartContentView::StreamedToFile {
                path: path@,
                bytes_written: *bytes_written,
            },
            PartContent::Discarded => PartContentView::Discarded,
        }
    }
}

/// A fully received multipart part.
#[derive(Debug)]
pub struct MultipartPart {
    pub headers: PartHeaders,
    pub content: PartContent,
}

/// [`MultipartPart`], with texts as their characters.
pub struct PartView {
    pub headers: PartHeadersView,
    pub content: PartContentView,
}

impl View for MultipartPart {
    type V = PartView;

    open spec fn view(&self) -> PartView {
        PartView { headers: self.headers@, content: self.content@ }
    }
}

/// Controls how each part's body is consumed.
#[derive(Debug, Clone)]
pub enum PartDisposition {
    /// Buffer the full body in memory (good for JSON, small payloads).
    Buffer,
    /// Stream the body incrementally to a file at the given path.
    /// The file is created when the part headers are parsed and written to
    /// as body chunks arrive; the full part is never held in memory.
    StreamToFile(String),
    /// Discard the body (skip over it without storing).
    Discard,
}

/// [`PartDisposition`], with texts as their characters.
pub enum DispositionView {
    Buffer,
    StreamToFile(Seq<char>),
    Discard,
}

impl View for PartDisposition {
    type V = DispositionView;

    open spec fn view(&self) -> DispositionView {
        match self {
            PartDisposition::Buffer => DispositionView::Buffer,
            PartDisposition::StreamToFile(path) => DispositionView::StreamToFile(path@),
            PartDisposition::Discard => DispositionView::Discard,
        }
    }
}

/// Decides how each part should be handled based on its headers.
///
/// Implement this yourself, or use a closure:
///
/// ```rust,ignore
/// let router = |h: &PartHeaders| -> PartDisposition {
///     match h.content_type.as_deref() {
///         Some(ct) if ct.contains("application/json") => PartDisposition::Buffer,
///         _ => PartDisposition::Discard,
///     }
/// };
/// ```
pub trait PartRouter: Send + Sized {
    /// Whether this router can be asked.
    spec fn ready(&self) -> bool;

    /// Whether this router may choose `disposition` for a part with `headers`,
    /// and be `after` from then on.
    spec fn routes(
        &self,
        headers: PartHeadersView,
        disposition: DispositionView,
        after: Self,
    ) -> bool;

    /// Chooses how the part with these headers is handled.
    fn route(&mut self, headers: &PartHeaders) -> (disposition: PartDisposition)
        requires
            old(self).ready(),
        ensures
            old(self).routes(headers@, disposition@, *final(self)),
            final(self).ready(),
    ;
}

impl<F> PartRouter for F where F: Fn(&PartHeaders) -> PartDisposition + Send {
    open spec fn ready(&self) -> bool {
        forall|headers: &PartHeaders| call_requires(*self, (headers,))
    }

    open spec fn routes(
        &self,
        headers: PartHeadersView,
        disposition: DispositionView,
        after: Self,
    ) -> bool {
        &&& after == *self
        &&& exists|h: &PartHeaders, d: PartDisposition|
            h@ == headers && d@ == disposition && #[trigger] call_ensures(*self, (h,), d)
    }

    fn route(&mut self, headers: &PartHeaders) -> (disposition: PartDisposition) {
        (*self)(headers)
    }
}

/// A closure that can be called with any headers can be asked, and chooses
/// what it returns.
pub proof fn law_closures_choose_what_they_return<F>(router: F) where
    F: Fn(&PartHeaders) -> PartDisposition + Send,

    requires
        forall|headers: &PartHeaders| call_requires(router, (headers,)),
    ensures
        PartRouter::ready(&router),
        forall|headers: PartHeadersView, disposition: DispositionView, after: F| #[trigger]
            PartRouter::routes(&router, headers, disposition, after) ==> after == router
                && exists|h: &PartHeaders, d: PartDisposition|
                h@ == headers && d@ == disposition && #[trigger] call_ensures(router, (h,), d),
{
}

/// Why no JSON can be read from a part.
#[derive(Debug, Clone, Copy, PartialEq, Eq, Structural)]
pub enum JsonError {
    /// The body was streamed to a file, and is to be read from there.
    Streamed,
    /// The body was discarded.
    Discarded,
}

impl MultipartPart {
    /// The bytes that hold a buffered part's JSON.
    ///
    /// Returns an error if the part was streamed to a file or discarded.
    pub fn json(&self) -> (data: Result<&[u8], JsonError>)
        ensures
            match self@.content {
                PartContentView::Buffered(bytes) => data is Ok && data->Ok_0@ == bytes,
                PartContentView::StreamedToFile { .. } => data == Err::<&[u8], JsonError>(
                    JsonError::Streamed,
                ),
                PartContentView::Discarded => data == Err::<&[u8], JsonError>(
                    JsonError::Discarded,
                ),
            },
    {
        match &self.content {
            PartContent::Buffered(data) => Ok(data.as_slice()),
            PartContent::StreamedToFile { .. } => Err(JsonError::Streamed),
            PartContent::Discarded => Err(JsonError::Discarded),
        }
    }

    /// Access the raw buffered bytes, if buffered.
    pub fn bytes(&self) -> (data: Option<&[u8]>)
        ensures
            match self@.content {
                PartContentView::Buffered(bytes) => data is Some && data->0@ == bytes,
                _ => data is None,
            },
    {
        match &self.content {
            PartContent::Buffered(data) => Some(data.as_slice()),
            _ => None,
        }
    }

    /// If the part was streamed to a file, returns the path.
    pub fn file_path(&self) -> (file: Option<&str>)
        ensures
            match self@.content {
                PartContentView::StreamedToFile { path, .. } => file is Some && file->0@ == path,
                _ => file is None,
            },
    {
        match &self.content {
            PartContent::StreamedToFile { path, .. } => Some(path.as_str()),
            _ => None,
        }
    }

    /// Number of bytes written to disk (0 if not file-streamed).
    pub fn file_bytes_written(&self) -> (n: u64)
        ensures
            n == match self@.content {
                PartContentView::StreamedToFile { bytes_written, .. } => bytes_written,
                _ => 0,
            },
    {
        match &self.content {
            PartContent::StreamedToFile { bytes_written, .. } => *bytes_written,
            _ => 0,
        }
    }

    /// The part's type is JSON.
    pub fn is_json(&self) -> (yes: bool)
        ensures
            yes == type_contains(self@.headers, "application/json"@),
    {
        self.content_type_contains("application/json")
    }

    /// The part's type is PDF.
    pub fn is_pdf(&self) -> (yes: bool)
        ensures
            yes == type_contains(self@.headers, "application/pdf"@),
    {
        self.content_type_contains("application/pdf")
    }

    /// The part's type is that of a word processor document.
    pub fn is_docx(&self) -> (yes: bool)
        ensures
            yes == type_contains(
                self@.headers,
                "application/vnd.openxmlformats-officedocument.wordprocessingml.document"@,
            ),
    {
        self.content_type_contains(
            "application/vnd.openxmlformats-officedocument.wordprocessingml.document",
        )
    }

    /// The part's type, in lower case, contains `needle`.
    pub fn content_type_contains(&self, needle: &str) -> (yes: bool)
        ensures
            yes == type_contains(self@.headers, needle@),
    {
        match &self.headers.content_type {
            Some(content_type) => {
                let lower = to_lowercase(content_type.as_str());
                contains_str(lower.as_str(), needle)
            },
            None => false,
        }
    }
}

/// A part with these headers has a type that, in lower case, contains `needle`.
pub open spec fn type_contains(headers: PartHeadersView, needle: Seq<char>) -> bool {
    headers.content_type matches Some(content_type) && contains_text(
        lowercase(content_type),
        needle,
    )
}

/// Whether `needle` stands somewhere in `s`.
pub fn contains_str(s: &str, needle: &str) -> (yes: bool)
    ensures
        yes == contains_text(s@, needle@),
{
    let chars = chars_of(s);
    let wanted = chars_of(needle);
    contains_chars(chars.as_slice(), wanted.as_slice())
}

/// The value of a parameter that `segment` gives, where `lower` is the segment
/// in lower case and `prefix` the name of the parameter with the equals sign.
pub open spec fn segment_value(
    segment: Seq<char>,
    lower: Seq<char>,
    prefix: Seq<char>,
) -> Option<Seq<char>> {
    if prefix.is_prefix_of(lower) && prefix.len() <= segment.len() {
        Some(unquoted(trimmed(segment.skip(prefix.len() as int))))
    } else {
        None
    }
}

/// The value that the first of `segments` to give the parameter gives.
pub open spec fn first_value(segments: Seq<Seq<char>>, prefix: Seq<char>) -> Option<Seq<char>>
    decreases segments.len(),
{
    if segments.len() == 0 {
        None
    } else {
        let segment = trimmed(segments[0]);
        match segment_value(segment, lowercase(segment), prefix) {
            Some(value) => Some(value),
            None => first_value(segments.skip(1), prefix),
        }
    }
}

/// The value of a parameter in a header value whose segments are separated by
/// semicolons.
pub open spec fn parameter(text: Seq<char>, prefix: Seq<char>) -> Option<Seq<char>> {
    first_value(split_at_char(text, ';'), prefix)
}

/// Reads a parameter off one segment: `lower` is the segment in lower case.
fn read_segment<'a>(segment: &'a [char], lower: &[char], prefix: &[char]) -> (value: Option<
    &'a [char],
>)
    ensures
        match value {
            Some(v) => segment_value(segment@, lower@, prefix@) == Some(v@),
            None => segment_value(segment@, lower@, prefix@) is None,
        },
{
    if begins_with(lower, prefix) && prefix.len() <= segment.len() {
        let rest = vstd::slice::slice_subrange(segment, prefix.len(), segment.len());
        assert(rest@ =~= segment@.skip(prefix@.len() as int));
        Some(unquote(trim_whitespace(rest)))
    } else {
        None
    }
}

/// Reads a parameter off a header value.
fn read_parameter(text: &[char], prefix: &[char]) -> (value: Option<String>)
    ensures
        opt_text(value) == parameter(text@, prefix@),
{
    let segments = split_chars(text, ';');
    let ghost all = texts(segments@);
    let mut i: usize = 0;
    assert(all.skip(0) =~= all);
    while i < segments.len()
        invariant
            i <= segments@.len(),
            all == texts(segments@),
            all == split_at_char(text@, ';'),
            first_value(all.skip(i as int), prefix@) == parameter(text@, prefix@),
        decreases segments@.len() - i,
    {
        let segment = trim_whitespace(segments[i]);
        let lower = lowercase_chars(segment);
        assert(all.skip(i as int)[0] == segments@[i as int]@);
        assert(all.skip(i as int).skip(1) =~= all.skip(i + 1));
        match read_segment(segment, lower.as_slice(), prefix) {
            Some(value) => {
                return Some(string_of(value));
            },
            None => {},
        }
        i += 1;
    }
    None
}

/// Why a content type gives no boundary.
#[derive(Debug, Clone, Copy, PartialEq, Eq, Structural)]
pub enum BoundaryError {
    /// The type is not multipart.
    NotMultipart,
    /// There is no boundary parameter.
    Missing,
    /// The boundary is empty.
    Empty,
}

/// The boundary that a `Content-Type` header value gives.
pub open spec fn boundary_of(content_type: Seq<char>) -> Result<Seq<char>, BoundaryError> {
    if !contains_text(lowercase(content_type), "multipart/"@) {
        Err(BoundaryError::NotMultipart)
    } else {
        match parameter(content_type, "boundary="@) {
            None => Err(BoundaryError::Missing),
            Some(boundary) => if boundary.len() == 0 {
                Err(BoundaryError::Empty)
            } else {
                Ok(boundary)
            },
        }
    }
}

/// Extract the `boundary` parameter from a `Content-Type` header value.
///
/// ```text
/// multipart/form-data; boundary=----WebKitFormBoundary7MA4YWxk
/// ```
pub fn extract_boundary(content_type: &str) -> (boundary: Result<String, BoundaryError>)
    ensures
        match boundary_of(content_type@) {
            Ok(b) => boundary is Ok && boundary->Ok_0@ == b,
            Err(error) => boundary == Err::<String, BoundaryError>(error),
        },
{
    let lower = to_lowercase(content_type);
    if !contains_str(lower.as_str(), "multipart/") {
        return Err(BoundaryError::NotMultipart);
    }
    let text = chars_of(content_type);
    let prefix = chars_of("boundary=");
    match read_parameter(text.as_slice(), prefix.as_slice()) {
        None => Err(BoundaryError::Missing),
        Some(value) => if value.as_str().is_empty() {
            Err(BoundaryError::Empty)
        } else {
            Ok(value)
        },
    }
}

/// The value of a parameter of a `Content-Disposition` value.
pub open spec fn disposition_param(value: Seq<char>, name: Seq<char>) -> Option<Seq<char>> {
    parameter(value, lowercase(name).push('='))
}

/// Extract a named parameter from a `Content-Disposition` value.
///
/// Handles both `param="quoted value"` and `param=token` forms.
fn extract_disposition_param(header_value: &[char], param_name: &str) -> (value: Option<
    String,
>)
    ensures
        opt_text(value) == disposition_param(header_value@, param_name@),
{
    let name = chars_of(param_name);
    let mut prefix = lowercase_chars(name.as_slice());
    prefix.push('=');
    read_parameter(header_value, prefix.as_slice())
}

/// The name of a header line, in lower case, and its value.
pub open spec fn header_line(line: Seq<char>) -> Option<(Seq<char>, Seq<char>)> {
    let text = trimmed(line);
    let colon = until(text, is_char(':'));
    if colon < text.len() {
        Some((lowercase(trimmed(text.take(colon as int))), trimmed(text.skip(colon as int + 1))))
    } else {
        None
    }
}

/// What a header with the name `key` adds to the headers of a part.
pub open spec fn with_header(
    headers: PartHeadersView,
    key: Seq<char>,
    value: Seq<char>,
) -> PartHeadersView {
    if key == "content-type"@ {
        PartHeadersView { content_type: Some(value), ..headers }
    } else if key == "content-disposition"@ {
        PartHeadersView {
            name: match disposition_param(value, "name"@) {
                Some(name) => Some(name),
                None => headers.name,
            },
            filename: match disposition_param(value, "filename"@) {
                Some(filename) => Some(filename),
                None => headers.filename,
            },
            ..headers
        }
    } else {
        headers
    }
}

/// What the lines of a header block add to the headers of a part.
pub open spec fn with_lines(headers: PartHeadersView, block: Seq<Seq<char>>) -> PartHeadersView
    decreases block.len(),
{
    if block.len() == 0 {
        headers
    } else {
        let next = match header_line(block[0]) {
            Some((key, value)) => with_header(headers, key, value),
            None => headers,
        };
        with_lines(next, block.skip(1))
    }
}

/// The headers that a header block gives, unless it is not valid UTF-8.
#[verifier::opaque]
pub open spec fn part_headers(raw: Seq<u8>) -> Option<PartHeadersView> {
    if valid_utf8(raw) {
        Some(with_lines(no_headers(), lines(decode_utf8(raw))))
    } else {
        None
    }
}

/// Adds one header to the headers of a part: `key` is its name in lower case.
pub fn add_header(headers: &mut PartHeaders, key: &[char], value: &[char])
    ensures
        final(headers)@ == with_header(old(headers)@, key@, value@),
{
    if is_text(key, "content-type") {
        headers.content_type = Some(string_of(value));
    } else if is_text(key, "content-disposition") {
        match extract_disposition_param(value, "name") {
            Some(name) => {
                headers.name = Some(name);
            },
            None => {},
        }
        match extract_disposition_param(value, "filename") {
            Some(filename) => {
                headers.filename = Some(filename);
            },
            None => {},
        }
    }
}

/// Parses the MIME headers of a single part. A block that is not valid UTF-8
/// gives none.
pub fn parse_part_headers(raw: &[u8]) -> (headers: Option<PartHeaders>)
    ensures
        match part_headers(raw@) {
            Some(view) => headers is Some && headers->0@ == view,
            None => headers is None,
        },
{
    proof {
        reveal(part_headers);
    }
    let text = match from_utf8(raw) {
        Some(text) => text,
        None => {
            return None;
        },
    };
    let chars = chars_of(text);
    let block = split_lines(chars.as_slice());
    let ghost all = texts(block@);
    let mut headers = PartHeaders::default();
    let mut i: usize = 0;
    assert(all.skip(0) =~= all);
    while i < block.len()
        invariant
            i <= block@.len(),
            all == texts(block@),
            with_lines(headers@, all.skip(i as int)) == with_lines(no_headers(), all),
        decreases block@.len() - i,
    {
        let line = trim_whitespace(block[i]);
        assert(all.skip(i as int)[0] == block@[i as int]@);
        assert(all.skip(i as int).skip(1) =~= all.skip(i + 1));
        let colon: usize = position_of(line, ':');
        if colon < line.len() {
            let name = trim_whitespace(vstd::slice::slice_subrange(line, 0, colon));
            let key = lowercase_chars(name);
            let value = trim_whitespace(
                vstd::slice::slice_subrange(line, colon + 1, line.len()),
            );
            assert(line@.subrange(0, colon as int) =~= line@.take(colon as int));
            assert(line@.subrange(colon + 1, line@.len() as int) =~= line@.skip(colon + 1));
            add_header(&mut headers, key.as_slice(), value);
        }
        i += 1;
    }
    assert(all.skip(i as int) =~= Seq::empty());
    Some(headers)
}

} // verus!
