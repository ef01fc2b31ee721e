//! The parts of a request and of a response that the server reads and
//! writes, as plain values, and the header formats that go with them.

use crate::outside::{format_timestamp, mime_for_extension, mime_text, parse_timestamp, timestamp_parsed, timestamp_text};
use crate::range::{parse_range, Range, RangeView};
use crate::text::{chars_of, decimal_text, has_prefix, matches_at, push_decimal};
use vstd::prelude::*;
use vstd::string::{StrSliceExecFns, StringExecFns};

verus! {

/// The pattern of the `Last-Modified` and `If-Modified-Since` headers.
pub const LAST_MODIFIED_DATE_FORMAT: &'static str = "%a, %d %b %Y %H:%M:%S GMT";

/// The method of a request.
#[derive(Debug, Clone, Copy, PartialEq, Eq, Structural)]
pub enum Method {
    Get,
    Head,
    Put,
    Post,
    Delete,
    Options,
    Trace,
    Connect,
    Patch,
}

/// The status of a response: the five that the server sets, and any other
/// that a response may arrive with.
#[derive(Debug, Clone, Copy, PartialEq, Eq, Structural)]
pub enum Status {
    Success,
    PartialContent,
    NotModified,
    Forbidden,
    NotFound,
    Other(u16),
}

impl Status {
    /// The numeric code of the status.
    pub open spec fn spec_code(self) -> u16 {
        match self {
            Status::Success => 200,
            Status::PartialContent => 206,
            Status::NotModified => 304,
            Status::Forbidden => 403,
            Status::NotFound => 404,
            Status::Other(code) => code,
        }
    }

    /// The numeric code of the status.
    pub fn code(&self) -> (code: u16)
        ensures
            code == self.spec_code(),
    {
        match self {
            Status::Success => 200,
            Status::PartialContent => 206,
            Status::NotModified => 304,
            Status::Forbidden => 403,
            Status::NotFound => 404,
            Status::Other(code) => *code,
        }
    }
}

/// The view of a header value that may be absent.
pub open spec fn text_view(value: Option<String>) -> Option<Seq<char>> {
    match value {
        Some(text) => Some(text@),
        None => None,
    }
}

/// What the server reads from a request.
#[derive(Debug)]
pub struct Request {
    pub method: Method,
    /// The path of the request URI.
    pub uri: String,
    /// The value of the `If-Modified-Since` header.
    pub if_modified_since: Option<String>,
    /// The value of the `Range` header.
    pub range: Option<String>,
    /// The value of the `Accept-Encoding` header.
    pub accept_encoding: Option<String>,
}

impl Request {
    /// A request for `uri` without any of the headers that the server
    /// reads.
    pub fn new(method: Method, uri: &str) -> (request: Request)
        ensures
            request@ == (RequestView {
                method,
                uri: uri@,
                if_modified_since: None,
                range: None,
                accept_encoding: None,
            }),
    {
        Request {
            method,
            uri: uri.to_owned(),
            if_modified_since: None,
            range: None,
            accept_encoding: None,
        }
    }
}

/// A `Request` as plain values.
pub struct RequestView {
    pub method: Method,
    pub uri: Seq<char>,
    pub if_modified_since: Option<Seq<char>>,
    pub range: Option<Seq<char>>,
    pub accept_encoding: Option<Seq<char>>,
}

impl View for Request {
    type V = RequestView;

    open spec fn view(&self) -> RequestView {
        RequestView {
            method: self.method,
            uri: self.uri@,
            if_modified_since: text_view(self.if_modified_since),
            range: text_view(self.range),
            accept_encoding: text_view(self.accept_encoding),
        }
    }
}

/// What the server writes to a response: the status, six headers and the
/// body.
#[derive(Debug)]
pub struct Response {
    pub status: Status,
    pub content_type: Option<String>,
    pub content_length: Option<String>,
    pub last_modified: Option<String>,
    pub accept_ranges: Option<String>,
    pub content_range: Option<String>,
    pub content_encoding: Option<String>,
    pub body: Option<Vec<u8>>,
}

/// A `Response` as plain values.
pub struct ResponseView {
    pub status: Status,
    pub content_type: Option<Seq<char>>,
    pub content_length: Option<Seq<char>>,
    pub last_modified: Option<Seq<char>>,
    pub accept_ranges: Option<Seq<char>>,
    pub content_range: Option<Seq<char>>,
    pub content_encoding: Option<Seq<char>>,
    pub body: Option<Seq<u8>>,
}

impl View for Response {
    type V = ResponseView;

    open spec fn view(&self) -> ResponseView {
        ResponseView {
            status: self.status,
            content_type: text_view(self.content_type),
            content_length: text_view(self.content_length),
            last_modified: text_view(self.last_modified),
            accept_ranges: text_view(self.accept_ranges),
            content_range: text_view(self.content_range),
            content_encoding: text_view(self.content_encoding),
            body: match self.body {
                Some(bytes) => Some(bytes@),
                None => None,
            },
        }
    }
}

impl Response {
    /// A response with the given status, no header and no body.
    pub fn new(status: Status) -> (response: Response)
        ensures
            response@ == (ResponseView {
                status,
                content_type: None,
                content_length: None,
                last_modified: None,
                accept_ranges: None,
                content_range: None,
                content_encoding: None,
                body: None,
            }),
    {
        Response {
            status,
            content_type: None,
            content_length: None,
            last_modified: None,
            accept_ranges: None,
            content_range: None,
            content_encoding: None,
            body: None,
        }
    }
}

/// The text of a `Last-Modified` header for the moment `secs` seconds after
/// the Unix epoch, where that moment can be written.
pub open spec fn http_date_text(secs: i64) -> Option<Seq<char>> {
    timestamp_text(secs, LAST_MODIFIED_DATE_FORMAT@)
}

/// The moment that an `If-Modified-Since` header names, in seconds after the
/// Unix epoch, where the header follows the pattern.
pub open spec fn http_date_parsed(text: Seq<char>) -> Option<i64> {
    timestamp_parsed(text, LAST_MODIFIED_DATE_FORMAT@)
}

/// Writes a modification time as the value of a `Last-Modified` header.
pub fn format_http_date(secs: i64) -> (r: Option<String>)
    ensures
        text_view(r) == http_date_text(secs),
{
    format_timestamp(secs, LAST_MODIFIED_DATE_FORMAT)
}

/// Reads the value of an `If-Modified-Since` header.
pub fn parse_http_date(text: &str) -> (r: Option<i64>)
    ensures
        r == http_date_parsed(text@),
{
    parse_timestamp(text, LAST_MODIFIED_DATE_FORMAT)
}

/// One past the position of the last `c` in `s`; 0 where there is none.
pub open spec fn after_last(s: Seq<char>, c: char) -> int
    decreases s.len(),
{
    if s.len() == 0 {
        0
    } else if s.last() == c {
        s.len() as int
    } else {
        after_last(s.drop_last(), c)
    }
}

/// The extension of the file that `path` names: the text after the last `.`
/// of the last `/`-separated segment. A segment without a `.`, or whose only
/// `.` is its first character, has none.
pub open spec fn extension_of(path: Seq<char>) -> Option<Seq<char>> {
    let name = path.skip(after_last(path, '/'));
    let dot = after_last(name, '.');
    if dot > 1 {
        Some(name.skip(dot))
    } else {
        None
    }
}

/// One past the position of the last `c` in `chars[from..]`.
fn find_last(chars: &Vec<char>, c: char, from: usize) -> (at: usize)
    requires
        from <= chars@.len(),
    ensures
        at == from + after_last(chars@.skip(from as int), c),
        from <= at <= chars@.len(),
{
    let mut i: usize = chars.len();
    assert(chars@.subrange(from as int, i as int) == chars@.skip(from as int));
    while i > from && chars[i - 1] != c
        invariant
            from <= i <= chars@.len(),
            after_last(chars@.skip(from as int), c) == after_last(
                chars@.subrange(from as int, i as int),
                c,
            ),
        decreases i,
    {
        assert(chars@.subrange(from as int, i as int).drop_last() == chars@.subrange(
            from as int,
            i - 1,
        ));
        i = i - 1;
    }
    i
}

/// The extension of the file that `path` names.
pub fn extension(path: &str) -> (r: Option<String>)
    ensures
        text_view(r) == extension_of(path@),
{
    let chars = chars_of(path);
    let name = find_last(&chars, '/', 0);
    assert(chars@.skip(0) == chars@);
    let dot = find_last(&chars, '.', name);
    if dot - name > 1 {
        let ext = path.substring_char(dot, chars.len()).to_owned();
        assert(ext@ == path@.skip(name as int).skip(dot - name));
        Some(ext)
    } else {
        None
    }
}

/// The media type for the file that `path` names, where it has an extension.
pub open spec fn content_type_of(path: Seq<char>) -> Option<Seq<char>> {
    match extension_of(path) {
        Some(ext) => Some(mime_text(ext)),
        None => None,
    }
}

/// Resolves the media type of a file from its extension.
pub fn content_type(path: &str) -> (r: Option<String>)
    ensures
        text_view(r) == content_type_of(path@),
{
    match extension(path) {
        Some(ext) => Some(mime_for_extension(ext.as_str())),
        None => None,
    }
}

/// The path that `uri` names below the serving prefix, where `uri` begins
/// with the prefix.
pub open spec fn path_below(prefix: Seq<char>, uri: Seq<char>) -> Option<Seq<char>> {
    if has_prefix(uri, prefix) {
        Some(uri.skip(prefix.len() as int))
    } else {
        None
    }
}

/// Strips the serving prefix from a request path.
pub fn strip_prefix(prefix: &str, uri: &str) -> (r: Option<String>)
    ensures
        text_view(r) == path_below(prefix@, uri@),
{
    let p = chars_of(prefix);
    let u = chars_of(uri);
    if matches_at(&u, &p, 0) {
        let rest = uri.substring_char(p.len(), u.len()).to_owned();
        assert(rest@ == uri@.skip(prefix@.len() as int));
        Some(rest)
    } else {
        None
    }
}

/// The range that a request asks for, out of a resource of `size` bytes.
///
/// A header that is absent, names several ranges, does not parse, or names
/// a range that does not lie inside the resource selects nothing: the whole
/// resource is then served.
pub open spec fn selected_range(header: Option<Seq<char>>, size: u64) -> Option<RangeView> {
    match header {
        Some(value) => match parse_range(value) {
            Ok(range) => if range.fits(size) {
                Some(range)
            } else {
                None
            },
            Err(_) => None,
        },
        None => None,
    }
}

/// Evaluates the `Range` header of a request against the size of the
/// resource.
pub fn select_range(header: &Option<String>, size: u64) -> (r: Option<Range>)
    ensures
        match r {
            Some(range) => selected_range(text_view(*header), size) == Some(range@),
            None => selected_range(text_view(*header), size) is None,
        },
{
    match header {
        Some(value) => match Range::parse(value.as_str()) {
            Ok(range) => if range.fits(size) {
                Some(range)
            } else {
                None
            },
            Err(_) => None,
        },
        None => None,
    }
}

/// The value of a `Content-Range` header: `<unit> <start>-<end>/<size>`.
pub open spec fn content_range_text(range: RangeView, size: u64) -> Seq<char> {
    range.typ + seq![' '] + decimal_text(range.start as nat) + seq!['-'] + decimal_text(
        range.end as nat,
    ) + seq!['/'] + decimal_text(size as nat)
}

/// Writes the value of a `Content-Range` header.
pub fn content_range(range: &Range, size: u64) -> (text: String)
    ensures
        text@ == content_range_text(range@, size),
{
    proof {
        reveal_strlit(" ");
        reveal_strlit("-");
        reveal_strlit("/");
    }
    let mut text = range.typ.clone();
    text.append(" ");
    assert(" "@ =~= seq![' ']);
    push_decimal(&mut text, range.start);
    text.append("-");
    assert("-"@ =~= seq!['-']);
    push_decimal(&mut text, range.end);
    text.append("/");
    assert("/"@ =~= seq!['/']);
    push_decimal(&mut text, size);
    text
}

} // verus!
