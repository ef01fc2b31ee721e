//! What holds of every answer of the server.

use crate::fs::embedded::{tail_from, EmbeddedFileSystem};
use crate::fs::local::{stays_within, Directory};
use crate::fs::package::{lemma_entry_among, PackageView};
use crate::fs::{
    may_say_file, may_say_modified, may_say_opened, may_say_size, may_say_valid, FileSystem,
};
use crate::http::{
    content_range_text, http_date_parsed, path_below, selected_range, RequestView, ResponseView,
    Status,
};
use crate::io::bounded;
use crate::outside::gzip_bytes;
use crate::range::RangeView;
use crate::server::{
    accepts_gzip, handled, not_modified, path_response, range_body, served, start_of, with_status,
    Answers,
};
use crate::text::decimal_text;
use vstd::prelude::*;

verus! {

/// The server answers this request itself, and the path below the serving
/// prefix is `path`.
pub open spec fn handles(
    prefix: Seq<char>,
    request: RequestView,
    before: ResponseView,
    path: Seq<char>,
) -> bool {
    handled(prefix, request, before) && path_below(prefix, request.uri) == Some(path)
}

/// The backend says of `path` that it is valid, or that it is not, and
/// nothing else.
pub open spec fn says_valid<T: FileSystem>(fs: &T, path: Seq<char>, valid: bool) -> bool {
    forall|b: bool| #[trigger] may_say_valid(fs, path, b) ==> b == valid
}

/// The backend says of `path` that it is a file, or that it is not, and
/// nothing else.
pub open spec fn says_file<T: FileSystem>(fs: &T, path: Seq<char>, file: bool) -> bool {
    forall|b: bool| #[trigger] may_say_file(fs, path, b) ==> b == file
}

/// The backend gives `modified` for `path` and nothing else.
pub open spec fn says_modified<T: FileSystem>(
    fs: &T,
    path: Seq<char>,
    modified: Option<i64>,
) -> bool {
    forall|m: Option<i64>| #[trigger] may_say_modified(fs, path, m) ==> m == modified
}

/// The backend gives `size` for `path` and nothing else.
pub open spec fn says_size<T: FileSystem>(fs: &T, path: Seq<char>, size: Option<u64>) -> bool {
    forall|s: Option<u64>| #[trigger] may_say_size(fs, path, s) ==> s == size
}

/// The backend gives `bytes` for `path` opened at `start` and nothing else.
pub open spec fn says_opened<T: FileSystem>(
    fs: &T,
    path: Seq<char>,
    start: u64,
    bytes: Option<Seq<u8>>,
) -> bool {
    forall|b: Option<Seq<u8>>| #[trigger] may_say_opened(fs, path, start, b) ==> b == bytes
}

/// The backend has a file at `path` and knows when it was modified and how
/// large it is.
pub open spec fn has_file<T: FileSystem>(
    fs: &T,
    path: Seq<char>,
    modified: i64,
    size: u64,
) -> bool {
    &&& says_valid(fs, path, true)
    &&& says_file(fs, path, true)
    &&& says_modified(fs, path, Some(modified))
    &&& says_size(fs, path, Some(size))
}

/// What an archive says of a path: every path is valid, and the rest
/// follows from the index and the data region.
pub proof fn lemma_archive_says(fs: &EmbeddedFileSystem, path: Seq<char>, start: u64)
    ensures
        says_valid(fs, path, true),
        says_file(fs, path, fs.package().entry(path) is Some),
        says_modified(
            fs,
            path,
            match fs.package().entry(path) {
                Some(entry) => Some(entry.last_modified),
                None => None,
            },
        ),
        says_size(
            fs,
            path,
            match fs.package().entry(path) {
                Some(entry) => Some(entry.length),
                None => None,
            },
        ),
        says_opened(
            fs,
            path,
            start,
            match fs.package().content(path) {
                Some(content) => Some(tail_from(content, start)),
                None => None,
            },
        ),
{
}

/// What an archive answers in the course of a request for `path`.
pub open spec fn archive_answers(
    package: PackageView,
    path: Seq<char>,
    request: RequestView,
) -> Answers {
    match package.entry(path) {
        Some(entry) => Answers {
            valid: true,
            file: true,
            modified: Some(entry.last_modified),
            size: Some(entry.length),
            opened: Some(
                tail_from(
                    package.content(path).unwrap(),
                    start_of(selected_range(request.range, entry.length)),
                ),
            ),
        },
        None => Answers { valid: true, file: false, modified: None, size: None, opened: None },
    }
}

/// The answer of a server over an archive is a function of the package,
/// the request and the response that the host hands over: the answers of
/// the backend are those of the index and the data region.
pub proof fn law_archive_answer(
    fs: &EmbeddedFileSystem,
    prefix: Seq<char>,
    request: RequestView,
    before: ResponseView,
    after: ResponseView,
    path: Seq<char>,
)
    requires
        served(fs, prefix, request, before, after),
        handles(prefix, request, before, path),
    ensures
        after == path_response(path, request, before, archive_answers(fs.package(), path, request)),
{
    lemma_archive_says(fs, path, 0);
    if let Some(entry) = fs.package().entry(path) {
        lemma_archive_says(fs, path, start_of(selected_range(request.range, entry.length)));
    }
}

/// The bytes of a file in an archive are as many as its entry says.
proof fn lemma_content_len(fs: &EmbeddedFileSystem, path: Seq<char>)
    requires
        fs.package().well_formed(),
        fs.package().entry(path) is Some,
    ensures
        fs.package().content(path).unwrap().len() == fs.package().entry(path).unwrap().length,
{
    let package = fs.package();
    lemma_entry_among(package.records, path);
    let entry = package.entry(path).unwrap();
    let i = choose|i: int| 0 <= i < package.records.len() && package.records[i] == entry;
    assert(package.records[i].within(package.data.len()));
}

/// The server leaves alone every response that is not Not Found, every
/// request that is neither `GET` nor `HEAD`, and every path that does not
/// begin with the serving prefix.
pub proof fn law_defers<T: FileSystem>(
    fs: &T,
    prefix: Seq<char>,
    request: RequestView,
    before: ResponseView,
    after: ResponseView,
)
    requires
        served(fs, prefix, request, before, after),
        !handled(prefix, request, before),
    ensures
        after == before,
{
}

/// Traversal defense. A path that leaves the root of the backend is
/// answered with Forbidden, and nothing but the status is touched: no byte
/// of any file is served.
pub proof fn law_outside_root_is_forbidden<T: FileSystem>(
    fs: &T,
    prefix: Seq<char>,
    request: RequestView,
    before: ResponseView,
    after: ResponseView,
    path: Seq<char>,
)
    requires
        served(fs, prefix, request, before, after),
        handles(prefix, request, before, path),
        says_valid(fs, path, false),
    ensures
        after == with_status(before, Status::Forbidden),
{
}

/// Traversal defense. A path that, joined onto the root of a directory and
/// resolved, lies outside that root is answered with Forbidden, whatever
/// the disk holds.
pub proof fn law_escape_from_directory_is_forbidden<D: FileSystem>(
    fs: &Directory<D>,
    prefix: Seq<char>,
    request: RequestView,
    before: ResponseView,
    after: ResponseView,
    path: Seq<char>,
)
    requires
        served(fs, prefix, request, before, after),
        handles(prefix, request, before, path),
        !stays_within(fs.root(), path),
    ensures
        after == with_status(before, Status::Forbidden),
{
    law_outside_root_is_forbidden(fs, prefix, request, before, after, path);
}

/// Traversal defense. A path that the index of an archive does not hold is
/// answered with Not Found, and nothing else is touched.
pub proof fn law_unknown_to_archive_is_not_found(
    fs: &EmbeddedFileSystem,
    prefix: Seq<char>,
    request: RequestView,
    before: ResponseView,
    after: ResponseView,
    path: Seq<char>,
)
    requires
        served(fs, prefix, request, before, after),
        handles(prefix, request, before, path),
        fs.package().entry(path) is None,
    ensures
        after == with_status(before, Status::NotFound),
{
    lemma_archive_says(fs, path, 0);
}

/// `HEAD` semantics. The answer to a `HEAD` request for a file of known
/// size announces that size and has no body.
pub proof fn law_head<T: FileSystem>(
    fs: &T,
    prefix: Seq<char>,
    request: RequestView,
    before: ResponseView,
    after: ResponseView,
    path: Seq<char>,
    size: u64,
)
    requires
        served(fs, prefix, request, before, after),
        handles(prefix, request, before, path),
        request.method is Head,
        says_valid(fs, path, true),
        says_file(fs, path, true),
        says_size(fs, path, Some(size)),
    ensures
        after.status == Status::Success,
        after.content_length == Some(decimal_text(size as nat)),
        after.accept_ranges == Some("bytes"@),
        after.body is None,
{
}

/// `HEAD` semantics. For a file in an archive the size announced is the
/// number of its bytes.
pub proof fn law_head_of_archive(
    fs: &EmbeddedFileSystem,
    prefix: Seq<char>,
    request: RequestView,
    before: ResponseView,
    after: ResponseView,
    path: Seq<char>,
    content: Seq<u8>,
)
    requires
        fs.package().well_formed(),
        served(fs, prefix, request, before, after),
        handles(prefix, request, before, path),
        request.method is Head,
        fs.package().content(path) == Some(content),
    ensures
        after.status == Status::Success,
        after.content_length == Some(decimal_text(content.len())),
        after.body is None,
{
    lemma_archive_says(fs, path, 0);
    lemma_content_len(fs, path);
    law_head(fs, prefix, request, before, after, path, fs.package().entry(path).unwrap().length);
}

/// Conditional cache. A `GET` request whose `If-Modified-Since` header
/// names the second at which the file was last modified is answered with
/// Not Modified and without a body.
pub proof fn law_not_modified<T: FileSystem>(
    fs: &T,
    prefix: Seq<char>,
    request: RequestView,
    before: ResponseView,
    after: ResponseView,
    path: Seq<char>,
    modified: i64,
    since: Seq<char>,
)
    requires
        served(fs, prefix, request, before, after),
        handles(prefix, request, before, path),
        request.method is Get,
        says_valid(fs, path, true),
        says_file(fs, path, true),
        says_modified(fs, path, Some(modified)),
        request.if_modified_since == Some(since),
        http_date_parsed(since) == Some(modified),
    ensures
        after.status == Status::NotModified,
        after.body is None,
{
}

/// Conditional cache. A `GET` request whose `If-Modified-Since` header
/// names another second, or none, is answered with the file: without a
/// `Range` header and without compression, with all of its bytes and the
/// status OK.
pub proof fn law_modified_is_served<T: FileSystem>(
    fs: &T,
    prefix: Seq<char>,
    request: RequestView,
    before: ResponseView,
    after: ResponseView,
    path: Seq<char>,
    modified: i64,
    size: u64,
    bytes: Seq<u8>,
)
    requires
        served(fs, prefix, request, before, after),
        handles(prefix, request, before, path),
        request.method is Get,
        has_file(fs, path, modified, size),
        !not_modified(request.if_modified_since, modified),
        request.range is None,
        !accepts_gzip(request.accept_encoding),
        says_opened(fs, path, 0, Some(bytes)),
    ensures
        after.status == Status::Success,
        after.body == Some(bytes),
{
}

/// Range arithmetic. A `GET` request with a range that lies inside the
/// file is answered with Partial Content. The body holds no more bytes
/// than the range spans, and `Content-Length` is the number of bytes of
/// the body where it is not compressed.
pub proof fn law_range<T: FileSystem>(
    fs: &T,
    prefix: Seq<char>,
    request: RequestView,
    before: ResponseView,
    after: ResponseView,
    path: Seq<char>,
    modified: i64,
    size: u64,
    range: RangeView,
    bytes: Seq<u8>,
)
    requires
        served(fs, prefix, request, before, after),
        handles(prefix, request, before, path),
        request.method is Get,
        has_file(fs, path, modified, size),
        !not_modified(request.if_modified_since, modified),
        selected_range(request.range, size) == Some(range),
        !accepts_gzip(request.accept_encoding),
        says_opened(fs, path, range.start, Some(bytes)),
    ensures
        after.status == Status::PartialContent,
        after.body == Some(bounded(bytes, range.len() as nat)),
        bounded(bytes, range.len() as nat).len() <= range.len(),
        after.content_length == Some(decimal_text(bounded(bytes, range.len() as nat).len())),
        after.content_range == Some(content_range_text(range, size)),
{
}

/// Range arithmetic. For a file in an archive the body of the answer is
/// the bytes of the file from `start` to `end`, both included, and
/// `Content-Length` is `end - start + 1`.
pub proof fn law_range_of_archive(
    fs: &EmbeddedFileSystem,
    prefix: Seq<char>,
    request: RequestView,
    before: ResponseView,
    after: ResponseView,
    path: Seq<char>,
    content: Seq<u8>,
    range: RangeView,
)
    requires
        fs.package().well_formed(),
        served(fs, prefix, request, before, after),
        handles(prefix, request, before, path),
        request.method is Get,
        fs.package().content(path) == Some(content),
        !not_modified(request.if_modified_since, fs.package().entry(path).unwrap().last_modified),
        selected_range(request.range, fs.package().entry(path).unwrap().length) == Some(range),
        !accepts_gzip(request.accept_encoding),
    ensures
        range.start <= range.end < content.len(),
        after.status == Status::PartialContent,
        after.body == Some(content.subrange(range.start as int, range.end + 1)),
        after.content_length == Some(decimal_text((range.end - range.start + 1) as nat)),
{
    let entry = fs.package().entry(path).unwrap();
    let bytes = tail_from(content, range.start);
    lemma_archive_says(fs, path, range.start);
    lemma_content_len(fs, path);
    law_range(
        fs,
        prefix,
        request,
        before,
        after,
        path,
        entry.last_modified,
        entry.length,
        range,
        bytes,
    );
    assert(bounded(bytes, range.len() as nat) == content.subrange(
        range.start as int,
        range.end + 1,
    ));
}

/// Compression. Where the request accepts gzip and the encoder delivers,
/// the body of a `GET` answer is the gzip stream of the bytes that would
/// have been sent, `Content-Encoding` says so, and no `Content-Length` is
/// sent.
pub proof fn law_gzip<T: FileSystem>(
    fs: &T,
    prefix: Seq<char>,
    request: RequestView,
    before: ResponseView,
    after: ResponseView,
    path: Seq<char>,
    modified: i64,
    size: u64,
    bytes: Seq<u8>,
    packed: Seq<u8>,
)
    requires
        served(fs, prefix, request, before, after),
        handles(prefix, request, before, path),
        request.method is Get,
        has_file(fs, path, modified, size),
        !not_modified(request.if_modified_since, modified),
        accepts_gzip(request.accept_encoding),
        says_opened(fs, path, start_of(selected_range(request.range, size)), Some(bytes)),
        gzip_bytes(range_body(bytes, selected_range(request.range, size))) == Some(packed),
    ensures
        after.body == Some(packed),
        after.content_encoding == Some("gzip"@),
        after.content_length is None,
{
}

} // verus!
