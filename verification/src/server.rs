//! The request pipeline: from a path, the conditional headers and the range
//! header to the status, the headers and the bytes of the response.

use crate::error::Error;
use crate::fs::{
    may_say_file, may_say_modified, may_say_opened, may_say_size, may_say_valid, FileSystem,
};
use crate::http::{
    content_range, content_range_text, content_type, content_type_of, format_http_date,
    http_date_parsed, http_date_text, parse_http_date, path_below, select_range, selected_range,
    strip_prefix, text_view, Method, Request, RequestView, Response, ResponseView, Status,
};
use crate::io::{bounded, limit_bytes};
use crate::outside::{gzip, gzip_bytes};
use crate::range::{Range, RangeView};
use crate::text::{chars_of, contains, contains_text, decimal_string, decimal_text};
use vstd::prelude::*;
use vstd::string::StringExecFns;

verus! {

/// The serving prefix that a server is made with: `prefix` itself where it
/// ends with `/`, else `prefix` with a `/` behind it.
pub open spec fn closed_prefix(prefix: Seq<char>) -> Seq<char> {
    if prefix.len() > 0 && prefix.last() == '/' {
        prefix
    } else {
        prefix.push('/')
    }
}

/// The response with only its status replaced.
pub open spec fn with_status(response: ResponseView, status: Status) -> ResponseView {
    ResponseView { status, ..response }
}

/// The response with its content type set, where there is one to set.
pub open spec fn with_content_type(
    response: ResponseView,
    content_type: Option<Seq<char>>,
) -> ResponseView {
    match content_type {
        Some(_) => ResponseView { content_type, ..response },
        None => response,
    }
}

/// The request carries an `If-Modified-Since` header that names exactly the
/// second at which the resource was last modified.
pub open spec fn not_modified(since: Option<Seq<char>>, modified: i64) -> bool {
    since matches Some(text) && http_date_parsed(text) == Some(modified)
}

/// The request accepts a gzip body: its `Accept-Encoding` header holds the
/// text `gzip`.
pub open spec fn accepts_gzip(accept_encoding: Option<Seq<char>>) -> bool {
    accept_encoding matches Some(text) && contains_text(text, "gzip"@)
}

/// The answer to a `HEAD` request for a file of `size` bytes: the size and
/// the support for ranges are announced, and there is no body.
pub open spec fn head_response(response: ResponseView, size: u64) -> ResponseView {
    ResponseView {
        status: Status::Success,
        accept_ranges: Some("bytes"@),
        content_length: Some(decimal_text(size as nat)),
        body: None,
        ..response
    }
}

/// The bytes to send of a stream that was opened at the start of the range:
/// no more than the range spans.
pub open spec fn range_body(bytes: Seq<u8>, range: Option<RangeView>) -> Seq<u8> {
    match range {
        Some(r) => bounded(bytes, r.len() as nat),
        None => bytes,
    }
}

/// The answer to a `GET` request once the file is open.
///
/// `bytes` is the file from the start of the range, `packed` is what the
/// gzip encoder made of the bytes to send. With a range the status is
/// Partial Content and `Content-Range` is set. `Content-Length` is sent with
/// a range and an uncompressed body only.
pub open spec fn body_response(
    response: ResponseView,
    bytes: Seq<u8>,
    range: Option<RangeView>,
    size: u64,
    modified: i64,
    gzip_wanted: bool,
    packed: Option<Seq<u8>>,
) -> ResponseView {
    let plain = range_body(bytes, range);
    let compressed = gzip_wanted && packed is Some;
    ResponseView {
        status: if range is Some {
            Status::PartialContent
        } else {
            Status::Success
        },
        content_type: response.content_type,
        accept_ranges: Some("bytes"@),
        last_modified: http_date_text(modified),
        content_range: match range {
            Some(r) => Some(content_range_text(r, size)),
            None => None,
        },
        content_length: if range is Some && !compressed {
            Some(decimal_text(plain.len()))
        } else {
            None
        },
        content_encoding: if compressed {
            Some("gzip"@)
        } else {
            None
        },
        body: if compressed {
            packed
        } else {
            Some(plain)
        },
    }
}

/// The position at which the backend is asked to open the file.
pub open spec fn start_of(range: Option<RangeView>) -> u64 {
    match range {
        Some(r) => r.start,
        None => 0,
    }
}

/// What a backend answered in the course of one request. An answer that
/// was not asked for does not count.
pub struct Answers {
    /// Whether the path stays inside the root.
    pub valid: bool,
    /// Whether the path names a regular file.
    pub file: bool,
    /// The modification time, where the backend gave one.
    pub modified: Option<i64>,
    /// The size, where the backend gave one.
    pub size: Option<u64>,
    /// The bytes from the start of the range, where the backend opened the
    /// file.
    pub opened: Option<Seq<u8>>,
}

/// The answer to a `GET` request for a file that exists.
pub open spec fn get_response(
    request: RequestView,
    response: ResponseView,
    answers: Answers,
) -> ResponseView {
    match answers.modified {
        None => with_status(response, Status::Forbidden),
        Some(modified) => if not_modified(request.if_modified_since, modified) {
            ResponseView { status: Status::NotModified, body: None, ..response }
        } else {
            match answers.size {
                None => with_status(response, Status::Forbidden),
                Some(size) => {
                    let range = selected_range(request.range, size);
                    match answers.opened {
                        None => with_status(response, Status::Forbidden),
                        Some(bytes) => body_response(
                            response,
                            bytes,
                            range,
                            size,
                            modified,
                            accepts_gzip(request.accept_encoding),
                            gzip_bytes(range_body(bytes, range)),
                        ),
                    }
                },
            }
        },
    }
}

/// The answer to a request for `path`, the request path below the prefix,
/// given what the backend answered.
///
/// A path outside the root is Forbidden, a path that names no file is Not
/// Found. The content type follows from the extension. A `HEAD` request is
/// answered from the size alone. Whatever the backend cannot tell of a file
/// that it has is Forbidden.
pub open spec fn path_response(
    path: Seq<char>,
    request: RequestView,
    response: ResponseView,
    answers: Answers,
) -> ResponseView {
    if !answers.valid {
        with_status(response, Status::Forbidden)
    } else if !answers.file {
        with_status(response, Status::NotFound)
    } else {
        let typed = with_content_type(response, content_type_of(path));
        if request.method is Head {
            match answers.size {
                None => with_status(typed, Status::Forbidden),
                Some(size) => head_response(typed, size),
            }
        } else {
            get_response(request, typed, answers)
        }
    }
}

/// The answers are what the backend can say to the questions that the
/// request puts to it, each question only where the answers before it lead
/// to it: whether the path is valid; whether it names a file; for `HEAD` the
/// size; for `GET` the modification time, then, unless that settles it, the
/// size, and then the bytes from the start of the range.
pub open spec fn asked<T: FileSystem>(
    fs: &T,
    path: Seq<char>,
    request: RequestView,
    answers: Answers,
) -> bool {
    &&& may_say_valid(fs, path, answers.valid)
    &&& answers.valid ==> may_say_file(fs, path, answers.file)
    &&& answers.valid && answers.file ==> if request.method is Head {
        may_say_size(fs, path, answers.size)
    } else {
        &&& may_say_modified(fs, path, answers.modified)
        &&& match answers.modified {
            Some(modified) => !not_modified(request.if_modified_since, modified) ==> {
                &&& may_say_size(fs, path, answers.size)
                &&& match answers.size {
                    Some(size) => may_say_opened(
                        fs,
                        path,
                        start_of(selected_range(request.range, size)),
                        answers.opened,
                    ),
                    None => true,
                }
            },
            None => true,
        }
    }
}

/// The server answers this request itself: the response is Not Found so
/// far, the method is `GET` or `HEAD`, and the path begins with the serving
/// prefix.
pub open spec fn handled(prefix: Seq<char>, request: RequestView, before: ResponseView) -> bool {
    &&& before.status == Status::NotFound
    &&& request.method is Get || request.method is Head
    &&& path_below(prefix, request.uri) is Some
}

/// `after` is what the server makes of the response `before` that the host
/// hands to it.
///
/// The server only acts on a response that is Not Found so far, for a `GET`
/// or `HEAD` request whose path begins with the serving prefix. Any other
/// response is left as it is. Where it acts, the response is
/// `path_response` for answers that the backend can give.
pub open spec fn served<T: FileSystem>(
    fs: &T,
    prefix: Seq<char>,
    request: RequestView,
    before: ResponseView,
    after: ResponseView,
) -> bool {
    if before.status != Status::NotFound || !(request.method is Get || request.method is Head) {
        after == before
    } else {
        match path_below(prefix, request.uri) {
            None => after == before,
            Some(path) => exists|answers: Answers| #[trigger]
                asked(fs, path, request, answers) && after == path_response(
                    path,
                    request,
                    before,
                    answers,
                ),
        }
    }
}

/// Builds the answer to a `GET` request from the opened file.
///
/// `packed` is what the gzip encoder returned for the bytes to send, where
/// it was asked; it is only looked at where `gzip_wanted` holds.
pub fn finish_body(
    response: &mut Response,
    plain: Vec<u8>,
    range: Option<Range>,
    size: u64,
    last_modified: Option<String>,
    gzip_wanted: bool,
    packed: Option<Vec<u8>>,
)
    ensures
        final(response).status == (if range is Some {
            Status::PartialContent
        } else {
            Status::Success
        }),
        final(response).content_type == old(response).content_type,
        text_view(final(response).accept_ranges) == Some("bytes"@),
        final(response).last_modified == last_modified,
        text_view(final(response).content_range) == (match range {
            Some(r) => Some(content_range_text(r@, size)),
            None => None,
        }),
        text_view(final(response).content_length) == (if range is Some && !(gzip_wanted
            && packed is Some) {
            Some(decimal_text(plain@.len()))
        } else {
            None
        }),
        text_view(final(response).content_encoding) == (if gzip_wanted && packed is Some {
            Some("gzip"@)
        } else {
            None
        }),
        final(response).body == (if gzip_wanted && packed is Some {
            packed
        } else {
            Some(plain)
        }),
{
    response.accept_ranges = Some(String::from_str("bytes"));
    response.status = Status::Success;
    response.last_modified = last_modified;
    response.content_range = None;
    response.content_length = None;
    response.content_encoding = None;
    if let Some(r) = &range {
        response.content_length = Some(decimal_string(plain.len() as u64));
        response.content_range = Some(content_range(r, size));
        response.status = Status::PartialContent;
    }
    if gzip_wanted {
        if let Some(bytes) = packed {
            response.content_encoding = Some(String::from_str("gzip"));
            response.content_length = None;
            response.body = Some(bytes);
            return ;
        }
    }
    response.body = Some(plain);
}

/// StaticFileServer answers the requests for the files of one backend
/// below one prefix.
pub struct StaticFileServer<T> where T: FileSystem {
    fs: T,
    prefix: String,
}

impl<T> StaticFileServer<T> where T: FileSystem {
    /// The backend that the server reads from.
    pub closed spec fn backend(&self) -> T {
        self.fs
    }

    /// The serving prefix; it ends with `/`.
    pub closed spec fn prefix(&self) -> Seq<char> {
        self.prefix@
    }

    /// Constructs a new StaticFileServer.
    ///
    /// `fs` is the backend to serve from.
    /// `prefix` is the prefix to serve from.
    ///
    /// You can set a prefix of /assets and only requests to /assets/* will be served.
    pub fn new(fs: T, prefix: &str) -> (r: Result<Self, Error>)
        ensures
            r matches Ok(server) && server.backend() == fs && server.prefix() == closed_prefix(
                prefix@,
            ),
    {
        let chars = chars_of(prefix);
        let mut prefix = prefix.to_owned();
        if !(chars.len() > 0 && chars[chars.len() - 1] == '/') {
            proof {
                reveal_strlit("/");
            }
            prefix.append("/");
            assert(prefix@ == closed_prefix(chars@));
        }
        Ok(StaticFileServer { fs, prefix })
    }

    /// Tells whether the server answers this request itself. Where it does
    /// not, `on_response` leaves the response as it is.
    pub fn serves(&self, request: &Request, response: &Response) -> (b: bool)
        ensures
            b == handled(self.prefix(), request@, response@),
    {
        if response.status != Status::NotFound {
            return false;
        }
        if !(request.method == Method::Get || request.method == Method::Head) {
            return false;
        }
        strip_prefix(self.prefix.as_str(), request.uri.as_str()).is_some()
    }

    /// Answers a request in place of the host, where the request is for a
    /// file below the serving prefix.
    pub fn on_response(&self, request: &Request, response: &mut Response)
        ensures
            served(&self.backend(), self.prefix(), request@, old(response)@, final(response)@),
    {
        // Only handle requests which aren't otherwise handled.
        if response.status != Status::NotFound {
            return ;
        }
        if !(request.method == Method::Get || request.method == Method::Head) {
            return ;
        }
        // Only handle requests which include our prefix, and strip it out to
        // get the normal file path.
        let req_path = match strip_prefix(self.prefix.as_str(), request.uri.as_str()) {
            Some(path) => path,
            None => {
                return ;
            },
        };
        let path = req_path.as_str();
        let ghost mut answers = Answers {
            valid: false,
            file: false,
            modified: None,
            size: None,
            opened: None,
        };

        // Fail on paths outside of the given path
        let valid = self.fs.path_valid(path);
        proof {
            answers.valid = valid;
        }
        if !valid {
            response.status = Status::Forbidden;
            assert(asked(&self.fs, path@, request@, answers));
            return ;
        }
        // Fail if it is no file
        let file = self.fs.is_file(path);
        proof {
            answers.file = file;
        }
        if !file {
            response.status = Status::NotFound;
            assert(asked(&self.fs, path@, request@, answers));
            return ;
        }
        if let Some(mime) = content_type(path) {
            response.content_type = Some(mime);
        }
        // A HEAD request is told the content length and that byte ranges
        // are supported.
        if request.method == Method::Head {
            let size = self.fs.size(path);
            proof {
                answers.size = crate::fs::answer(size);
            }
            match size {
                Ok(size) => {
                    response.accept_ranges = Some(String::from_str("bytes"));
                    response.content_length = Some(decimal_string(size));
                    response.status = Status::Success;
                    response.body = None;
                },
                Err(_) => {
                    response.status = Status::Forbidden;
                },
            }
            assert(asked(&self.fs, path@, request@, answers));
            return ;
        }
        let modified = self.fs.last_modified(path);
        proof {
            answers.modified = crate::fs::answer(modified);
        }
        let modified = match modified {
            Ok(modified) => modified,
            Err(_) => {
                response.status = Status::Forbidden;
                assert(asked(&self.fs, path@, request@, answers));
                return ;
            },
        };
        // If the If-Modified-Since header and the modified time of the file
        // are the same, we respond with a 304 here
        if let Some(since) = &request.if_modified_since {
            if let Some(time) = parse_http_date(since.as_str()) {
                if time == modified {
                    response.status = Status::NotModified;
                    response.body = None;
                    assert(asked(&self.fs, path@, request@, answers));
                    return ;
                }
            }
        }
        let size = self.fs.size(path);
        proof {
            answers.size = crate::fs::answer(size);
        }
        let size = match size {
            Ok(size) => size,
            Err(_) => {
                response.status = Status::Forbidden;
                assert(asked(&self.fs, path@, request@, answers));
                return ;
            },
        };
        // A range that cannot be served is no range: the complete file is
        // sent then.
        let range = select_range(&request.range, size);
        let start = match &range {
            Some(r) => r.start,
            None => 0,
        };
        let opened = self.fs.open(path, Some(start));
        proof {
            answers.opened = crate::fs::answer_bytes(opened);
        }
        match opened {
            Ok(bytes) => {
                let plain = match &range {
                    Some(r) => limit_bytes(bytes, r.len()),
                    None => bytes,
                };
                let gzip_wanted = match &request.accept_encoding {
                    Some(encodings) => contains(encodings.as_str(), "gzip"),
                    None => false,
                };
                let packed = if gzip_wanted {
                    gzip(plain.as_slice())
                } else {
                    None
                };
                finish_body(
                    response,
                    plain,
                    range,
                    size,
                    format_http_date(modified),
                    gzip_wanted,
                    packed,
                );
            },
            Err(_) => {
                response.status = Status::Forbidden;
            },
        }
        assert(asked(&self.fs, path@, request@, answers));
    }
}

} // verus!
