use flate2::read::GzDecoder;
use static_fs::error::Error;
use static_fs::fs::{
    write_package, Directory, EmbeddedFileSystem, FileSystem, LocalFileSystem, PackageFile,
};
use static_fs::http::{
    content_range, content_type, extension, format_http_date, parse_http_date, select_range,
    strip_prefix, Method, Request, Response, Status,
};
use static_fs::range::Range;
use static_fs::server::{finish_body, StaticFileServer};
use static_fs::text::{chars_of, contains, decimal_string, find_char, parse_decimal};
use std::io::Read;

/// A disk held in memory: files by their full paths.
struct MemoryDisk {
    files: Vec<(String, i64, Vec<u8>)>,
    size_fails: bool,
    open_fails: bool,
    time_fails: bool,
}

impl MemoryDisk {
    fn new(files: &[(&str, i64, &[u8])]) -> MemoryDisk {
        MemoryDisk {
            files: files
                .iter()
                .map(|(path, modified, content)| (path.to_string(), *modified, content.to_vec()))
                .collect(),
            size_fails: false,
            open_fails: false,
            time_fails: false,
        }
    }

    fn find(&self, path: &str) -> Option<&(String, i64, Vec<u8>)> {
        self.files.iter().find(|file| file.0 == path)
    }
}

impl FileSystem for MemoryDisk {
    fn is_file(&self, path: &str) -> bool {
        self.find(path).is_some()
    }

    fn last_modified(&self, path: &str) -> Result<i64, Error> {
        match self.find(path) {
            Some(file) if !self.time_fails => Ok(file.1),
            _ => Err(Error::IoFailure),
        }
    }

    fn size(&self, path: &str) -> Result<u64, Error> {
        match self.find(path) {
            Some(file) if !self.size_fails => Ok(file.2.len() as u64),
            _ => Err(Error::IoFailure),
        }
    }

    fn open(&self, path: &str, start: Option<u64>) -> Result<Vec<u8>, Error> {
        match self.find(path) {
            Some(file) if !self.open_fails => {
                let from = (start.unwrap_or(0) as usize).min(file.2.len());
                Ok(file.2[from..].to_vec())
            }
            _ => Err(Error::IoFailure),
        }
    }

    fn path_valid(&self, _path: &str) -> bool {
        true
    }
}

const LIB_RS: &[u8] = b"//! A small file.\nfn main() {}\n";
const MODIFIED: i64 = 784111777;
const MODIFIED_TEXT: &str = "Sun, 06 Nov 1994 08:49:37 GMT";

fn source_disk() -> MemoryDisk {
    MemoryDisk::new(&[
        ("src/lib.rs", MODIFIED, LIB_RS),
        ("src/fs/mod.rs", MODIFIED + 60, b"mod embedded;"),
        ("src/LICENSE", MODIFIED, b"free"),
        ("src/.hidden", MODIFIED, b"dot"),
        ("src/../secret.txt", MODIFIED, b"secret"),
        ("src/fs/../../secret.txt", MODIFIED, b"secret"),
        ("/etc/passwd", MODIFIED, b"root"),
    ])
}

fn source_directory() -> Directory<MemoryDisk> {
    Directory::new(LocalFileSystem::new("src"), source_disk())
}

fn archive() -> EmbeddedFileSystem {
    let files = vec![
        PackageFile {
            path: "hello.txt".to_string(),
            last_modified: MODIFIED,
            content: b"Hello World!".to_vec(),
        },
        PackageFile {
            path: "inner/page.html".to_string(),
            last_modified: MODIFIED + 1,
            content: b"<html>0123456789</html>".to_vec(),
        },
    ];
    let mut out = Vec::new();
    write_package(&files, &mut out).unwrap();
    EmbeddedFileSystem::from_bytes(out.leak()).unwrap()
}

fn get(uri: &str) -> Request {
    Request::new(Method::Get, uri)
}

fn dispatch<T: FileSystem>(server: &StaticFileServer<T>, request: &Request) -> Response {
    let mut response = Response::new(Status::NotFound);
    server.on_response(request, &mut response);
    response
}

fn gunzip(bytes: &[u8]) -> Vec<u8> {
    let mut out = Vec::new();
    GzDecoder::new(bytes).read_to_end(&mut out).unwrap();
    out
}

#[test]
fn test_with_local_filesystem() {
    let fs = Directory::new(LocalFileSystem::new("src"), source_disk());
    let server = StaticFileServer::new(fs, "/test").unwrap();

    // Test simply getting a file
    let resp = dispatch(&server, &get("/test/lib.rs"));
    assert_eq!(resp.status, Status::Success);
    assert_eq!(
        resp.content_type.as_deref().expect("no content type"),
        "text/x-rust"
    );

    let last_modified = resp
        .last_modified
        .clone()
        .expect("no last modified header");

    // Check for NotModified on second response with If-Modified-Since header
    let mut request = get("/test/lib.rs");
    request.if_modified_since = Some(last_modified);
    let resp = dispatch(&server, &request);
    assert_eq!(resp.status, Status::NotModified);

    // Test for Range support
    let mut request = get("/test/lib.rs");
    request.range = Some("bytes=5-10".to_string());
    let resp = dispatch(&server, &request);
    assert_eq!(resp.status, Status::PartialContent);
    assert_eq!(resp.content_length.as_deref(), Some("6"));
    let body = resp.body.unwrap();
    assert_eq!(body.len(), 6);
}

#[test]
fn get_serves_the_whole_file() {
    let server = StaticFileServer::new(source_directory(), "/test/").unwrap();
    let resp = dispatch(&server, &get("/test/lib.rs"));
    assert_eq!(resp.status, Status::Success);
    assert_eq!(resp.body.as_deref(), Some(LIB_RS));
    assert_eq!(resp.accept_ranges.as_deref(), Some("bytes"));
    assert_eq!(resp.last_modified.as_deref(), Some(MODIFIED_TEXT));
    assert_eq!(resp.content_length, None);
    assert_eq!(resp.content_range, None);
    assert_eq!(resp.content_encoding, None);
    let resp = dispatch(&server, &get("/test/fs/mod.rs"));
    assert_eq!(resp.body.as_deref(), Some(&b"mod embedded;"[..]));
    assert_eq!(resp.last_modified.as_deref(), Some("Sun, 06 Nov 1994 08:50:37 GMT"));
}

#[test]
fn range_body_is_the_bytes_from_start_to_end() {
    let server = StaticFileServer::new(source_directory(), "/test").unwrap();
    let mut request = get("/test/lib.rs");
    request.range = Some("bytes=5-10".to_string());
    let resp = dispatch(&server, &request);
    assert_eq!(resp.status, Status::PartialContent);
    assert_eq!(resp.body.as_deref(), Some(&LIB_RS[5..=10]));
    assert_eq!(resp.content_length.as_deref(), Some("6"));
    let expected = format!("bytes 5-10/{}", LIB_RS.len());
    assert_eq!(resp.content_range.as_deref(), Some(expected.as_str()));
    assert_eq!(resp.accept_ranges.as_deref(), Some("bytes"));
    assert_eq!(resp.last_modified.as_deref(), Some(MODIFIED_TEXT));
}

#[test]
fn range_may_reach_the_last_byte_and_no_further() {
    let server = StaticFileServer::new(source_directory(), "/test").unwrap();
    let last = LIB_RS.len() - 1;
    let mut request = get("/test/lib.rs");
    request.range = Some(format!("bytes=0-{}", last));
    let resp = dispatch(&server, &request);
    assert_eq!(resp.status, Status::PartialContent);
    assert_eq!(resp.body.as_deref(), Some(LIB_RS));

    request.range = Some(format!("bytes={}-{}", last, last));
    let resp = dispatch(&server, &request);
    assert_eq!(resp.status, Status::PartialContent);
    assert_eq!(resp.body.as_deref(), Some(&LIB_RS[last..]));
    assert_eq!(resp.content_length.as_deref(), Some("1"));

    for range in [
        format!("bytes=0-{}", last + 1),
        format!("bytes={}-{}", last + 1, last + 5),
        "bytes=10-5".to_string(),
        "bytes=0-18446744073709551615".to_string(),
    ] {
        request.range = Some(range.clone());
        let resp = dispatch(&server, &request);
        assert_eq!(resp.status, Status::Success, "{}", range);
        assert_eq!(resp.body.as_deref(), Some(LIB_RS), "{}", range);
        assert_eq!(resp.content_range, None);
        assert_eq!(resp.content_length, None);
    }
}

#[test]
fn several_ranges_fall_back_to_the_whole_file() {
    let server = StaticFileServer::new(source_directory(), "/test").unwrap();
    let mut request = get("/test/lib.rs");
    request.range = Some("bytes=0-1,3-4".to_string());
    let resp = dispatch(&server, &request);
    assert_eq!(resp.status, Status::Success);
    assert_eq!(resp.body.as_deref(), Some(LIB_RS));
    assert_eq!(resp.content_range, None);
    assert_eq!(resp.content_length, None);
}

#[test]
fn invalid_range_is_no_range() {
    let server = StaticFileServer::new(source_directory(), "/test").unwrap();
    for range in ["", "bytes", "bytes=5-", "bytes=a-b", "5-10"] {
        let mut request = get("/test/lib.rs");
        request.range = Some(range.to_string());
        let resp = dispatch(&server, &request);
        assert_eq!(resp.status, Status::Success, "{}", range);
        assert_eq!(resp.body.as_deref(), Some(LIB_RS), "{}", range);
        assert_eq!(resp.content_range, None);
    }
}

#[test]
fn conditional_get_with_the_second_of_the_file_is_not_modified() {
    let server = StaticFileServer::new(source_directory(), "/test").unwrap();
    let first = dispatch(&server, &get("/test/lib.rs"));
    let stamp = first.last_modified.unwrap();
    assert_eq!(stamp, MODIFIED_TEXT);

    let mut request = get("/test/lib.rs");
    request.if_modified_since = Some(stamp);
    let mut response = Response::new(Status::NotFound);
    response.body = Some(b"page not found".to_vec());
    server.on_response(&request, &mut response);
    assert_eq!(response.status, Status::NotModified);
    assert_eq!(response.body, None);
    assert_eq!(response.last_modified, None);
    assert_eq!(response.accept_ranges, None);
    assert_eq!(response.content_length, None);
}

#[test]
fn conditional_get_with_another_second_is_served() {
    let server = StaticFileServer::new(source_directory(), "/test").unwrap();
    for stamp in [
        "Sun, 06 Nov 1994 08:49:36 GMT",
        "Sun, 06 Nov 1994 08:49:38 GMT",
        "Mon, 07 Nov 1994 08:49:37 GMT",
        "not a date",
        "1994-11-06 08:49:37",
        "",
    ] {
        let mut request = get("/test/lib.rs");
        request.if_modified_since = Some(stamp.to_string());
        let resp = dispatch(&server, &request);
        assert_eq!(resp.status, Status::Success, "{}", stamp);
        assert_eq!(resp.body.as_deref(), Some(LIB_RS), "{}", stamp);
    }
}

#[test]
fn head_announces_the_size_and_sends_no_body() {
    let server = StaticFileServer::new(source_directory(), "/test").unwrap();
    let mut response = Response::new(Status::NotFound);
    response.body = Some(b"page not found".to_vec());
    server.on_response(&Request::new(Method::Head, "/test/lib.rs"), &mut response);
    assert_eq!(response.status, Status::Success);
    let expected = LIB_RS.len().to_string();
    assert_eq!(response.content_length.as_deref(), Some(expected.as_str()));
    assert_eq!(response.accept_ranges.as_deref(), Some("bytes"));
    assert_eq!(response.content_type.as_deref(), Some("text/x-rust"));
    assert_eq!(response.body, None);
    assert_eq!(response.last_modified, None);
}

#[test]
fn head_takes_no_notice_of_conditions_and_ranges() {
    let server = StaticFileServer::new(source_directory(), "/test").unwrap();
    let mut request = Request::new(Method::Head, "/test/lib.rs");
    request.if_modified_since = Some(MODIFIED_TEXT.to_string());
    request.range = Some("bytes=0-1".to_string());
    request.accept_encoding = Some("gzip".to_string());
    let resp = dispatch(&server, &request);
    assert_eq!(resp.status, Status::Success);
    let expected = LIB_RS.len().to_string();
    assert_eq!(resp.content_length.as_deref(), Some(expected.as_str()));
    assert_eq!(resp.content_encoding, None);
    assert_eq!(resp.body, None);
}

#[test]
fn gzip_body_unpacks_to_the_plain_body() {
    let server = StaticFileServer::new(source_directory(), "/test").unwrap();
    let plain = dispatch(&server, &get("/test/lib.rs"));
    let mut request = get("/test/lib.rs");
    request.accept_encoding = Some("deflate, gzip;q=0.9".to_string());
    let packed = dispatch(&server, &request);
    assert_eq!(packed.status, Status::Success);
    assert_eq!(packed.content_encoding.as_deref(), Some("gzip"));
    assert_eq!(packed.content_length, None);
    let body = packed.body.unwrap();
    assert_ne!(Some(&body), plain.body.as_ref());
    assert_eq!(&body[0..2], &[0x1f, 0x8b]);
    assert_eq!(Some(gunzip(&body)), plain.body);
}

#[test]
fn gzip_of_a_range_unpacks_to_the_range() {
    let server = StaticFileServer::new(source_directory(), "/test").unwrap();
    let mut request = get("/test/lib.rs");
    request.range = Some("bytes=5-10".to_string());
    request.accept_encoding = Some("gzip".to_string());
    let resp = dispatch(&server, &request);
    assert_eq!(resp.status, Status::PartialContent);
    assert_eq!(resp.content_encoding.as_deref(), Some("gzip"));
    assert_eq!(resp.content_length, None);
    let expected = format!("bytes 5-10/{}", LIB_RS.len());
    assert_eq!(resp.content_range.as_deref(), Some(expected.as_str()));
    assert_eq!(gunzip(&resp.body.unwrap()), &LIB_RS[5..=10]);
}

#[test]
fn other_encodings_leave_the_body_plain() {
    let server = StaticFileServer::new(source_directory(), "/test").unwrap();
    for accepted in ["", "deflate", "br, identity", "GZIP", "gzi p"] {
        let mut request = get("/test/lib.rs");
        request.accept_encoding = Some(accepted.to_string());
        let resp = dispatch(&server, &request);
        assert_eq!(resp.content_encoding, None, "{}", accepted);
        assert_eq!(resp.body.as_deref(), Some(LIB_RS), "{}", accepted);
    }
}

#[test]
fn traversal_out_of_the_directory_is_forbidden() {
    let server = StaticFileServer::new(source_directory(), "/test").unwrap();
    for uri in [
        "/test/../secret.txt",
        "/test/fs/../../secret.txt",
        "/test/../../etc/passwd",
        "/test//etc/passwd",
        "/test/..",
    ] {
        let mut response = Response::new(Status::NotFound);
        response.body = Some(b"page not found".to_vec());
        server.on_response(&get(uri), &mut response);
        assert_eq!(response.status, Status::Forbidden, "{}", uri);
        assert_eq!(response.body.as_deref(), Some(&b"page not found"[..]));
        assert_eq!(response.content_type, None);
        assert_eq!(response.last_modified, None);
    }
}

#[test]
fn unknown_path_in_the_archive_is_not_found() {
    let server = StaticFileServer::new(archive(), "/assets").unwrap();
    for uri in [
        "/assets/missing.txt",
        "/assets/../hello.txt",
        "/assets/../../etc/passwd",
        "/assets/inner",
        "/assets/",
        "/assets//hello.txt",
    ] {
        let resp = dispatch(&server, &get(uri));
        assert_eq!(resp.status, Status::NotFound, "{}", uri);
        assert_eq!(resp.body, None);
        assert_eq!(resp.content_type, None);
    }
}

#[test]
fn archive_is_served_like_a_directory() {
    let server = StaticFileServer::new(archive(), "/assets").unwrap();
    let resp = dispatch(&server, &get("/assets/hello.txt"));
    assert_eq!(resp.status, Status::Success);
    assert_eq!(resp.content_type.as_deref(), Some("text/plain"));
    assert_eq!(resp.body.as_deref(), Some(&b"Hello World!"[..]));
    assert_eq!(resp.last_modified.as_deref(), Some(MODIFIED_TEXT));

    let mut request = get("/assets/inner/page.html");
    request.range = Some("bytes=6-15".to_string());
    let resp = dispatch(&server, &request);
    assert_eq!(resp.status, Status::PartialContent);
    assert_eq!(resp.content_type.as_deref(), Some("text/html"));
    assert_eq!(resp.body.as_deref(), Some(&b"0123456789"[..]));
    assert_eq!(resp.content_length.as_deref(), Some("10"));
    assert_eq!(resp.content_range.as_deref(), Some("bytes 6-15/23"));

    let resp = dispatch(&server, &Request::new(Method::Head, "/assets/hello.txt"));
    assert_eq!(resp.status, Status::Success);
    assert_eq!(resp.content_length.as_deref(), Some("12"));
    assert_eq!(resp.body, None);

    let mut request = get("/assets/inner/page.html");
    request.if_modified_since = Some("Sun, 06 Nov 1994 08:49:38 GMT".to_string());
    assert_eq!(dispatch(&server, &request).status, Status::NotModified);
    request.if_modified_since = Some(MODIFIED_TEXT.to_string());
    assert_eq!(dispatch(&server, &request).status, Status::Success);
}

#[test]
fn directory_joins_the_path_onto_its_root() {
    let disk = MemoryDisk::new(&[
        ("/var/www/index.html", 1, b"one"),
        ("/var/www/a/b.txt", 2, b"two"),
        ("index.html", 3, b"three"),
    ]);
    let fs = Directory::new(LocalFileSystem::new("/var/www/"), disk);
    assert!(fs.is_file("index.html"));
    assert!(fs.is_file("a/b.txt"));
    assert!(fs.is_file("/var/www/a/b.txt"));
    assert!(!fs.is_file("b.txt"));
    assert_eq!(fs.size("a/b.txt"), Ok(3));
    assert_eq!(fs.last_modified("a/b.txt"), Ok(2));
    assert_eq!(fs.open("a/b.txt", None), Ok(b"two".to_vec()));
    assert_eq!(fs.open("a/b.txt", Some(1)), Ok(b"wo".to_vec()));
    assert_eq!(fs.open("missing", None), Err(Error::IoFailure));
    assert!(fs.path_valid("a/b.txt"));
    assert!(!fs.path_valid("../x"));
    assert_eq!(LocalFileSystem::new("/var/www").join("a/b.txt"), "/var/www/a/b.txt");
    assert_eq!(LocalFileSystem::new("/var/www/").join("a/b.txt"), "/var/www/a/b.txt");
    assert_eq!(LocalFileSystem::new("src").join(""), "src/");
    assert_eq!(LocalFileSystem::new("").join("a"), "a");
    assert_eq!(LocalFileSystem::new("src").join("/etc/passwd"), "/etc/passwd");
    let fs = Directory::new(LocalFileSystem::new(""), MemoryDisk::new(&[("index.html", 3, b"three")]));
    assert!(fs.is_file("index.html"));
}

#[test]
fn directory_does_not_ask_the_disk_about_paths_outside_the_root() {
    let fs = source_directory();
    for path in ["../secret.txt", "fs/../../secret.txt", "/etc/passwd", ".."] {
        assert!(!fs.path_valid(path), "{}", path);
        assert!(!fs.is_file(path), "{}", path);
        assert_eq!(fs.last_modified(path), Err(Error::PathOutsideRoot), "{}", path);
        assert_eq!(fs.size(path), Err(Error::PathOutsideRoot), "{}", path);
        assert_eq!(fs.open(path, None), Err(Error::PathOutsideRoot), "{}", path);
        assert_eq!(fs.open(path, Some(2)), Err(Error::PathOutsideRoot), "{}", path);
    }
    assert_eq!(fs.open("fs/../lib.rs", None), Err(Error::IoFailure));
    assert_eq!(fs.open("lib.rs", None), Ok(LIB_RS.to_vec()));
}

#[test]
fn missing_file_stays_not_found() {
    let server = StaticFileServer::new(source_directory(), "/test").unwrap();
    for uri in ["/test/nothing.rs", "/test/fs", "/test/", "/test/lib.rs/"] {
        let resp = dispatch(&server, &get(uri));
        assert_eq!(resp.status, Status::NotFound, "{}", uri);
        assert_eq!(resp.body, None);
        assert_eq!(resp.content_type, None);
    }
}

#[test]
fn file_without_extension_gets_no_content_type() {
    let server = StaticFileServer::new(source_directory(), "/test").unwrap();
    let resp = dispatch(&server, &get("/test/LICENSE"));
    assert_eq!(resp.status, Status::Success);
    assert_eq!(resp.content_type, None);
    assert_eq!(resp.body.as_deref(), Some(&b"free"[..]));
    let resp = dispatch(&server, &get("/test/.hidden"));
    assert_eq!(resp.status, Status::Success);
    assert_eq!(resp.content_type, None);
}

#[test]
fn server_defers_what_is_not_its_own() {
    let server = StaticFileServer::new(source_directory(), "/test").unwrap();
    for status in [Status::Success, Status::Forbidden, Status::Other(500), Status::NotModified] {
        let mut response = Response::new(status);
        server.on_response(&get("/test/lib.rs"), &mut response);
        assert_eq!(response.status, status);
        assert_eq!(response.body, None);
        assert_eq!(response.content_type, None);
    }
    for method in [
        Method::Post,
        Method::Put,
        Method::Delete,
        Method::Options,
        Method::Trace,
        Method::Connect,
        Method::Patch,
    ] {
        let resp = dispatch(&server, &Request::new(method, "/test/lib.rs"));
        assert_eq!(resp.status, Status::NotFound);
        assert_eq!(resp.body, None);
        assert_eq!(resp.content_type, None);
    }
    for uri in ["/other/lib.rs", "/test", "/tes/lib.rs", "test/lib.rs", "", "/x/test/lib.rs"] {
        let resp = dispatch(&server, &get(uri));
        assert_eq!(resp.status, Status::NotFound, "{}", uri);
        assert_eq!(resp.body, None);
        assert_eq!(resp.content_type, None);
    }
}

#[test]
fn server_tells_which_requests_it_answers() {
    let server = StaticFileServer::new(source_directory(), "/test").unwrap();
    let not_found = Response::new(Status::NotFound);
    assert!(server.serves(&get("/test/lib.rs"), &not_found));
    assert!(server.serves(&get("/test/missing"), &not_found));
    assert!(server.serves(&get("/test/../secret.txt"), &not_found));
    assert!(server.serves(&get("/test/"), &not_found));
    assert!(server.serves(&Request::new(Method::Head, "/test/lib.rs"), &not_found));
    assert!(!server.serves(&Request::new(Method::Post, "/test/lib.rs"), &not_found));
    assert!(!server.serves(&get("/test"), &not_found));
    assert!(!server.serves(&get("/other/lib.rs"), &not_found));
    assert!(!server.serves(&get("/test/lib.rs"), &Response::new(Status::Success)));
    assert!(!server.serves(&get("/test/lib.rs"), &Response::new(Status::Other(404))));
    for (request, status) in [
        (Request::new(Method::Post, "/test/lib.rs"), Status::NotFound),
        (get("/other/lib.rs"), Status::NotFound),
        (get("/test/lib.rs"), Status::Forbidden),
    ] {
        let mut response = Response::new(status);
        response.content_type = Some("text/html".to_string());
        response.body = Some(b"page".to_vec());
        assert!(!server.serves(&request, &response));
        server.on_response(&request, &mut response);
        assert_eq!(response.status, status);
        assert_eq!(response.content_type.as_deref(), Some("text/html"));
        assert_eq!(response.body.as_deref(), Some(&b"page"[..]));
    }
}

#[test]
fn prefix_always_ends_with_a_slash() {
    for prefix in ["/test", "/test/"] {
        let server = StaticFileServer::new(source_directory(), prefix).unwrap();
        assert_eq!(dispatch(&server, &get("/test/lib.rs")).status, Status::Success);
        assert_eq!(dispatch(&server, &get("/testlib.rs")).status, Status::NotFound);
        assert_eq!(dispatch(&server, &get("/testlib.rs")).content_type, None);
    }
    let server = StaticFileServer::new(source_directory(), "").unwrap();
    assert_eq!(dispatch(&server, &get("/lib.rs")).status, Status::Success);
    assert_eq!(dispatch(&server, &get("lib.rs")).body, None);
    let server = StaticFileServer::new(source_directory(), "/").unwrap();
    assert_eq!(dispatch(&server, &get("/lib.rs")).status, Status::Success);
}

#[test]
fn failures_of_the_backend_are_forbidden() {
    let mut disk = source_disk();
    disk.size_fails = true;
    let fs = Directory::new(LocalFileSystem::new("src"), disk);
    let server = StaticFileServer::new(fs, "/test").unwrap();
    assert_eq!(dispatch(&server, &get("/test/lib.rs")).status, Status::Forbidden);
    let resp = dispatch(&server, &Request::new(Method::Head, "/test/lib.rs"));
    assert_eq!(resp.status, Status::Forbidden);
    assert_eq!(resp.content_length, None);

    let mut disk = source_disk();
    disk.open_fails = true;
    let fs = Directory::new(LocalFileSystem::new("src"), disk);
    let server = StaticFileServer::new(fs, "/test").unwrap();
    let resp = dispatch(&server, &get("/test/lib.rs"));
    assert_eq!(resp.status, Status::Forbidden);
    assert_eq!(resp.body, None);
    assert_eq!(resp.last_modified, None);
    assert_eq!(
        dispatch(&server, &Request::new(Method::Head, "/test/lib.rs")).status,
        Status::Success
    );

    let mut disk = source_disk();
    disk.time_fails = true;
    let fs = Directory::new(LocalFileSystem::new("src"), disk);
    let server = StaticFileServer::new(fs, "/test").unwrap();
    assert_eq!(dispatch(&server, &get("/test/lib.rs")).status, Status::Forbidden);
    assert_eq!(
        dispatch(&server, &Request::new(Method::Head, "/test/lib.rs")).status,
        Status::Success
    );
}

#[test]
fn modification_time_that_cannot_be_written_sends_no_header() {
    let disk = MemoryDisk::new(&[("src/old.txt", i64::MIN, b"x"), ("src/new.txt", i64::MAX, b"y")]);
    let fs = Directory::new(LocalFileSystem::new("src"), disk);
    let server = StaticFileServer::new(fs, "/").unwrap();
    let resp = dispatch(&server, &get("/old.txt"));
    assert_eq!(resp.status, Status::Success);
    assert_eq!(resp.last_modified, None);
    assert_eq!(resp.body.as_deref(), Some(&b"x"[..]));
    assert_eq!(dispatch(&server, &get("/new.txt")).last_modified, None);
}

#[test]
fn finish_body_sets_every_header_of_the_answer() {
    let mut response = Response::new(Status::NotFound);
    response.content_type = Some("text/plain".to_string());
    response.content_length = Some("999".to_string());
    response.content_encoding = Some("br".to_string());
    finish_body(
        &mut response,
        b"abc".to_vec(),
        Some(Range::parse("bytes=2-4").unwrap()),
        10,
        Some("stamp".to_string()),
        true,
        None,
    );
    assert_eq!(response.status, Status::PartialContent);
    assert_eq!(response.content_type.as_deref(), Some("text/plain"));
    assert_eq!(response.content_length.as_deref(), Some("3"));
    assert_eq!(response.content_range.as_deref(), Some("bytes 2-4/10"));
    assert_eq!(response.content_encoding, None);
    assert_eq!(response.last_modified.as_deref(), Some("stamp"));
    assert_eq!(response.accept_ranges.as_deref(), Some("bytes"));
    assert_eq!(response.body.as_deref(), Some(&b"abc"[..]));

    finish_body(&mut response, b"abc".to_vec(), None, 3, None, true, Some(vec![1, 2]));
    assert_eq!(response.status, Status::Success);
    assert_eq!(response.content_length, None);
    assert_eq!(response.content_range, None);
    assert_eq!(response.content_encoding.as_deref(), Some("gzip"));
    assert_eq!(response.last_modified, None);
    assert_eq!(response.body, Some(vec![1, 2]));

    finish_body(&mut response, b"abc".to_vec(), None, 3, None, false, Some(vec![1, 2]));
    assert_eq!(response.content_encoding, None);
    assert_eq!(response.body.as_deref(), Some(&b"abc"[..]));
}

#[test]
fn http_dates_are_written_and_read_in_one_format() {
    assert_eq!(format_http_date(0).as_deref(), Some("Thu, 01 Jan 1970 00:00:00 GMT"));
    assert_eq!(format_http_date(MODIFIED).as_deref(), Some(MODIFIED_TEXT));
    assert_eq!(format_http_date(-1).as_deref(), Some("Wed, 31 Dec 1969 23:59:59 GMT"));
    assert_eq!(format_http_date(i64::MAX), None);
    assert_eq!(parse_http_date(MODIFIED_TEXT), Some(MODIFIED));
    assert_eq!(parse_http_date("Thu, 01 Jan 1970 00:00:00 GMT"), Some(0));
    assert_eq!(parse_http_date("Thu, 01 Jan 1970 00:00:00"), None);
    assert_eq!(parse_http_date("Fri, 01 Jan 1970 00:00:00 GMT"), None);
    assert_eq!(parse_http_date("784111777"), None);
    for secs in [0, 1, MODIFIED, 1_700_000_000, -86_400] {
        let text = format_http_date(secs).unwrap();
        assert_eq!(parse_http_date(&text), Some(secs));
    }
}

#[test]
fn extension_is_what_follows_the_last_dot_of_the_last_segment() {
    assert_eq!(extension("lib.rs").as_deref(), Some("rs"));
    assert_eq!(extension("a/b/c.tar.gz").as_deref(), Some("gz"));
    assert_eq!(extension("a.b/c").as_deref(), None);
    assert_eq!(extension("a.b/c.d").as_deref(), Some("d"));
    assert_eq!(extension("LICENSE").as_deref(), None);
    assert_eq!(extension(".hidden").as_deref(), None);
    assert_eq!(extension("dir/.hidden").as_deref(), None);
    assert_eq!(extension(".hidden.txt").as_deref(), Some("txt"));
    assert_eq!(extension("name.").as_deref(), Some(""));
    assert_eq!(extension("").as_deref(), None);
    assert_eq!(extension("a/").as_deref(), None);
    assert_eq!(extension("a.b/").as_deref(), None);
    assert_eq!(extension("\u{00e9}.\u{00e8}").as_deref(), Some("\u{00e8}"));
}

#[test]
fn content_type_comes_from_the_extension() {
    assert_eq!(content_type("lib.rs").as_deref(), Some("text/x-rust"));
    assert_eq!(content_type("a/index.html").as_deref(), Some("text/html"));
    assert_eq!(content_type("a/INDEX.HTML").as_deref(), Some("text/html"));
    assert_eq!(content_type("style.css").as_deref(), Some("text/css"));
    assert_eq!(content_type("x.unknown-extension").as_deref(), Some("application/octet-stream"));
    assert_eq!(content_type("name.").as_deref(), Some("application/octet-stream"));
    assert_eq!(content_type("Makefile"), None);
}

#[test]
fn prefix_is_stripped_from_the_front_only() {
    assert_eq!(strip_prefix("/test/", "/test/lib.rs").as_deref(), Some("lib.rs"));
    assert_eq!(strip_prefix("/test/", "/test/").as_deref(), Some(""));
    assert_eq!(strip_prefix("/test/", "/test//test/x").as_deref(), Some("/test/x"));
    assert_eq!(strip_prefix("", "/x").as_deref(), Some("/x"));
    assert_eq!(strip_prefix("/test/", "/test"), None);
    assert_eq!(strip_prefix("/test/", "/a/test/x"), None);
    assert_eq!(strip_prefix("/t\u{00e9}/", "/t\u{00e9}/\u{00e9}").as_deref(), Some("\u{00e9}"));
}

#[test]
fn range_is_selected_only_where_it_fits() {
    let header = Some("bytes=5-10".to_string());
    let range = select_range(&header, 11).unwrap();
    assert_eq!((range.start, range.end), (5, 10));
    assert!(select_range(&header, 10).is_none());
    assert!(select_range(&None, 100).is_none());
    assert!(select_range(&Some("bytes=1-2,3-4".to_string()), 100).is_none());
    assert!(select_range(&Some("bytes=2-1".to_string()), 100).is_none());
    assert!(select_range(&Some("nonsense".to_string()), 100).is_none());
}

#[test]
fn content_range_is_unit_start_end_and_size() {
    let range = Range::parse("bytes=5-10").unwrap();
    assert_eq!(content_range(&range, 1234), "bytes 5-10/1234");
    let range = Range::parse("items=0-18446744073709551615").unwrap();
    assert_eq!(
        content_range(&range, u64::MAX),
        "items 0-18446744073709551615/18446744073709551615"
    );
}

#[test]
fn status_codes_are_the_usual_ones() {
    assert_eq!(Status::Success.code(), 200);
    assert_eq!(Status::PartialContent.code(), 206);
    assert_eq!(Status::NotModified.code(), 304);
    assert_eq!(Status::Forbidden.code(), 403);
    assert_eq!(Status::NotFound.code(), 404);
    assert_eq!(Status::Other(500).code(), 500);
}

#[test]
fn decimal_numbers_are_written_without_leading_zeros() {
    assert_eq!(decimal_string(0), "0");
    assert_eq!(decimal_string(7), "7");
    assert_eq!(decimal_string(10), "10");
    assert_eq!(decimal_string(1234567890), "1234567890");
    assert_eq!(decimal_string(u64::MAX), "18446744073709551615");
}

#[test]
fn decimal_numbers_are_read_digit_by_digit() {
    let chars = chars_of("x123-0045y");
    assert_eq!(parse_decimal(&chars, 1, 4), Some(123));
    assert_eq!(parse_decimal(&chars, 5, 9), Some(45));
    assert_eq!(parse_decimal(&chars, 1, 1), None);
    assert_eq!(parse_decimal(&chars, 0, 4), None);
    assert_eq!(parse_decimal(&chars, 1, 5), None);
    let chars = chars_of("18446744073709551615");
    assert_eq!(parse_decimal(&chars, 0, 20), Some(u64::MAX));
    let chars = chars_of("18446744073709551616");
    assert_eq!(parse_decimal(&chars, 0, 20), None);
    assert_eq!(find_char(&chars_of("a=b=c"), '=', 0), 1);
    assert_eq!(find_char(&chars_of("a=b=c"), '=', 2), 3);
    assert_eq!(find_char(&chars_of("a=b=c"), '=', 4), 5);
    assert_eq!(find_char(&chars_of("abc"), '=', 0), 3);
    assert_eq!(find_char(&chars_of("a=c"), '=', 3), 3);
    assert_eq!(find_char(&chars_of("a=c"), '=', 9), 3);
    assert_eq!(parse_decimal(&chars, 4, 2), None);
    assert_eq!(parse_decimal(&chars, 0, 21), None);
    assert_eq!(parse_decimal(&chars, 30, 40), None);
}

#[test]
fn text_is_searched_for_a_text() {
    assert!(contains("deflate, gzip", "gzip"));
    assert!(contains("gzip", "gzip"));
    assert!(contains("xgzipx", "gzip"));
    assert!(contains("anything", ""));
    assert!(contains("", ""));
    assert!(!contains("", "gzip"));
    assert!(!contains("gzi", "gzip"));
    assert!(!contains("g zip", "gzip"));
    assert!(contains("\u{00e9}gzip", "gzip"));
}
