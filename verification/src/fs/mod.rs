//! Includes the FileSystem trait and built-in implementations.

pub mod embedded;
pub mod enroll;
pub mod laws;
pub mod local;
pub mod order;
pub mod package;

pub use self::embedded::EmbeddedFileSystem;
pub use self::enroll::create_package_from_dir;
pub use self::local::{Directory, LocalFileSystem};
pub use self::order::PackageFile;
pub use self::package::write_package;

use crate::error::Error;
use vstd::prelude::*;

verus! {

/// Implement this trait to provide a filesystem to serve from.
///
/// Paths are relative to the root of the backend and separated by `/`.
/// Modification times are in seconds after the Unix epoch. `open` returns
/// the bytes of the file from position `start` (0 where none is given) to
/// its end.
///
/// The trait asks nothing of an implementation. What the server promises is
/// stated over what the methods of the backend at hand can return.
pub trait FileSystem {
    fn is_file(&self, path: &str) -> bool;

    fn last_modified(&self, path: &str) -> Result<i64, Error>;

    fn size(&self, path: &str) -> Result<u64, Error>;

    fn open(&self, path: &str, start: Option<u64>) -> Result<Vec<u8>, Error>;

    fn path_valid(&self, path: &str) -> bool;
}

/// What a backend answered, without the error.
pub open spec fn answer<V>(r: Result<V, Error>) -> Option<V> {
    match r {
        Ok(v) => Some(v),
        Err(_) => None,
    }
}

/// The bytes that a backend handed out, where it did.
pub open spec fn answer_bytes(r: Result<Vec<u8>, Error>) -> Option<Seq<u8>> {
    match r {
        Ok(bytes) => Some(bytes@),
        Err(_) => None,
    }
}

/// `path_valid` of the backend can return `valid` for `path`.
pub open spec fn may_say_valid<T: FileSystem>(fs: &T, path: Seq<char>, valid: bool) -> bool {
    exists|p: &str| p@ == path && #[trigger] call_ensures(T::path_valid, (fs, p), valid)
}

/// `is_file` of the backend can return `file` for `path`.
pub open spec fn may_say_file<T: FileSystem>(fs: &T, path: Seq<char>, file: bool) -> bool {
    exists|p: &str| p@ == path && #[trigger] call_ensures(T::is_file, (fs, p), file)
}

/// `last_modified` of the backend can return `modified` for `path`, or fail
/// where `modified` is nothing.
pub open spec fn may_say_modified<T: FileSystem>(
    fs: &T,
    path: Seq<char>,
    modified: Option<i64>,
) -> bool {
    exists|p: &str, r: Result<i64, Error>|
        p@ == path && answer(r) == modified && #[trigger] call_ensures(
            T::last_modified,
            (fs, p),
            r,
        )
}

/// `size` of the backend can return `size` for `path`, or fail where `size`
/// is nothing.
pub open spec fn may_say_size<T: FileSystem>(fs: &T, path: Seq<char>, size: Option<u64>) -> bool {
    exists|p: &str, r: Result<u64, Error>|
        p@ == path && answer(r) == size && #[trigger] call_ensures(T::size, (fs, p), r)
}

/// `open` of the backend can return `bytes` for `path` opened at `start`,
/// or fail where `bytes` is nothing.
pub open spec fn may_say_opened<T: FileSystem>(
    fs: &T,
    path: Seq<char>,
    start: u64,
    bytes: Option<Seq<u8>>,
) -> bool {
    exists|p: &str, r: Result<Vec<u8>, Error>|
        p@ == path && answer_bytes(r) == bytes && #[trigger] call_ensures(
            T::open,
            (fs, p, Some(start)),
            r,
        )
}

} // verus!
