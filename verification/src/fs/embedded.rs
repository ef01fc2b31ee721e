//! The backend that serves from a package embedded in the binary.

use crate::error::Error;
use crate::fs::package::{decode, Package, PackageView};
use crate::fs::FileSystem;
use vstd::prelude::*;
use vstd::slice::{slice_subrange, slice_to_vec};

verus! {

/// Provides a FileSystem which is embedded in the binary.
///
/// The package is made at build time with `write_package` and handed to
/// `from_bytes` at startup. It is never changed afterwards, so the index
/// holds every path that can ever be served: no request path leaves it.
pub struct EmbeddedFileSystem {
    package: Package,
}

/// The position a stream is opened at: 0 where none is given.
pub open spec fn offset(start: Option<u64>) -> u64 {
    match start {
        Some(at) => at,
        None => 0,
    }
}

/// The bytes of `content` from position `start` on; nothing where `start`
/// lies behind the end.
pub open spec fn tail_from(content: Seq<u8>, start: u64) -> Seq<u8> {
    if start < content.len() {
        content.skip(start as int)
    } else {
        Seq::empty()
    }
}

impl EmbeddedFileSystem {
    /// The package that the backend serves from.
    pub closed spec fn package(&self) -> PackageView {
        self.package@
    }

    /// Decodes the package in `bytes` and wraps it.
    pub fn from_bytes(bytes: &'static [u8]) -> (r: Result<Self, Error>)
        ensures
            match r {
                Ok(fs) => decode(bytes@) == Some(fs.package()) && fs.package().well_formed(),
                Err(e) => e == Error::MalformedPackage && decode(bytes@) is None,
            },
    {
        match Package::from_bytes(bytes) {
            Ok(package) => Ok(EmbeddedFileSystem { package }),
            Err(e) => Err(e),
        }
    }
}

impl FileSystem for EmbeddedFileSystem {
    /// Tells whether the index holds `path`.
    fn is_file(&self, path: &str) -> (b: bool)
        ensures
            b == self.package().entry(path@) is Some,
    {
        self.package.get(path).is_some()
    }

    /// The modification time of the entry of `path`; `NotFound` where the
    /// index does not hold `path`.
    fn last_modified(&self, path: &str) -> (r: Result<i64, Error>)
        ensures
            match r {
                Ok(modified) => self.package().entry(path@) matches Some(entry)
                    && entry.last_modified == modified,
                Err(e) => e == Error::NotFound && self.package().entry(path@) is None,
            },
    {
        match self.package.get(path) {
            Some(file) => Ok(file.last_modified),
            None => Err(Error::NotFound),
        }
    }

    /// The length of the entry of `path`; `NotFound` where the index does
    /// not hold `path`.
    fn size(&self, path: &str) -> (r: Result<u64, Error>)
        ensures
            match r {
                Ok(size) => self.package().entry(path@) matches Some(entry) && entry.length
                    == size,
                Err(e) => e == Error::NotFound && self.package().entry(path@) is None,
            },
    {
        match self.package.get(path) {
            Some(file) => Ok(file.length),
            None => Err(Error::NotFound),
        }
    }

    /// The bytes of the file at `path` from position `start` on; `NotFound`
    /// where the index does not hold `path`.
    fn open(&self, path: &str, start: Option<u64>) -> (r: Result<Vec<u8>, Error>)
        ensures
            match r {
                Ok(bytes) => self.package().content(path@) matches Some(content) && bytes@
                    == tail_from(content, offset(start)),
                Err(e) => e == Error::NotFound && self.package().content(path@) is None,
            },
    {
        let reader = match self.package.open(path) {
            Ok(reader) => reader,
            Err(e) => {
                return Err(e);
            },
        };
        let len: usize = reader.len();
        let from: usize = match start {
            Some(at) => if at < len as u64 {
                at as usize
            } else {
                len
            },
            None => 0,
        };
        let rest = slice_subrange(reader, from, len);
        assert(rest@ == tail_from(reader@, offset(start)));
        Ok(slice_to_vec(rest))
    }

    /// Every path is valid: the index holds what was enrolled when the
    /// package was made, and nothing is looked up anywhere else.
    fn path_valid(&self, path: &str) -> (b: bool)
        ensures
            b,
    {
        true
    }
}

} // verus!
