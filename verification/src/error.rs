//! The error taxonomy shared by the codec, the backends and the parsers.

use vstd::prelude::*;
use vstd::string::StringExecFns;

verus! {

/// Everything that can go wrong in this crate.
#[derive(Debug, Clone, Copy, PartialEq, Eq, Structural)]
pub enum Error {
    /// An archive buffer that does not decode; fatal at load time.
    MalformedPackage,
    /// The path is absent, or is not a regular file.
    NotFound,
    /// The path resolves to a place outside the served root.
    PathOutsideRoot,
    /// A `Range` header that asks for more than one range.
    UnsupportedRange,
    /// A `Range` header that does not follow the single-range grammar.
    InvalidRange,
    /// A resource that exists could not be read.
    IoFailure,
    /// An archive whose encoded form would not fit in memory.
    TooLarge,
}

impl Error {
    /// The text that `description` returns for each variant.
    pub open spec fn message(self) -> Seq<char> {
        match self {
            Error::MalformedPackage => "malformed package"@,
            Error::NotFound => "file does not exist"@,
            Error::PathOutsideRoot => "path is outside of the root"@,
            Error::UnsupportedRange => "multipart ranges not supported"@,
            Error::InvalidRange => "invalid range header"@,
            Error::IoFailure => "unable to read file"@,
            Error::TooLarge => "package is too large"@,
        }
    }

    /// A short human readable description of the error.
    pub fn description(&self) -> (text: String)
        ensures
            text@ == self.message(),
    {
        match self {
            Error::MalformedPackage => String::from_str("malformed package"),
            Error::NotFound => String::from_str("file does not exist"),
            Error::PathOutsideRoot => String::from_str("path is outside of the root"),
            Error::UnsupportedRange => String::from_str("multipart ranges not supported"),
            Error::InvalidRange => String::from_str("invalid range header"),
            Error::IoFailure => String::from_str("unable to read file"),
            Error::TooLarge => String::from_str("package is too large"),
        }
    }
}

} // verus!
