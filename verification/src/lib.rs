//! A static file server core: an asset package format, storage backends,
//! `Range` header parsing and the request pipeline that ties them together.
//!
//! The contracts in this crate are checked by Verus. The calls into other
//! crates, whose contracts are taken on trust, are gathered in `outside`.
//!
//! - `fs` holds the `FileSystem` trait, the package format (`fs::package`),
//!   the backend over a package (`fs::embedded`) and the backend over a
//!   directory (`fs::local`).
//! - `range` parses the `Range` header, `http` holds the values of a request
//!   and of a response and the formats of the headers.
//! - `server` is the request pipeline; `laws` states what holds of each of
//!   its answers.
//! - `io` bounds a byte stream to a number of bytes.

pub mod error;
pub mod fs;
pub mod http;
pub mod io;
pub mod laws;
pub mod outside;
pub mod range;
pub mod server;
pub mod text;

pub use crate::error::Error;
pub use crate::range::Range;
pub use crate::server::StaticFileServer;
