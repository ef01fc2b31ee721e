//! The calls that leave this crate. Nothing in this file is proved: each
//! contract below is taken on trust from the documentation and the source of
//! the function that it wraps.

use byteorder::{BigEndian, ByteOrder};
use chrono::TimeZone;
use std::io::Read;
use vstd::prelude::*;
use vstd::utf8::{decode_utf8, valid_utf8};

verus! {

/// The number that the bytes `s` spell, most significant byte first.
pub open spec fn be_value(s: Seq<u8>) -> nat
    decreases s.len(),
{
    if s.len() == 0 {
        0
    } else {
        be_value(s.drop_last()) * 256 + s.last() as nat
    }
}

/// The `width` low bytes of `x`, most significant byte first.
pub open spec fn be_bytes(x: nat, width: nat) -> Seq<u8>
    decreases width,
{
    if width == 0 {
        Seq::empty()
    } else {
        be_bytes(x / 256, (width - 1) as nat).push((x % 256) as u8)
    }
}

/// The signed number whose 64-bit two's complement form is `u`.
pub open spec fn signed_of(u: nat) -> int {
    if u < 0x8000_0000_0000_0000 {
        u as int
    } else {
        u - 0x1_0000_0000_0000_0000
    }
}

/// The 64-bit two's complement form of `i`.
pub open spec fn unsigned_of(i: int) -> nat {
    if i >= 0 {
        i as nat
    } else {
        (i + 0x1_0000_0000_0000_0000) as nat
    }
}

/// `byteorder::ByteOrder::read_u64` for `BigEndian`: the first eight bytes
/// of `buf` read as one unsigned number, most significant byte first. The
/// function panics on a shorter buffer.
#[verifier::external_body]
pub(crate) fn read_be_u64(buf: &[u8]) -> (v: u64)
    requires
        buf@.len() >= 8,
    ensures
        v == be_value(buf@.take(8)),
{
    BigEndian::read_u64(buf)
}

/// `byteorder::ByteOrder::read_i64` for `BigEndian`: the first eight bytes
/// of `buf` read as one number in two's complement, most significant byte
/// first. The function panics on a shorter buffer.
#[verifier::external_body]
pub(crate) fn read_be_i64(buf: &[u8]) -> (v: i64)
    requires
        buf@.len() >= 8,
    ensures
        v == signed_of(be_value(buf@.take(8))),
{
    BigEndian::read_i64(buf)
}

/// `byteorder::ByteOrder::write_u64` for `BigEndian`: the eight bytes of `v`,
/// most significant first, here appended to `out`.
#[verifier::external_body]
pub(crate) fn put_be_u64(out: &mut Vec<u8>, v: u64)
    ensures
        final(out)@ == old(out)@ + be_bytes(v as nat, 8),
{
    let mut field = [0u8; 8];
    BigEndian::write_u64(&mut field, v);
    out.extend_from_slice(&field);
}

/// `byteorder::ByteOrder::write_i64` for `BigEndian`: the eight bytes of the
/// two's complement form of `v`, most significant first, here appended to
/// `out`.
#[verifier::external_body]
pub(crate) fn put_be_i64(out: &mut Vec<u8>, v: i64)
    ensures
        final(out)@ == old(out)@ + be_bytes(unsigned_of(v as int), 8),
{
    let mut field = [0u8; 8];
    BigEndian::write_i64(&mut field, v);
    out.extend_from_slice(&field);
}

/// `std::str::from_utf8`: the text that `bytes` encode, where they are valid
/// UTF-8, and nothing where they are not.
#[verifier::external_body]
pub(crate) fn text_from_utf8(bytes: &[u8]) -> (r: Option<String>)
    ensures
        r is Some <==> valid_utf8(bytes@),
        r matches Some(text) ==> text@ == decode_utf8(bytes@),
{
    match std::str::from_utf8(bytes) {
        Ok(text) => Some(text.to_owned()),
        Err(_) => None,
    }
}

/// `std::io::Error`: the error of a stream. It is handed on and never
/// looked into.
#[verifier::external_type_specification]
#[verifier::external_body]
pub struct ExIoError(std::io::Error);

/// `std::io::Read::read` on the wrapped stream, with all of `buf` as the
/// place to read into. Nothing is claimed of the count that comes back nor
/// of the bytes; `buf` keeps its length.
#[verifier::external_body]
pub(crate) fn read_inner<T: Read>(inner: &mut T, buf: &mut Vec<u8>) -> (r: Result<usize, std::io::Error>)
    ensures
        final(buf)@.len() == old(buf)@.len(),
{
    inner.read(buf.as_mut_slice())
}

/// `String::push`: the text with one character behind it.
#[verifier::external_body]
pub(crate) fn push_char(text: &mut String, c: char)
    ensures
        final(text)@ == old(text)@.push(c),
{
    text.push(c)
}

/// The text that chrono writes for the moment `secs` seconds after the Unix
/// epoch, in UTC, under the strftime pattern `pattern`. Nothing where the
/// moment is outside chrono's range or the pattern is one it cannot write.
pub uninterp spec fn timestamp_text(secs: i64, pattern: Seq<char>) -> Option<Seq<char>>;

/// `chrono::DateTime::from_timestamp` followed by `DateTime::format`: the
/// moment `secs` seconds after the Unix epoch written under `pattern`. The
/// contract only names the result.
#[verifier::external_body]
pub(crate) fn format_timestamp(secs: i64, pattern: &str) -> (r: Option<String>)
    ensures
        match r {
            Some(text) => timestamp_text(secs, pattern@) == Some(text@),
            None => timestamp_text(secs, pattern@) is None,
        },
{
    let moment = chrono::DateTime::from_timestamp(secs, 0)?;
    let mut text = String::new();
    match moment.format(pattern).write_to(&mut text) {
        Ok(()) => Some(text),
        Err(_) => None,
    }
}

/// The moment, in seconds after the Unix epoch, that chrono reads from `text`
/// under the strftime pattern `pattern`, taken as UTC. Nothing where `text`
/// does not follow the pattern.
pub uninterp spec fn timestamp_parsed(text: Seq<char>, pattern: Seq<char>) -> Option<i64>;

/// `chrono::TimeZone::datetime_from_str` on `Utc`, then
/// `DateTime::timestamp`: the moment that `text` spells under `pattern`. The
/// contract only names the result.
#[verifier::external_body]
#[allow(deprecated)]
pub(crate) fn parse_timestamp(text: &str, pattern: &str) -> (r: Option<i64>)
    ensures
        r == timestamp_parsed(text@, pattern@),
{
    match chrono::Utc.datetime_from_str(text, pattern) {
        Ok(moment) => Some(moment.timestamp()),
        Err(_) => None,
    }
}

/// The media type that mime_guess has on record for the file extension
/// `ext`, `application/octet-stream` where it has none.
pub uninterp spec fn mime_text(ext: Seq<char>) -> Seq<char>;

/// `mime_guess::get_mime_type`: a lookup in that crate's table of
/// extensions. The contract only names the result.
#[verifier::external_body]
#[allow(deprecated)]
pub(crate) fn mime_for_extension(ext: &str) -> (r: String)
    ensures
        r@ == mime_text(ext@),
{
    mime_guess::get_mime_type(ext).to_string()
}

/// The gzip stream that flate2 produces for `data` at its default level.
/// Nothing where the encoder reports an error.
pub uninterp spec fn gzip_bytes(data: Seq<u8>) -> Option<Seq<u8>>;

/// `flate2::read::GzEncoder` with `Compression::default()`, read to its end.
/// The contract only names the result.
#[verifier::external_body]
pub(crate) fn gzip(data: &[u8]) -> (r: Option<Vec<u8>>)
    ensures
        match r {
            Some(packed) => gzip_bytes(data@) == Some(packed@),
            None => gzip_bytes(data@) is None,
        },
{
    let mut encoder = flate2::read::GzEncoder::new(data, flate2::Compression::default());
    let mut packed = Vec::new();
    match encoder.read_to_end(&mut packed) {
        Ok(_) => Some(packed),
        Err(_) => None,
    }
}

} // verus!
