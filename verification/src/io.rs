//! Bounding a byte stream to a number of bytes.

use crate::outside::read_inner;
use std::io::Read;
use vstd::prelude::*;

verus! {

/// The first `limit` bytes of `bytes`; all of them where there are fewer.
pub open spec fn bounded(bytes: Seq<u8>, limit: nat) -> Seq<u8> {
    if limit < bytes.len() {
        bytes.take(limit as int)
    } else {
        bytes
    }
}

/// Cuts `bytes` down to its first `limit` bytes.
pub fn limit_bytes(bytes: Vec<u8>, limit: u64) -> (r: Vec<u8>)
    ensures
        r@ == bounded(bytes@, limit as nat),
{
    let mut bytes = bytes;
    if limit < bytes.len() as u64 {
        bytes.truncate(limit as usize);
    }
    bytes
}

/// How many bytes a read may deliver: what is left of the limit, but no
/// more than the buffer holds.
pub open spec fn allowance(limit: nat, delivered: nat, room: nat) -> nat {
    if delivered >= limit {
        0
    } else if limit - delivered < room {
        (limit - delivered) as nat
    } else {
        room
    }
}

/// The count that is handed on where the stream reported `n` bytes read
/// into a buffer of `len` bytes: `n`, but no more than the buffer holds.
pub open spec fn counted(n: usize, len: nat) -> usize {
    if n > len {
        len as usize
    } else {
        n
    }
}

/// Puts `chunk` at the start of `buf`, as far as `buf` goes, and leaves the
/// rest of `buf` alone.
pub fn deliver(buf: &mut [u8], chunk: &Vec<u8>)
    ensures
        final(buf)@ == bounded(chunk@, old(buf)@.len()) + old(buf)@.skip(
            bounded(chunk@, old(buf)@.len()).len() as int,
        ),
{
    let count: usize = if chunk.len() < buf.len() {
        chunk.len()
    } else {
        buf.len()
    };
    let mut i: usize = 0;
    while i < count
        invariant
            i <= count <= chunk@.len(),
            count <= old(buf)@.len(),
            buf@.len() == old(buf)@.len(),
            buf@.take(i as int) == chunk@.take(i as int),
            buf@.skip(i as int) == old(buf)@.skip(i as int),
        decreases count - i,
    {
        let ghost before = buf@;
        buf[i] = chunk[i];
        assert(buf@.take(i + 1) == before.take(i as int).push(chunk@[i as int]));
        assert(chunk@.take(i + 1) == chunk@.take(i as int).push(chunk@[i as int]));
        assert(buf@.skip(i + 1) == before.skip(i as int).skip(1));
        assert(old(buf)@.skip(i + 1) == old(buf)@.skip(i as int).skip(1));
        i = i + 1;
    }
    assert(chunk@.take(chunk@.len() as int) == chunk@);
    assert(buf@ == buf@.take(i as int) + buf@.skip(i as int));
}

/// A simple limiting reader. It will read at most n bytes from the underlying stream.
///
/// Since there is no internal buffer, you can can safely use `LimitReader::into_inner`
/// after you are done with it.
pub struct LimitReader<T> {
    read: u64,
    limit: u64,
    inner: T,
}

impl<T: Read> LimitReader<T> {
    /// The number of bytes delivered so far.
    pub closed spec fn delivered(&self) -> nat {
        self.read as nat
    }

    /// The number of bytes that may be delivered in all.
    pub closed spec fn limit(&self) -> nat {
        self.limit as nat
    }

    /// The wrapped stream.
    pub closed spec fn inner(&self) -> T {
        self.inner
    }

    /// How many bytes the next read may deliver into a buffer of `len`
    /// bytes.
    pub open spec fn room(&self, len: nat) -> nat {
        allowance(self.limit(), self.delivered(), len)
    }

    /// Wraps `inner` so that it delivers at most `limit` bytes.
    pub fn new(inner: T, limit: u64) -> (r: Self)
        ensures
            r.delivered() == 0,
            r.limit() == limit,
            r.inner() == inner,
    {
        LimitReader { inner, limit, read: 0 }
    }

    /// Gives the wrapped stream back.
    pub fn into_inner(self) -> (r: T)
        ensures
            r == self.inner(),
    {
        self.inner
    }

    /// Computes how many bytes the next read may deliver into a buffer of
    /// `len` bytes.
    pub fn allowed(&self, len: usize) -> (n: usize)
        ensures
            n == self.room(len as nat),
    {
        if self.limit <= self.read {
            0
        } else {
            let left: u64 = self.limit - self.read;
            if left < len as u64 {
                left as usize
            } else {
                len
            }
        }
    }

    /// Makes the buffer that the stream is asked to read into, for a read
    /// into `len` bytes: as long as the allowance and no longer, so that the
    /// stream cannot hand out a byte that may not be delivered. It is filled
    /// with zeros.
    pub fn window(&self, len: usize) -> (buffer: Vec<u8>)
        ensures
            buffer@.len() == self.room(len as nat),
            forall|i: int| 0 <= i < buffer@.len() ==> buffer@[i] == 0,
    {
        vec![0u8; self.allowed(len)]
    }

    /// Settles what the stream answered to a read into `chunk`.
    ///
    /// A failure is handed on as it is, and nothing changes. A count is
    /// handed on, cut down to the length of what is kept of `chunk`, and
    /// added to the bytes delivered; what is kept of `chunk` is put at the
    /// start of `buf`. Of `chunk` no more is kept than the allowance: a
    /// window is kept whole. The stream itself is not touched.
    pub fn settle(
        &mut self,
        buf: &mut [u8],
        chunk: Vec<u8>,
        answer: Result<usize, std::io::Error>,
    ) -> (r: Result<usize, std::io::Error>)
        ensures
            final(self).limit() == old(self).limit(),
            final(self).inner() == old(self).inner(),
            final(buf)@.len() == old(buf)@.len(),
            match answer {
                Ok(n) => ({
                    let kept = bounded(chunk@, old(self).room(old(buf)@.len()));
                    &&& r == Ok::<usize, std::io::Error>(counted(n, kept.len()))
                    &&& final(self).delivered() == old(self).delivered() + counted(n, kept.len())
                    &&& final(buf)@ == kept + old(buf)@.skip(kept.len() as int)
                }),
                Err(e) => ({
                    &&& r == Err::<usize, std::io::Error>(e)
                    &&& final(self).delivered() == old(self).delivered()
                    &&& final(buf)@ == old(buf)@
                }),
            },
    {
        match answer {
            Ok(n) => {
                let room = self.allowed(buf.len());
                let kept = limit_bytes(chunk, room as u64);
                let count: usize = if n > kept.len() {
                    kept.len()
                } else {
                    n
                };
                self.read = self.read + count as u64;
                deliver(buf, &kept);
                Ok(count)
            },
            Err(e) => Err(e),
        }
    }
}

impl<T: Read> Read for LimitReader<T> {
    /// Reads at most what is left of the limit.
    ///
    /// Where nothing may be delivered, because the limit is reached or `buf`
    /// is empty, the read succeeds with 0 whatever the stream still holds:
    /// the stream is not asked, and neither it nor `buf` nor the count
    /// changes. Anywhere else the stream is asked to read into a `window`,
    /// and `settle` says what becomes of its answer.
    ///
    /// On success `n` bytes were delivered: `n` is within the allowance and
    /// is added to the count, and `buf` is untouched past the allowance. On
    /// failure the count and `buf` are as before. A count within the limit
    /// stays within the limit.
    fn read(&mut self, buf: &mut [u8]) -> (r: Result<usize, std::io::Error>)
        ensures
            final(self).limit() == old(self).limit(),
            final(buf)@.len() == old(buf)@.len(),
            old(self).delivered() <= old(self).limit() ==> final(self).delivered() <= final(self).limit(),
            old(self).room(old(buf)@.len()) == 0 ==> (r matches Ok(n) && n == 0),
            old(self).room(old(buf)@.len()) == 0 ==> final(buf)@ == old(buf)@,
            old(self).room(old(buf)@.len()) == 0 ==> final(self).inner() == old(self).inner(),
            old(self).room(old(buf)@.len()) == 0 ==> final(self).delivered() == old(self).delivered(),
            r matches Ok(n) ==> n <= old(self).room(old(buf)@.len()),
            r matches Ok(n) ==> final(self).delivered() == old(self).delivered() + n,
            r is Ok ==> final(buf)@.skip(old(self).room(old(buf)@.len()) as int) == old(buf)@.skip(old(self).room(old(buf)@.len()) as int),
            r is Err ==> final(self).delivered() == old(self).delivered(),
            r is Err ==> final(buf)@ == old(buf)@,
    {
        let mut buffer = self.window(buf.len());
        if buffer.len() == 0 {
            return Ok(0);
        }
        let answer = read_inner(&mut self.inner, &mut buffer);
        self.settle(buf, buffer, answer)
    }
}

} // verus!
