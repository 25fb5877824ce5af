//! A reader that serves a string in chunks of bounded size, as a network
//! connection would.

use vstd::prelude::*;
use vstd::utf8::*;

verus! {

/// A reader that simulates reading data in small chunks from a network
/// connection. Useful for testing streaming/partial reads.
#[derive(Debug)]
pub struct ChunkReader {
    data: String,
    num_bytes_per_read: usize,
    pos: usize,
}

/// The abstract state of a chunk reader: the bytes it serves, the most it
/// serves per read, and how many it has served.
pub ghost struct ChunkReaderView {
    pub data: Seq<u8>,
    pub chunk: nat,
    pub pos: nat,
}

impl View for ChunkReader {
    type V = ChunkReaderView;

    closed spec fn view(&self) -> ChunkReaderView {
        ChunkReaderView {
            data: encode_utf8(self.data@),
            chunk: self.num_bytes_per_read as nat,
            pos: self.pos as nat,
        }
    }
}

/// How many bytes a read into a buffer of `buf_len` bytes serves: the
/// smallest of the chunk size, the bytes left, and the buffer length.
pub open spec fn read_count(v: ChunkReaderView, buf_len: nat) -> nat {
    if v.pos >= v.data.len() {
        0
    } else {
        let left = (v.data.len() - v.pos) as nat;
        let n = if v.chunk < left {
            v.chunk
        } else {
            left
        };
        if buf_len < n {
            buf_len
        } else {
            n
        }
    }
}

impl ChunkReader {
    /// A reader of `data` that serves at most `num_bytes_per_read` bytes per
    /// read.
    pub fn new(data: String, num_bytes_per_read: usize) -> (r: Self)
        ensures
            r@ == (ChunkReaderView {
                data: encode_utf8(data@),
                chunk: num_bytes_per_read as nat,
                pos: 0,
            }),
    {
        ChunkReader { data, num_bytes_per_read, pos: 0 }
    }

    /// Copies the next bytes of the data into the start of `buf`: at most
    /// `num_bytes_per_read` of them and at most `buf.len()`. Returns how many;
    /// 0 means the data is exhausted (or `buf` or the chunk size is empty).
    pub fn read_chunk(&mut self, buf: &mut [u8]) -> (n: usize)
        ensures
            n == read_count(old(self)@, old(buf)@.len()),
            final(self)@ == (ChunkReaderView { pos: (old(self)@.pos + n) as nat, ..old(self)@ }),
            final(buf)@.len() == old(buf)@.len(),
            n == 0 ==> final(buf)@ == old(buf)@,
            old(self)@.pos < old(self)@.data.len() ==> final(buf)@ == old(self)@.data.subrange(
                old(self)@.pos as int,
                old(self)@.pos + n,
            ) + old(buf)@.skip(n as int),
    {
        let bytes = self.data.as_str().as_bytes();
        let len = bytes.len();
        if self.pos >= len {
            return 0;
        }
        let left = len - self.pos;
        let mut n = self.num_bytes_per_read;
        if left < n {
            n = left;
        }
        if buf.len() < n {
            n = buf.len();
        }
        let ghost start = self.pos as int;
        let ghost old_buf = buf@;
        let mut i: usize = 0;
        while i < n
            invariant
                i <= n,
                n <= buf@.len(),
                start == self.pos,
                self.pos + n <= bytes@.len(),
                bytes@.len() == len,
                buf@.len() == old_buf.len(),
                forall|k: int| 0 <= k < i ==> buf@[k] == bytes@[start + k],
                forall|k: int| i <= k < buf@.len() ==> buf@[k] == old_buf[k],
            decreases n - i,
        {
            buf[i] = bytes[self.pos + i];
            i = i + 1;
        }
        self.pos = self.pos + n;
        assert(buf@ =~= bytes@.subrange(start, start + n) + old_buf.skip(n as int));
        if n == 0 {
            assert(buf@ =~= old_buf);
        }
        n
    }
}

impl std::io::Read for ChunkReader {
    /// Reads up to len(buf) or num_bytes_per_read bytes from the string per
    /// call. Returns the number of bytes read, or 0 to indicate EOF.
    fn read(&mut self, buf: &mut [u8]) -> (r: std::io::Result<usize>)
        ensures
            r matches Ok(n) && n == read_count(old(self)@, old(buf)@.len()),
            final(self)@ == (ChunkReaderView {
                pos: old(self)@.pos + read_count(old(self)@, old(buf)@.len()),
                ..old(self)@
            }),
            final(buf)@.len() == old(buf)@.len(),
            read_count(old(self)@, old(buf)@.len()) == 0 ==> final(buf)@ == old(buf)@,
            old(self)@.pos < old(self)@.data.len() ==> final(buf)@ == old(self)@.data.subrange(
                old(self)@.pos as int,
                (old(self)@.pos + read_count(old(self)@, old(buf)@.len())) as int,
            ) + old(buf)@.skip(read_count(old(self)@, old(buf)@.len()) as int),
    {
        Ok(self.read_chunk(buf))
    }
}

} // verus!
