//! An in-memory stream that hands its bytes out in fragments.

use vstd::prelude::*;
use vstd::string::StringExecFns;
use vstd::string::StringSliceAdditionalSpecFns;
use vstd::utf8::encode_utf8;

verus! {

/// Holds a text and delivers its bytes in reads of at most `chunk_size`
/// bytes each, as a peer would that sends in small pieces.
pub struct ChunkReader {
    data: String,
    chunk_size: usize,
    pos: usize,
}

impl ChunkReader {
    #[verifier::type_invariant]
    spec fn within(self) -> bool {
        self.pos <= encode_utf8(self.data@).len()
    }

    /// The bytes that are not read yet.
    pub closed spec fn remaining(&self) -> Seq<u8> {
        encode_utf8(self.data@).skip(self.pos as int)
    }

    /// The most that one read delivers.
    pub closed spec fn chunk_size(&self) -> usize {
        self.chunk_size
    }

    /// The bytes that reads will deliver before they report the end of the
    /// stream: all that remain, or none where the chunk size is zero.
    pub open spec fn stream(&self) -> Seq<u8> {
        if self.chunk_size() == 0 {
            Seq::empty()
        } else {
            self.remaining()
        }
    }

    /// A reader over the bytes of `data`.
    pub fn new(data: &str, chunk_size: usize) -> (r: Self)
        ensures
            r.remaining() == data.spec_bytes(),
            r.chunk_size() == chunk_size,
    {
        let r = Self { data: String::from_str(data), chunk_size, pos: 0 };
        assert(r.remaining() =~= data.spec_bytes());
        r
    }

    /// Copies the next bytes to the front of `buf`: as many as the chunk
    /// size, the buffer and the bytes that remain allow. Returns their number;
    /// zero says that nothing was delivered.
    pub fn read(&mut self, buf: &mut [u8]) -> (n: usize)
        ensures
            n <= old(self).chunk_size(),
            n <= old(buf)@.len(),
            n <= old(self).remaining().len(),
            n == old(self).chunk_size() || n == old(buf)@.len() || n == old(self).remaining().len(),
            final(buf)@ == old(self).remaining().take(n as int) + old(buf)@.skip(n as int),
            final(self).remaining() == old(self).remaining().skip(n as int),
            final(self).chunk_size() == old(self).chunk_size(),
    {
        proof {
            use_type_invariant(&*self);
        }
        let bytes = self.data.as_str().as_bytes();
        let total = bytes.len();
        let left = total - self.pos;
        let mut n = if self.chunk_size <= buf.len() {
            self.chunk_size
        } else {
            buf.len()
        };
        if left < n {
            n = left;
        }
        let start = self.pos;
        let mut i: usize = 0;
        while i < n
            invariant
                i <= n,
                n <= buf@.len(),
                buf@.len() == old(buf)@.len(),
                start + n <= total,
                total == bytes@.len(),
                forall|j: int| 0 <= j < i ==> buf@[j] == bytes@[start + j],
                forall|j: int| i <= j < buf@.len() ==> buf@[j] == old(buf)@[j],
            decreases n - i,
        {
            buf[i] = bytes[start + i];
            i = i + 1;
        }
        assert(buf@ =~= old(self).remaining().take(n as int) + old(buf)@.skip(n as int));
        self.pos = start + n;
        assert(self.remaining() =~= old(self).remaining().skip(n as int));
        n
    }
}

} // verus!
