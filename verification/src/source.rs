//! The bytes of an opened file.

use vstd::prelude::*;

verus! {

/// Where the bytes are: in a file mapping that stays alive as long as they
/// are used, or in a copy on the heap (pipes and special files).
pub enum Source {
    Mapped(&'static [u8]),
    Owned(Vec<u8>),
}

/// Read-only view of a file's bytes.
pub struct Mmap(pub Source);

impl View for Mmap {
    type V = Seq<u8>;

    open spec fn view(&self) -> Seq<u8> {
        match self.0 {
            Source::Mapped(b) => b@,
            Source::Owned(v) => v@,
        }
    }
}

impl Mmap {
    /// A view of the bytes of `v`.
    pub fn from_vec(v: Vec<u8>) -> (m: Mmap)
        ensures
            m@ == v@,
    {
        Mmap(Source::Owned(v))
    }

    /// A view of mapped bytes.
    pub fn from_mapping(b: &'static [u8]) -> (m: Mmap)
        ensures
            m@ == b@,
    {
        Mmap(Source::Mapped(b))
    }

    pub fn bytes(&self) -> (b: &[u8])
        ensures
            b@ == self@,
    {
        match &self.0 {
            Source::Mapped(b) => b,
            Source::Owned(v) => v.as_slice(),
        }
    }

    pub fn len(&self) -> (n: usize)
        ensures
            n == self@.len(),
    {
        self.bytes().len()
    }

    /// Fills `buf` from byte `off`. Returns the number of bytes read (short
    /// only at end of file).
    pub fn read_at(&self, buf: &mut [u8], off: usize) -> (n: usize)
        ensures
            off >= self@.len() ==> n == 0,
            off < self@.len() ==> n == vstd::math::min(old(buf)@.len() as int, self@.len() - off),
            final(buf)@.len() == old(buf)@.len(),
            off < self@.len() ==> final(buf)@.take(n as int) == self@.subrange(
                off as int,
                off + n,
            ),
            final(buf)@.skip(n as int) == old(buf)@.skip(n as int),
    {
        let src = self.bytes();
        if off >= src.len() {
            return 0;
        }
        let left = src.len() - off;
        let n = if buf.len() < left {
            buf.len()
        } else {
            left
        };
        let ghost before = buf@;
        let mut i: usize = 0;
        while i < n
            invariant
                i <= n,
                off + n <= src@.len() <= usize::MAX,
                n <= before.len(),
                buf@.len() == before.len(),
                forall|j: int| 0 <= j < i ==> buf@[j] == src@[off + j],
                forall|j: int| i <= j < before.len() ==> buf@[j] == before[j],
            decreases n - i,
        {
            buf[i] = src[off + i];
            i += 1;
        }
        assert(buf@.take(n as int) =~= src@.subrange(off as int, off + n));
        assert(buf@.skip(n as int) =~= before.skip(n as int));
        n
    }
}

} // verus!
