//! Sources for the table files
use super::{copy_bytes, Error};
use vstd::prelude::*;

verus! {

/// Source backed by a buffer in memory
#[derive(Clone)]
pub struct BufferSource {
    buf: Vec<u8>,
}

impl View for BufferSource {
    type V = Seq<u8>;

    closed spec fn view(&self) -> Seq<u8> {
        self.buf@
    }
}

impl BufferSource {
    /// A source holding a copy of `slice`; an allocation never exceeds
    /// `isize::MAX` bytes.
    pub fn from_slice(slice: &[u8]) -> (r: Self)
        requires
            slice@.len() <= isize::MAX,
        ensures
            r@ == slice@,
            r.wf(),
    {
        let buf = copy_bytes(slice);
        Self { buf }
    }

    /// The buffer fits in an allocation.
    pub open spec fn wf(&self) -> bool {
        self@.len() <= isize::MAX
    }

    /// Read `len` bytes at `offset`.
    pub fn read(&self, offset: u64, len: u32) -> (r: Result<Vec<u8>, Error>)
        requires
            offset + len <= self@.len(),
        ensures
            r matches Ok(v) && v@ == self@.subrange(offset as int, offset + len),
    {
        let size = self.buf.len();
        assert(offset + len <= size);
        let offset = offset as usize;
        let end = offset + len as usize;
        Ok(copy_bytes(&self.buf[offset..end]))
    }

    /// Total size of the source
    pub fn size(&self) -> (r: u64)
        ensures
            r == self@.len(),
    {
        self.buf.len() as u64
    }
}

} // verus!
