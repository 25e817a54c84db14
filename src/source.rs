//! A byte source over bytes held in memory.
use vstd::prelude::*;

verus! {

/// Bytes in memory, handed out front first.
pub struct ByteSource {
    data: Vec<u8>,
    pos: usize,
}

impl ByteSource {
    /// The bytes not handed out yet.
    pub closed spec fn remaining(&self) -> Seq<u8> {
        if self.pos <= self.data@.len() {
            self.data@.subrange(self.pos as int, self.data@.len() as int)
        } else {
            Seq::empty()
        }
    }

    pub fn new(bytes: &[u8]) -> (r: ByteSource)
        ensures
            r.remaining() == bytes@,
    {
        let data = crate::text::copy_range(bytes, 0, bytes.len());
        assert(bytes@.subrange(0, bytes@.len() as int) =~= bytes@);
        let r = ByteSource { data, pos: 0 };
        assert(r.remaining() =~= bytes@);
        r
    }

    /// The next `max` bytes, or all that remain where fewer do.
    pub fn read(&mut self, max: usize) -> (r: Vec<u8>)
        ensures
            r@.len() == if max < old(self).remaining().len() {
                max as int
            } else {
                old(self).remaining().len() as int
            },
            r@ == old(self).remaining().subrange(0, r@.len() as int),
            final(self).remaining() == old(self).remaining().subrange(
                r@.len() as int,
                old(self).remaining().len() as int,
            ),
    {
        if self.pos >= self.data.len() {
            return Vec::new();
        }
        let left = self.data.len() - self.pos;
        let n = if max < left {
            max
        } else {
            left
        };
        let r = crate::text::copy_range(self.data.as_slice(), self.pos, self.pos + n);
        let ghost before = self.remaining();
        self.pos = self.pos + n;
        assert(r@ =~= before.subrange(0, n as int));
        assert(self.remaining() =~= before.subrange(n as int, before.len() as int));
        r
    }
}

} // verus!
