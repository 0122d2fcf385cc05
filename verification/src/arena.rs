use vstd::prelude::*;

verus! {

/// A sequence of `n` zero bytes: the initial contents of a fresh region.
pub open spec fn zero_bytes(n: nat) -> Seq<u8> {
    Seq::new(n, |i: int| 0u8)
}

/// The guest's linear memory: one contiguous byte buffer that the host
/// fills and reads. Regions are handed out by bump allocation; the
/// watermark only grows, and nothing is ever reclaimed while the
/// instance lives (discarding the whole `Arena` is the only reclamation
/// point).
pub struct Arena {
    data: Vec<u8>,
}

impl View for Arena {
    type V = Seq<u8>;

    closed spec fn view(&self) -> Seq<u8> {
        self.data@
    }
}

impl Arena {
    /// A fresh instance with an empty linear memory.
    pub fn new() -> (a: Arena)
        ensures
            a@ == Seq::<u8>::empty(),
    {
        Arena { data: Vec::new() }
    }

    /// How many bytes of linear memory the instance currently holds.
    pub fn size(&self) -> (n: usize)
        ensures
            n == self@.len(),
    {
        self.data.len()
    }

    /// Reserve `size` bytes and hand their starting offset to the host.
    /// The new region is zeroed and sits above every region handed out
    /// before, so the guest never reuses a region on its own. A request
    /// for zero bytes is legal and returns the current watermark.
    pub fn allocate(&mut self, size: usize) -> (offset: usize)
        requires
            old(self)@.len() + size <= usize::MAX,
        ensures
            offset == old(self)@.len(),
            final(self)@ == old(self)@ + zero_bytes(size as nat),
    {
        let offset = self.data.len();
        let mut i: usize = 0;
        while i < size
            invariant
                i <= size,
                offset == old(self)@.len(),
                old(self)@.len() + size <= usize::MAX,
                self@ == old(self)@ + zero_bytes(i as nat),
            decreases size - i,
        {
            self.data.push(0u8);
            proof {
                assert(self@ =~= old(self)@ + zero_bytes((i + 1) as nat));
            }
            i = i + 1;
        }
        proof {
            assert(self@ =~= old(self)@ + zero_bytes(size as nat));
        }
        offset
    }

    /// Borrow the bytes of the region `[offset, offset + len)`.
    pub fn region(&self, offset: usize, len: usize) -> (r: &[u8])
        requires
            offset + len <= self@.len(),
        ensures
            r@ == self@.subrange(offset as int, offset + len),
    {
        let n = self.data.len();
        assert(offset + len <= n);
        vstd::slice::slice_subrange(self.data.as_slice(), offset, offset + len)
    }

    /// Overwrite the region starting at `offset` with `bytes`, leaving
    /// every byte outside it untouched.
    pub fn write_at(&mut self, offset: usize, bytes: &Vec<u8>)
        requires
            offset + bytes@.len() <= old(self)@.len(),
        ensures
            final(self)@.len() == old(self)@.len(),
            final(self)@ == old(self)@.take(offset as int) + bytes@ + old(self)@.skip(
                offset + bytes@.len(),
            ),
    {
        let n = self.data.len();
        let mut i: usize = 0;
        while i < bytes.len()
            invariant
                i <= bytes@.len(),
                offset + bytes@.len() <= n,
                n == old(self)@.len(),
                self@.len() == old(self)@.len(),
                self@ == old(self)@.take(offset as int) + bytes@.take(i as int) + old(
                    self,
                )@.skip(offset + i),
            decreases bytes@.len() - i,
        {
            self.data[offset + i] = bytes[i];
            proof {
                assert(self@ =~= old(self)@.take(offset as int) + bytes@.take(i + 1) + old(
                    self,
                )@.skip(offset + i + 1));
            }
            i = i + 1;
        }
        proof {
            assert(bytes@.take(bytes@.len() as int) =~= bytes@);
            assert(self@ =~= old(self)@.take(offset as int) + bytes@ + old(self)@.skip(
                offset + bytes@.len(),
            ));
        }
    }
}

} // verus!
