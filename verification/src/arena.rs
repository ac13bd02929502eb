//! The bump arena: interned key bytes are copied once into a growing set
//! of blocks and stay valid for the arena's whole lifetime; nothing is
//! ever reclaimed individually.

use vstd::prelude::*;
use vstd::slice::slice_subrange;

verus! {

/// Capacity of one arena block.
pub const BUMP_CAP: usize = 0x100000;

/// A handle to one allocation: `len` bytes at `start` inside `block`.
#[derive(Clone, Copy, Debug, PartialEq, Eq, Structural)]
pub struct ArenaRef {
    pub block: usize,
    pub start: usize,
    pub len: usize,
}

/// A monotonic bump allocator. When an allocation does not fit into the
/// current block any more, a fresh block is started; earlier blocks stay
/// untouched, so every handle remains valid for the arena's lifetime.
pub struct BumpAlloc {
    blocks: Vec<Vec<u8>>,
    cap: usize,
}

impl ArenaRef {
    /// The handle points at an allocated range of the arena.
    pub open spec fn valid(self, a: &BumpAlloc) -> bool {
        &&& (self.block as int) < a.blocks_view().len()
        &&& self.start + self.len <= a.blocks_view()[self.block as int].len()
    }

    /// The bytes the handle points at.
    pub open spec fn bytes(self, a: &BumpAlloc) -> Seq<u8> {
        a.blocks_view()[self.block as int].subrange(
            self.start as int,
            self.start + self.len,
        )
    }
}

impl BumpAlloc {
    /// The blocks' contents.
    pub closed spec fn blocks_view(&self) -> Seq<Seq<u8>> {
        self.blocks@.map_values(|b: Vec<u8>| b@)
    }

    /// The block capacity this arena rotates at.
    pub closed spec fn capacity(&self) -> int {
        self.cap as int
    }

    /// There is always a current block, and a positive capacity.
    pub open spec fn wf(&self) -> bool {
        &&& self.blocks_view().len() >= 1
        &&& self.capacity() >= 1
    }

    /// A fresh arena with the default block capacity.
    pub fn new() -> (r: Self)
        ensures
            r.wf(),
            r.capacity() == BUMP_CAP,
            r.blocks_view().len() == 1,
            r.blocks_view()[0].len() == 0,
    {
        Self::with_capacity(BUMP_CAP)
    }

    /// A fresh arena rotating blocks at `cap` bytes.
    pub fn with_capacity(cap: usize) -> (r: Self)
        requires
            cap >= 1,
        ensures
            r.wf(),
            r.capacity() == cap,
            r.blocks_view().len() == 1,
            r.blocks_view()[0].len() == 0,
    {
        let mut blocks: Vec<Vec<u8>> = Vec::new();
        blocks.push(Vec::new());
        BumpAlloc { blocks, cap }
    }

    /// Start a fresh block when `len` more bytes would overrun the
    /// current one. Existing blocks are never touched.
    fn ensure_room(&mut self, len: usize)
        requires
            old(self).wf(),
        ensures
            final(self).wf(),
            final(self).capacity() == old(self).capacity(),
            final(self).blocks_view() == old(self).blocks_view() || final(self).blocks_view()
                == old(self).blocks_view().push(Seq::<u8>::empty()),
            ({
                let bv = final(self).blocks_view();
                bv[bv.len() - 1].len() + len <= final(self).capacity() || bv[bv.len()
                    - 1].len() == 0
            }),
    {
        let last = self.blocks.len() - 1;
        let cur = self.blocks[last].len();
        if len > self.cap || cur > self.cap - len {
            self.blocks.push(Vec::new());
            proof {
                assert(self.blocks_view() =~= old(self).blocks_view().push(Seq::<u8>::empty()));
            }
        }
    }

    /// Reserve `len` zero-filled bytes and hand back their handle. Every
    /// handle allocated earlier keeps its bytes.
    pub fn alloc_bytes(&mut self, len: usize) -> (r: ArenaRef)
        requires
            old(self).wf(),
        ensures
            final(self).wf(),
            final(self).capacity() == old(self).capacity(),
            r.valid(final(self)),
            r.len == len,
            r.bytes(final(self)) == Seq::new(len as nat, |i: int| 0u8),
            forall|q: ArenaRef|
                q.valid(old(self)) ==> q.valid(final(self)) && q.bytes(final(self)) == q.bytes(
                    old(self),
                ),
    {
        self.ensure_room(len);
        let ghost mid = self.blocks_view();
        let b = self.blocks.len() - 1;
        let mut blk = match self.blocks.pop() {
            Some(x) => x,
            None => Vec::new(),
        };
        let start = blk.len();
        let ghost blk0 = blk@;
        let mut k: usize = 0;
        while k < len
            invariant
                k <= len,
                blk@ == blk0 + Seq::new(k as nat, |i: int| 0u8),
                blk@.len() == blk0.len() + k,
                start == blk0.len(),
                blk0.len() + len <= usize::MAX,
            decreases len - k,
        {
            blk.push(0);
            proof {
                assert(blk@ =~= blk0 + Seq::new((k + 1) as nat, |i: int| 0u8));
            }
            k = k + 1;
        }
        self.blocks.push(blk);
        let r = ArenaRef { block: b, start, len };
        proof {
            assert(self.blocks_view() =~= mid.update(b as int, blk0 + Seq::new(
                len as nat,
                |i: int| 0u8,
            )));
            assert(r.bytes(self) =~= Seq::new(len as nat, |i: int| 0u8));
            assert forall|q: ArenaRef| q.valid(old(self)) implies q.valid(self) && q.bytes(self)
                == q.bytes(old(self)) by {
                if q.block as int == self.blocks_view().len() - 1 {
                    assert(q.bytes(self) =~= q.bytes(old(self)));
                } else {
                    assert(q.bytes(self) =~= q.bytes(old(self)));
                }
            }
        }
        r
    }

    /// Copy `s` into the arena and hand back its handle: the bytes read
    /// back unchanged, and every handle allocated earlier keeps its bytes.
    pub fn alloc_slice(&mut self, s: &[u8]) -> (r: ArenaRef)
        requires
            old(self).wf(),
        ensures
            final(self).wf(),
            final(self).capacity() == old(self).capacity(),
            r.valid(final(self)),
            r.len == s@.len(),
            r.bytes(final(self)) == s@,
            forall|q: ArenaRef|
                q.valid(old(self)) ==> q.valid(final(self)) && q.bytes(final(self)) == q.bytes(
                    old(self),
                ),
    {
        self.ensure_room(s.len());
        let ghost mid = self.blocks_view();
        let b = self.blocks.len() - 1;
        let mut blk = match self.blocks.pop() {
            Some(x) => x,
            None => Vec::new(),
        };
        let start = blk.len();
        let ghost blk0 = blk@;
        let mut k: usize = 0;
        while k < s.len()
            invariant
                k <= s@.len(),
                blk@ == blk0 + s@.take(k as int),
                blk@.len() == blk0.len() + k,
                blk0.len() + s@.len() <= usize::MAX,
            decreases s@.len() - k,
        {
            let byte = *vstd::slice::slice_index_get(s, k);
            blk.push(byte);
            proof {
                assert(blk@ =~= blk0 + s@.take(k as int + 1));
            }
            k = k + 1;
        }
        proof {
            assert(s@.take(s@.len() as int) =~= s@);
        }
        self.blocks.push(blk);
        let r = ArenaRef { block: b, start, len: s.len() };
        proof {
            assert(self.blocks_view() =~= mid.update(b as int, blk0 + s@));
            assert(r.bytes(self) =~= s@);
            assert forall|q: ArenaRef| q.valid(old(self)) implies q.valid(self) && q.bytes(self)
                == q.bytes(old(self)) by {
                assert(q.bytes(self) =~= q.bytes(old(self)));
            }
        }
        r
    }

    /// Read the bytes of an allocation, without copying them.
    pub fn get(&self, r: ArenaRef) -> (out: &[u8])
        requires
            r.valid(self),
        ensures
            out@ == r.bytes(self),
    {
        let blk = self.blocks[r.block].as_slice();
        let n = blk.len();
        proof {
            assert(self.blocks_view()[r.block as int] == self.blocks@[r.block as int]@);
            assert(r.start + r.len <= n);
        }
        slice_subrange(blk, r.start, r.start + r.len)
    }
}

} // verus!
