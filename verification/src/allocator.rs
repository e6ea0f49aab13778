//! The allocation facade callers go through: it owns one heap manager and
//! forwards allocation requests to it.

use crate::header::HEADER_SIZE;
use crate::memory::{first_fit, in_payload, spec_alloc, unchanged, Block, Memory, MEM_SIZE};
use vstd::prelude::*;

verus! {

/// A thin facade over one heap manager instance.
pub struct Allocator {
    memory: Memory,
}

impl Allocator {
    /// The heap manager behind the facade.
    pub closed spec fn heap(self) -> Memory {
        self.memory
    }

    /// Builds a facade over a fresh, empty default heap.
    pub fn new() -> (a: Allocator)
        ensures
            a.heap().wf(),
            a.heap().cap() == MEM_SIZE,
            a.heap().blocks() =~= Seq::<Block>::empty(),
            a.heap().brk() == MEM_SIZE as int / 3,
            forall|k: int| 0 <= k < MEM_SIZE ==> a.heap().bytes()[k] == 0,
    {
        Allocator { memory: Memory::new() }
    }

    /// Forwards an allocation request of `size` bytes to the heap manager
    /// and returns the payload offset it hands back, if any.
    pub fn malloc(&mut self, size: usize) -> (r: Option<usize>)
        requires
            old(self).heap().wf(),
        ensures
            final(self).heap().wf(),
            final(self).heap().cap() == old(self).heap().cap(),
            ({
                let a = spec_alloc(
                    old(self).heap().blocks(),
                    old(self).heap().brk(),
                    old(self).heap().cap(),
                    size as int,
                );
                &&& final(self).heap().blocks() == a.0
                &&& final(self).heap().brk() == a.1
                &&& match r {
                    Some(p) => a.2 == Some(p as int),
                    None => a.2 is None,
                }
            }),
            (r is Some <==> size > 0 && (first_fit(old(self).heap().blocks(), size as int) is Some
                || old(self).heap().brk() + HEADER_SIZE + size <= old(self).heap().cap())),
            (r matches Some(p) ==> HEADER_SIZE <= p && p + size <= old(self).heap().cap()),
            final(self).heap().bytes().len() == old(self).heap().bytes().len(),
            forall|k: int|
                in_payload(old(self).heap().blocks(), k) ==> final(self).heap().bytes()[k] == old(
                    self,
                ).heap().bytes()[k],
            r is None ==> unchanged(old(self).heap(), final(self).heap()),
    {
        self.memory.allocate(size)
    }
}

} // verus!
