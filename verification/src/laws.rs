//! Laws relating several heap operations, proved over the same model that
//! the operations' own contracts are stated in.

use crate::header::HEADER_SIZE;
use crate::memory::{
    blk_end, block_fits, first_fit, heap_wf, is_live, lemma_first_fit_from_found,
    lemma_first_fit_from_props, lemma_live_index_unique, live_index, spec_alloc, spec_free, Block,
};
use vstd::prelude::*;

verus! {

/// Tail-shrink round trip: after allocating `n` bytes into an empty heap
/// and then freeing that sole block, the break is back exactly at its prior
/// value, and allocating `n` again yields the identical payload offset.
pub proof fn lemma_tail_shrink_round_trip(brk: int, cap: int, base: int, n: int)
    requires
        heap_wf(Seq::<Block>::empty(), brk, cap, base),
        1 <= n,
        brk + HEADER_SIZE + n <= cap,
    ensures
        ({
            let a = spec_alloc(Seq::<Block>::empty(), brk, cap, n);
            let f = spec_free(a.0, a.1, brk + HEADER_SIZE);
            let a2 = spec_alloc(f.0, f.1, cap, n);
            &&& a.2 == Some(brk + HEADER_SIZE)
            &&& f.1 == brk
            &&& f.0.len() == 0
            &&& a2.2 == Some(brk + HEADER_SIZE)
        }),
{
    let empty = Seq::<Block>::empty();
    let a = spec_alloc(empty, brk, cap, n);
    let b = Block { off: brk as usize, size: n as usize, free: false };
    assert(a.0 == empty.push(b));
    assert(a.0[0] == b);
    assert(is_live(a.0, brk + HEADER_SIZE));
    let i = live_index(a.0, brk + HEADER_SIZE);
    assert(0 <= i < 1);
    let f = spec_free(a.0, a.1, brk + HEADER_SIZE);
    assert(f.0 == a.0.drop_last());
    assert(f.0.len() == 0);
    assert(f.1 == brk);
    assert(first_fit(f.0, n) is None);
}

/// Freeing an interior (non-trailing) block leaves the break where it was.
/// Afterwards, a request that the freed block satisfies, and that no block
/// before it in the list satisfies, reuses exactly the freed block's payload
/// offset; a request larger than the freed block's stored size never
/// returns that offset.
pub proof fn lemma_interior_free_reuse(
    blocks: Seq<Block>,
    brk: int,
    cap: int,
    base: int,
    i: int,
    m: int,
)
    requires
        heap_wf(blocks, brk, cap, base),
        0 <= i < blocks.len() - 1,
    ensures
        spec_free(blocks, brk, blocks[i].off + HEADER_SIZE).1 == brk,
        ({
            let bs2 = spec_free(blocks, brk, blocks[i].off + HEADER_SIZE).0;
            &&& ((1 <= m <= blocks[i].size && (forall|j: int|
                0 <= j < i ==> !block_fits(#[trigger] bs2[j], m))) ==> spec_alloc(
                bs2,
                brk,
                cap,
                m,
            ).2 == Some(blocks[i].off + HEADER_SIZE))
            &&& (m > blocks[i].size ==> spec_alloc(bs2, brk, cap, m).2 != Some(
                blocks[i].off + HEADER_SIZE,
            ))
        }),
{
    lemma_live_index_unique(blocks, brk, cap, base, i);
    let p = blocks[i].off + HEADER_SIZE;
    let bs2 = spec_free(blocks, brk, p).0;
    assert(bs2 == blocks.update(
        i,
        (Block { off: blocks[i].off, size: blocks[i].size, free: true }),
    ));
    if 1 <= m <= blocks[i].size && (forall|j: int| 0 <= j < i ==> !block_fits(#[trigger] bs2[j], m)) {
        assert(block_fits(bs2[i], m));
        lemma_first_fit_from_found(bs2, m, 0, i);
    }
    if m > blocks[i].size {
        if first_fit(bs2, m) is Some {
            let j = first_fit(bs2, m).unwrap();
            lemma_first_fit_from_props(bs2, m, 0, j);
            assert(bs2[j].size >= m);
            assert(j != i);
            if j < i {
                assert(blk_end(blocks[j]) <= blocks[i].off);
            } else {
                assert(blk_end(blocks[i]) <= blocks[j].off);
            }
        } else {
            assert(blk_end(blocks[i]) <= brk);
        }
    }
}

/// A request that exactly fills the room between the break and the capacity
/// succeeds (when no free block is reused), and a request one byte larger
/// fails, changing neither the block list nor the break.
pub proof fn lemma_exact_fill(blocks: Seq<Block>, brk: int, cap: int, base: int, n: int)
    requires
        heap_wf(blocks, brk, cap, base),
        1 <= n,
        brk + HEADER_SIZE + n == cap,
        first_fit(blocks, n) is None,
        first_fit(blocks, n + 1) is None,
    ensures
        spec_alloc(blocks, brk, cap, n).2 == Some(brk + HEADER_SIZE),
        spec_alloc(blocks, brk, cap, n + 1).2 is None,
        spec_alloc(blocks, brk, cap, n + 1).0 == blocks,
        spec_alloc(blocks, brk, cap, n + 1).1 == brk,
{
}

} // verus!
