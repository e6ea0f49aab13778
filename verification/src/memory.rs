//! The heap manager: a fixed-capacity arena, a movable program break, and a
//! singly linked list of block headers embedded in the arena bytes.
//!
//! The manager's observable state is modelled by a sequence of blocks in
//! link order. Each block records where its header starts, how many payload
//! bytes it owns, and whether it is free. The well-formedness predicate ties
//! that model to the concrete state: blocks tile the region between the heap
//! base and the break with no gaps, and the bytes at each block's header
//! offset are exactly the encoding of its metadata.

use crate::header::{read_header, spec_encode_header, write_header, Header, HEADER_SIZE};
use vstd::prelude::*;

verus! {

broadcast use vstd::seq::group_seq_axioms, vstd::std_specs::vec::group_vec_axioms;

/// Default arena capacity in bytes: one mebibyte.
pub const MEM_SIZE: usize = 1024 * 1024;

/// One heap block as the model sees it: its header offset, its payload size
/// in bytes, and whether it is free for reuse.
pub struct Block {
    /// Offset of the block's header within the arena.
    pub off: usize,
    /// Payload size in bytes, excluding the header.
    pub size: usize,
    /// True when the block may be handed out again.
    pub free: bool,
}

/// Offset one past the last payload byte of a block.
pub open spec fn blk_end(b: Block) -> int {
    b.off + HEADER_SIZE + b.size
}

/// The header record that the arena must hold for block `i` of the list.
pub open spec fn header_of(blocks: Seq<Block>, i: int) -> Header {
    Header {
        size: blocks[i].size,
        is_free: blocks[i].free,
        next: if i + 1 < blocks.len() {
            Some(blocks[i + 1].off)
        } else {
            None
        },
    }
}

/// The arena bytes at block `i`'s header offset encode exactly its metadata.
pub open spec fn header_matches(mem: Seq<u8>, blocks: Seq<Block>, i: int) -> bool {
    mem.subrange(blocks[i].off as int, blocks[i].off + HEADER_SIZE) == spec_encode_header(
        header_of(blocks, i),
    )
}

/// Every block's header is stored, encoded, at its offset.
pub open spec fn headers_ok(mem: Seq<u8>, blocks: Seq<Block>) -> bool {
    forall|i: int| 0 <= i < blocks.len() ==> #[trigger] header_matches(mem, blocks, i)
}

/// The pure shape of a well-formed heap: the blocks tile the arena from the
/// heap base up to the break, in link order, each at least one payload byte,
/// pairwise disjoint and gap-free; an empty heap has its break at the base.
pub open spec fn heap_wf(blocks: Seq<Block>, brk: int, cap: int, base: int) -> bool {
    &&& 0 <= base <= brk <= cap <= usize::MAX
    &&& cap <= isize::MAX
    &&& forall|i: int|
        0 <= i < blocks.len() ==> 1 <= (#[trigger] blocks[i]).size && base <= blocks[i].off
            && blk_end(blocks[i]) <= brk
    &&& forall|i: int, j: int|
        0 <= i < j < blocks.len() ==> blk_end(#[trigger] blocks[i]) <= (#[trigger] blocks[j]).off
    &&& forall|i: int| 0 <= i < blocks.len() - 1 ==> (#[trigger] blocks[i + 1]).off == blk_end(blocks[i])
    &&& (blocks.len() == 0 ==> brk == base)
    &&& (blocks.len() > 0 ==> blocks[0].off == base && blk_end(blocks[blocks.len() - 1]) == brk)
}

/// True when `k` lies inside the payload bytes of some listed block.
pub open spec fn in_payload(blocks: Seq<Block>, k: int) -> bool {
    exists|i: int|
        0 <= i < blocks.len() && (#[trigger] blocks[i]).off + HEADER_SIZE <= k < blk_end(blocks[i])
}

/// True when `payload_off` is the payload offset of some listed block.
pub open spec fn is_live(blocks: Seq<Block>, payload_off: int) -> bool {
    exists|i: int| 0 <= i < blocks.len() && (#[trigger] blocks[i]).off + HEADER_SIZE == payload_off
}

/// The index of the block whose payload starts at `payload_off`.
pub open spec fn live_index(blocks: Seq<Block>, payload_off: int) -> int {
    choose|i: int| 0 <= i < blocks.len() && (#[trigger] blocks[i]).off + HEADER_SIZE == payload_off
}

/// Whether a free block can serve a request of `size` bytes.
pub open spec fn block_fits(b: Block, size: int) -> bool {
    b.free && b.size >= size
}

/// First-fit search from position `i` onward: the least index at or after
/// `i` whose block is free and large enough.
pub open spec fn first_fit_from(blocks: Seq<Block>, size: int, i: int) -> Option<int>
    decreases blocks.len() - i,
{
    if i < 0 || i >= blocks.len() {
        None
    } else if block_fits(blocks[i], size) {
        Some(i)
    } else {
        first_fit_from(blocks, size, i + 1)
    }
}

/// The index of the first free block large enough for `size`, if any.
pub open spec fn first_fit(blocks: Seq<Block>, size: int) -> Option<int> {
    first_fit_from(blocks, size, 0)
}

/// How `allocate` transforms the heap model: the new block list, the new
/// break, and the returned payload offset. A zero request fails; otherwise
/// the first fitting free block is reused as is, and failing that a new
/// block is carved at the break when capacity allows.
pub open spec fn spec_alloc(blocks: Seq<Block>, brk: int, cap: int, size: int) -> (
    Seq<Block>,
    int,
    Option<int>,
) {
    if size <= 0 {
        (blocks, brk, None)
    } else {
        match first_fit(blocks, size) {
            Some(i) => (
                blocks.update(i, (Block { off: blocks[i].off, size: blocks[i].size, free: false })),
                brk,
                Some(blocks[i].off + HEADER_SIZE),
            ),
            None => {
                if brk + HEADER_SIZE + size <= cap {
                    (
                        blocks.push(
                            (Block { off: brk as usize, size: size as usize, free: false }),
                        ),
                        brk + HEADER_SIZE + size,
                        Some(brk + HEADER_SIZE),
                    )
                } else {
                    (blocks, brk, None)
                }
            },
        }
    }
}

/// How `free` transforms the heap model. Freeing the trailing block removes
/// it and pulls the break back to its header; freeing an interior block only
/// marks it free; any other offset leaves the model untouched.
pub open spec fn spec_free(blocks: Seq<Block>, brk: int, payload_off: int) -> (Seq<Block>, int) {
    if is_live(blocks, payload_off) {
        let i = live_index(blocks, payload_off);
        if i == blocks.len() - 1 {
            (blocks.drop_last(), blocks[i].off as int)
        } else {
            (
                blocks.update(i, (Block { off: blocks[i].off, size: blocks[i].size, free: true })),
                brk,
            )
        }
    } else {
        (blocks, brk)
    }
}

/// How `realloc` transforms the heap model: a null offset or zero size acts
/// as a fresh allocation; a stored size already large enough returns the
/// block unchanged; otherwise a new block is allocated and the old one is
/// freed, or nothing changes when the allocation fails.
pub open spec fn spec_realloc(
    blocks: Seq<Block>,
    brk: int,
    cap: int,
    payload_off: int,
    new_size: int,
) -> (Seq<Block>, int, Option<int>) {
    if payload_off == 0 || new_size == 0 {
        spec_alloc(blocks, brk, cap, new_size)
    } else if is_live(blocks, payload_off) && blocks[live_index(blocks, payload_off)].size
        >= new_size {
        (blocks, brk, Some(payload_off))
    } else {
        let a = spec_alloc(blocks, brk, cap, new_size);
        if a.2 is Some {
            let f = spec_free(a.0, a.1, payload_off);
            (f.0, f.1, a.2)
        } else {
            (blocks, brk, None)
        }
    }
}

/// The arena and the free list threaded through it.
pub struct Memory {
    memory_space: Vec<u8>,
    program_break: usize,
    head: Option<usize>,
    tail: Option<usize>,
    blocks: Ghost<Seq<Block>>,
}

/// True when nothing observable about the heap differs between two states.
pub open spec fn unchanged(pre: Memory, post: Memory) -> bool {
    &&& post.bytes() == pre.bytes()
    &&& post.brk() == pre.brk()
    &&& post.blocks() == pre.blocks()
    &&& post.head_off() == pre.head_off()
    &&& post.tail_off() == pre.tail_off()
}

impl Memory {
    /// The arena's bytes.
    pub closed spec fn bytes(self) -> Seq<u8> {
        self.memory_space@
    }

    /// The current program break.
    pub closed spec fn brk(self) -> int {
        self.program_break as int
    }

    /// The arena's capacity.
    pub closed spec fn cap(self) -> int {
        self.memory_space@.len() as int
    }

    /// The model of the block list, in link order.
    pub closed spec fn blocks(self) -> Seq<Block> {
        self.blocks@
    }

    /// The stored offset of the first header, if any.
    pub closed spec fn head_off(self) -> Option<usize> {
        self.head
    }

    /// The stored offset of the last header, if any.
    pub closed spec fn tail_off(self) -> Option<usize> {
        self.tail
    }

    /// Where the heap begins: a third of the arena is reserved below it.
    pub open spec fn base(self) -> int {
        self.cap() / 3
    }

    /// The heap invariant: the model is a well-formed tiling, the arena
    /// holds each block's encoded header, and head and tail mirror the
    /// model's first and last blocks.
    pub open spec fn wf(self) -> bool {
        &&& self.bytes().len() == self.cap()
        &&& heap_wf(self.blocks(), self.brk(), self.cap(), self.base())
        &&& headers_ok(self.bytes(), self.blocks())
        &&& self.head_off() == (if self.blocks().len() == 0 {
            None::<usize>
        } else {
            Some(self.blocks()[0].off)
        })
        &&& self.tail_off() == (if self.blocks().len() == 0 {
            None::<usize>
        } else {
            Some(self.blocks()[self.blocks().len() - 1].off)
        })
    }

    /// Builds an empty heap over a zero-filled arena of the given capacity,
    /// with the break starting a third of the way up.
    pub fn with_capacity(capacity: usize) -> (m: Memory)
        requires
            capacity <= isize::MAX as usize,
        ensures
            m.wf(),
            m.cap() == capacity,
            m.brk() == capacity as int / 3,
            0 <= m.brk() <= m.cap(),
            m.blocks() =~= Seq::<Block>::empty(),
            m.head_off() is None,
            m.tail_off() is None,
            forall|k: int| 0 <= k < capacity ==> m.bytes()[k] == 0,
    {
        let mut buf: Vec<u8> = Vec::new();
        while buf.len() < capacity
            invariant
                buf.len() <= capacity,
                forall|k: int| 0 <= k < buf.len() ==> buf[k] == 0,
            decreases capacity - buf.len(),
        {
            buf.push(0);
        }
        Memory {
            memory_space: buf,
            program_break: capacity / 3,
            head: None,
            tail: None,
            blocks: Ghost(Seq::empty()),
        }
    }

    /// Builds the default heap: a `MEM_SIZE` arena.
    pub fn new() -> (m: Memory)
        ensures
            m.wf(),
            m.cap() == MEM_SIZE,
            m.brk() == MEM_SIZE as int / 3,
            0 <= m.brk() <= m.cap(),
            m.blocks() =~= Seq::<Block>::empty(),
            m.head_off() is None,
            m.tail_off() is None,
            forall|k: int| 0 <= k < MEM_SIZE ==> m.bytes()[k] == 0,
    {
        Memory::with_capacity(MEM_SIZE)
    }

    /// Moves the program break by `increment_value` bytes (negative values
    /// shrink it). Fails with an overflow error when the adjusted break
    /// leaves the representable range, and with a bounds error when it
    /// passes the arena's capacity; on failure the break does not move.
    pub fn sbrk(&mut self, increment_value: isize) -> (r: Result<usize, &'static str>)
        ensures
            final(self).cap() == old(self).cap(),
            final(self).bytes() == old(self).bytes(),
            final(self).blocks() == old(self).blocks(),
            final(self).head_off() == old(self).head_off(),
            final(self).tail_off() == old(self).tail_off(),
            0 <= final(self).brk(),
            final(self).brk() <= old(self).cap() || final(self).brk() == old(self).brk(),
            ({
                let nb = old(self).brk() + increment_value;
                if 0 <= nb <= old(self).cap() {
                    &&& final(self).brk() == nb
                    &&& r == Ok::<usize, &'static str>(nb as usize)
                } else {
                    &&& final(self).brk() == old(self).brk()
                    &&& r is Err
                }
            }),
            ({
                let nb = old(self).brk() + increment_value;
                (nb < 0 || nb > usize::MAX) ==> (r matches Err(m) && m@
                    == "Program Break arithmetic overflow!"@)
            }),
            ({
                let nb = old(self).brk() + increment_value;
                (0 <= nb <= usize::MAX && nb > old(self).cap()) ==> (r matches Err(m) && m@
                    == "Program Break has exceeded memory space!"@)
            }),
    {
        let capacity = self.memory_space.len();
        let new_program_break: Option<usize> = if increment_value >= 0 {
            self.program_break.checked_add(increment_value as usize)
        } else if increment_value == isize::MIN {
            self.program_break.checked_sub((isize::MAX as usize) + 1)
        } else {
            self.program_break.checked_sub((-increment_value) as usize)
        };
        match new_program_break {
            Some(new_break) => {
                if new_break <= capacity {
                    self.program_break = new_break;
                    Ok(new_break)
                } else {
                    Err("Program Break has exceeded memory space!")
                }
            },
            None => Err("Program Break arithmetic overflow!"),
        }
    }
}

/// Equal bytes over `[a, b)` give equal subranges there.
proof fn lemma_subrange_eq(m1: Seq<u8>, m2: Seq<u8>, a: int, b: int)
    requires
        0 <= a <= b <= m1.len(),
        m1.len() == m2.len(),
        forall|k: int| a <= k < b ==> m1[k] == m2[k],
    ensures
        m1.subrange(a, b) == m2.subrange(a, b),
{
    assert(m1.subrange(a, b) =~= m2.subrange(a, b));
}

/// A first-fit result really is the first fitting block at or after `k`.
pub proof fn lemma_first_fit_from_props(blocks: Seq<Block>, size: int, k: int, i: int)
    requires
        0 <= k,
        first_fit_from(blocks, size, k) == Some(i),
    ensures
        k <= i < blocks.len(),
        block_fits(blocks[i], size),
        forall|j: int| k <= j < i ==> !block_fits(#[trigger] blocks[j], size),
    decreases blocks.len() - k,
{
    if k < blocks.len() && !block_fits(blocks[k], size) {
        lemma_first_fit_from_props(blocks, size, k + 1, i);
    }
}

/// Conversely, the first fitting block is what first-fit returns.
pub proof fn lemma_first_fit_from_found(blocks: Seq<Block>, size: int, k: int, i: int)
    requires
        0 <= k <= i < blocks.len(),
        block_fits(blocks[i], size),
        forall|j: int| k <= j < i ==> !block_fits(#[trigger] blocks[j], size),
    ensures
        first_fit_from(blocks, size, k) == Some(i),
    decreases i - k,
{
    if k < i {
        lemma_first_fit_from_found(blocks, size, k + 1, i);
    }
}

/// In a well-formed heap, distinct blocks have distinct payload offsets, so
/// a payload offset picks out exactly one block.
pub proof fn lemma_live_index_unique(blocks: Seq<Block>, brk: int, cap: int, base: int, i: int)
    requires
        heap_wf(blocks, brk, cap, base),
        0 <= i < blocks.len(),
    ensures
        is_live(blocks, blocks[i].off + HEADER_SIZE),
        live_index(blocks, blocks[i].off + HEADER_SIZE) == i,
{
    let p = blocks[i].off + HEADER_SIZE;
    assert(is_live(blocks, p));
    let j = live_index(blocks, p);
    assert(0 <= j < blocks.len() && blocks[j].off + HEADER_SIZE == p);
    if j < i {
        assert(blk_end(blocks[j]) <= blocks[i].off);
        assert(false);
    } else if i < j {
        assert(blk_end(blocks[i]) <= blocks[j].off);
        assert(false);
    }
}

impl Memory {
    /// First-fit scan of the free list, following the embedded links from
    /// the head: the first free block whose stored size covers the request.
    fn get_free_block(&self, size: usize) -> (r: Option<usize>)
        requires
            self.wf(),
        ensures
            match first_fit(self.blocks(), size as int) {
                Some(i) => r == Some(self.blocks()[i].off),
                None => r is None,
            },
    {
        let ghost bs = self.blocks@;
        let mut current = self.head;
        let ghost mut idx: int = 0;
        loop
            invariant
                self.wf(),
                bs == self.blocks@,
                0 <= idx <= bs.len(),
                current == (if idx < bs.len() {
                    Some(bs[idx].off)
                } else {
                    None::<usize>
                }),
                first_fit(bs, size as int) == first_fit_from(bs, size as int, idx),
            decreases bs.len() - idx,
        {
            match current {
                Some(offset) => {
                    proof {
                        assert(blk_end(bs[idx]) <= self.brk());
                        assert(header_matches(self.memory_space@, bs, idx));
                    }
                    let header = read_header(&self.memory_space, offset);
                    proof {
                        assert(header == header_of(bs, idx));
                    }
                    if header.is_free && header.size >= size {
                        return Some(offset);
                    }
                    current = header.next;
                    proof {
                        idx = idx + 1;
                    }
                },
                None => {
                    return None;
                },
            }
        }
    }
}

impl Memory {
    /// Serves a request of `size` bytes: a zero request fails; the first
    /// fitting free block is reused as is (first fit, no splitting); failing
    /// that a new block is carved at the break when capacity allows, and the
    /// request fails with no change otherwise. Returns the payload offset.
    #[verifier::rlimit(100)]
    #[verifier::spinoff_prover]
    pub fn allocate(&mut self, size: usize) -> (r: Option<usize>)
        requires
            old(self).wf(),
        ensures
            final(self).wf(),
            final(self).cap() == old(self).cap(),
            ({
                let a = spec_alloc(old(self).blocks(), old(self).brk(), old(self).cap(), size as int);
                &&& final(self).blocks() == a.0
                &&& final(self).brk() == a.1
                &&& match r {
                    Some(p) => a.2 == Some(p as int),
                    None => a.2 is None,
                }
            }),
            (r is Some <==> size > 0 && (first_fit(old(self).blocks(), size as int) is Some || old(self).brk() + HEADER_SIZE + size <= old(self).cap())),
            (r matches Some(p) ==> HEADER_SIZE <= p && p + size <= old(self).cap()),
            (r matches Some(p) ==> exists|t: int|
                0 <= t < final(self).blocks().len() && (#[trigger] final(self).blocks()[t]).off
                    + HEADER_SIZE == p && size <= final(self).blocks()[t].size && !final(self).blocks()[t].free),
            final(self).bytes().len() == old(self).bytes().len(),
            forall|k: int|
                in_payload(old(self).blocks(), k) ==> final(self).bytes()[k] == old(self).bytes()[k],
            r is None ==> unchanged(*old(self), *final(self)),
    {
        let ghost bs0 = self.blocks@;
        let ghost brk0 = self.brk();
        let ghost cap0 = self.cap();
        let ghost m0 = self.memory_space@;
        if size == 0 {
            return None;
        }
        let found = self.get_free_block(size);
        match found {
            Some(block_offset) => {
                let ghost i = first_fit(bs0, size as int).unwrap();
                proof {
                    lemma_first_fit_from_props(bs0, size as int, 0, i);
                    assert(block_offset == bs0[i].off);
                    assert(blk_end(bs0[i]) <= brk0);
                    assert(header_matches(m0, bs0, i));
                }
                let mut header = read_header(&self.memory_space, block_offset);
                proof {
                    assert(header == header_of(bs0, i));
                }
                header.is_free = false;
                write_header(&mut self.memory_space, block_offset, header);
                self.blocks = Ghost(spec_alloc(bs0, brk0, cap0, size as int).0);
                proof {
                    let bs1 = self.blocks@;
                    let m1 = self.memory_space@;
                    assert(bs1 == bs0.update(
                        i,
                        (Block { off: bs0[i].off, size: bs0[i].size, free: false }),
                    ));
                    assert forall|j: int| 0 <= j < bs1.len() implies #[trigger] header_matches(
                        m1,
                        bs1,
                        j,
                    ) by {
                        assert(header_matches(m0, bs0, j));
                        assert(header_of(bs1, j) == Header {
                            size: bs1[j].size,
                            is_free: bs1[j].free,
                            next: if j + 1 < bs1.len() {
                                Some(bs1[j + 1].off)
                            } else {
                                None
                            },
                        });
                        if j == i {
                            assert(m1.subrange(
                                bs1[j].off as int,
                                bs1[j].off + HEADER_SIZE,
                            ) == spec_encode_header(header));
                            assert(header_of(bs1, i) == header);
                        } else {
                            if j < i {
                                assert(blk_end(bs0[j]) <= bs0[i].off);
                            } else {
                                assert(blk_end(bs0[i]) <= bs0[j].off);
                            }
                            lemma_subrange_eq(
                                m0,
                                m1,
                                bs0[j].off as int,
                                bs0[j].off + HEADER_SIZE,
                            );
                            assert(header_of(bs1, j) == header_of(bs0, j));
                        }
                    }
                    assert(heap_wf(bs1, brk0, cap0, self.base())) by {
                        assert forall|j: int| 0 <= j < bs1.len() - 1 implies (#[trigger] bs1[j
                            + 1]).off == blk_end(bs1[j]) by {
                            assert(bs0[j + 1].off == blk_end(bs0[j]));
                        }
                    }
                    assert forall|k: int| in_payload(bs0, k) implies m1[k] == m0[k] by {
                        let t = choose|t: int|
                            0 <= t < bs0.len() && (#[trigger] bs0[t]).off + HEADER_SIZE <= k
                                < blk_end(bs0[t]);
                        if t < i {
                            assert(blk_end(bs0[t]) <= bs0[i].off);
                        } else if i < t {
                            assert(blk_end(bs0[i]) <= bs0[t].off);
                        }
                    }
                    assert(bs1[i].off + HEADER_SIZE == block_offset + HEADER_SIZE && size <= bs1[i].size
                        && !bs1[i].free);
                    assert(exists|t: int|
                        0 <= t < bs1.len() && (#[trigger] bs1[t]).off + HEADER_SIZE == block_offset
                            + HEADER_SIZE && size <= bs1[t].size && !bs1[t].free);
                }
                Some(block_offset + HEADER_SIZE)
            },
            None => {
                if size > usize::MAX - HEADER_SIZE {
                    proof {
                        assert(brk0 + HEADER_SIZE + size > cap0);
                    }
                    return None;
                }
                let total_size = HEADER_SIZE + size;
                if total_size > isize::MAX as usize {
                    proof {
                        assert(brk0 + HEADER_SIZE + size > cap0);
                    }
                    return None;
                }
                let sb = self.sbrk(total_size as isize);
                match sb {
                    Ok(new_break) => {
                        let block_start = new_break - total_size;
                        let header = Header { size, is_free: false, next: None };
                        proof {
                            assert(block_start == brk0);
                            if bs0.len() > 0 {
                                assert(blk_end(bs0[bs0.len() - 1]) == brk0);
                            }
                        }
                        write_header(&mut self.memory_space, block_start, header);
                        let ghost m1 = self.memory_space@;
                        if self.head.is_none() {
                            self.head = Some(block_start);
                        }
                        let old_tail = self.tail;
                        match old_tail {
                            Some(tail_offset) => {
                                proof {
                                    let last = bs0.len() - 1;
                                    assert(tail_offset == bs0[last].off);
                                    assert(bs0[last].off + HEADER_SIZE <= blk_end(bs0[last]));
                                    lemma_subrange_eq(
                                        m0,
                                        m1,
                                        bs0[last].off as int,
                                        bs0[last].off + HEADER_SIZE,
                                    );
                                    assert(header_matches(m0, bs0, last));
                                    assert(header_matches(m1, bs0, last));
                                }
                                let mut tail_header = read_header(&self.memory_space, tail_offset);
                                proof {
                                    assert(tail_header == header_of(bs0, bs0.len() - 1));
                                }
                                tail_header.next = Some(block_start);
                                write_header(&mut self.memory_space, tail_offset, tail_header);
                            },
                            None => {},
                        }
                        self.tail = Some(block_start);
                        self.blocks = Ghost(spec_alloc(bs0, brk0, cap0, size as int).0);
                        proof {
                            let bs1 = self.blocks@;
                            let m2 = self.memory_space@;
                            let nb = Block { off: block_start, size: size, free: false };
                            assert(bs1 == bs0.push(nb));
                            let len0 = bs0.len() as int;
                            assert(heap_wf(bs1, brk0 + HEADER_SIZE + size, cap0, self.base()))
                                by {
                                assert forall|j: int| 0 <= j < bs1.len() - 1 implies (
                                #[trigger] bs1[j + 1]).off == blk_end(bs1[j]) by {
                                    if j + 1 < len0 {
                                        assert(bs0[j + 1].off == blk_end(bs0[j]));
                                    } else {
                                        assert(blk_end(bs0[len0 - 1]) == brk0);
                                    }
                                }
                            }
                            assert forall|j: int| 0 <= j < bs1.len() implies #[trigger] header_matches(
                                m2,
                                bs1,
                                j,
                            ) by {
                                if j == len0 {
                                    if len0 > 0 {
                                        assert(bs0[len0 - 1].off + HEADER_SIZE <= blk_end(
                                            bs0[len0 - 1],
                                        ) == brk0);
                                        lemma_subrange_eq(
                                            m1,
                                            m2,
                                            block_start as int,
                                            block_start + HEADER_SIZE,
                                        );
                                    } else {
                                        assert(m2 == m1);
                                    }
                                    assert(m1.subrange(
                                        block_start as int,
                                        block_start + HEADER_SIZE,
                                    ) == spec_encode_header(header));
                                    assert(header_of(bs1, j) == header);
                                } else if j == len0 - 1 && len0 > 0 {
                                    assert(header_matches(m2, bs1, j));
                                } else {
                                    assert(header_matches(m0, bs0, j));
                                    assert(blk_end(bs0[j]) <= bs0[len0 - 1].off);
                                    lemma_subrange_eq(
                                        m0,
                                        m1,
                                        bs0[j].off as int,
                                        bs0[j].off + HEADER_SIZE,
                                    );
                                    lemma_subrange_eq(
                                        m1,
                                        m2,
                                        bs0[j].off as int,
                                        bs0[j].off + HEADER_SIZE,
                                    );
                                    assert(header_of(bs1, j) == header_of(bs0, j));
                                }
                            }
                            assert forall|k: int| in_payload(bs0, k) implies m2[k] == m0[k] by {
                                let t = choose|t: int|
                                    0 <= t < bs0.len() && (#[trigger] bs0[t]).off + HEADER_SIZE
                                        <= k < blk_end(bs0[t]);
                                assert(blk_end(bs0[t]) <= brk0);
                                if t < len0 - 1 {
                                    assert(blk_end(bs0[t]) <= bs0[len0 - 1].off);
                                }
                            }
                            assert(bs1[len0].off + HEADER_SIZE == block_start + HEADER_SIZE);
                            assert(size <= bs1[len0].size && !bs1[len0].free);
                            assert(exists|t: int|
                                0 <= t < bs1.len() && (#[trigger] bs1[t]).off + HEADER_SIZE
                                    == block_start + HEADER_SIZE && size <= bs1[t].size
                                    && !bs1[t].free);
                        }
                        Some(block_start + HEADER_SIZE)
                    },
                    Err(_) => {
                        proof {
                            assert(brk0 + HEADER_SIZE + size > cap0);
                        }
                        None
                    },
                }
            },
        }
    }
}

impl Memory {
    /// Walks the list from the head to the block just before the one whose
    /// header sits at `target`.
    fn find_pred(&self, target: usize, Ghost(i): Ghost<int>) -> (r: usize)
        requires
            self.wf(),
            1 <= i < self.blocks().len(),
            self.blocks()[i].off == target,
        ensures
            r == self.blocks()[i - 1].off,
    {
        let ghost bs = self.blocks@;
        let mut current: usize = match self.head {
            Some(h) => h,
            None => 0,
        };
        let ghost mut idx: int = 0;
        loop
            invariant
                self.wf(),
                bs == self.blocks@,
                1 <= i < bs.len(),
                bs[i].off == target,
                0 <= idx < i,
                current == bs[idx].off,
            decreases i - idx,
        {
            proof {
                assert(blk_end(bs[idx]) <= self.brk());
                assert(header_matches(self.memory_space@, bs, idx));
            }
            let h = read_header(&self.memory_space, current);
            proof {
                assert(h == header_of(bs, idx));
            }
            match h.next {
                Some(n) => {
                    if n == target {
                        proof {
                            if idx + 1 < i {
                                assert(blk_end(bs[idx + 1]) <= bs[i].off);
                                assert(false);
                            }
                        }
                        return current;
                    }
                    current = n;
                    proof {
                        assert(idx + 1 < bs.len());
                        if idx + 1 == i {
                            assert(false);
                        }
                        idx = idx + 1;
                    }
                },
                None => {
                    proof {
                        assert(idx + 1 < bs.len());
                        assert(false);
                    }
                    return 0;
                },
            }
        }
    }

    /// Releases the block whose payload starts at `block_offset`. A zero
    /// offset is a safe no-op. When the block's payload ends exactly at the
    /// break, the block is reclaimed: it leaves the list and the break moves
    /// back to its header. Any other live block is only marked free, in
    /// place. An offset at or past the break (a block already reclaimed)
    /// changes nothing the heap can see.
    #[verifier::rlimit(100)]
    #[verifier::spinoff_prover]
    pub fn free(&mut self, block_offset: usize)
        requires
            old(self).wf(),
            block_offset == 0 || is_live(old(self).blocks(), block_offset as int) || (old(self).brk() + HEADER_SIZE <= block_offset && block_offset <= old(self).cap()),
        ensures
            final(self).wf(),
            final(self).cap() == old(self).cap(),
            final(self).blocks() == spec_free(
                old(self).blocks(),
                old(self).brk(),
                block_offset as int,
            ).0,
            final(self).brk() == spec_free(
                old(self).blocks(),
                old(self).brk(),
                block_offset as int,
            ).1,
            block_offset == 0 ==> unchanged(*old(self), *final(self)),
            (block_offset != 0 && !is_live(old(self).blocks(), block_offset as int)) ==> (final(self).head_off() == old(self).head_off() && final(self).tail_off() == old(self).tail_off()
                && forall|k: int|
                0 <= k < old(self).brk() ==> final(self).bytes()[k] == old(self).bytes()[k]),
            final(self).bytes().len() == old(self).bytes().len(),
            forall|k: int|
                in_payload(
                    spec_free(old(self).blocks(), old(self).brk(), block_offset as int).0,
                    k,
                ) ==> final(self).bytes()[k] == old(self).bytes()[k],
    {
        if block_offset == 0 {
            return;
        }
        let ghost bs0 = self.blocks@;
        let ghost brk0 = self.brk();
        let ghost cap0 = self.cap();
        let ghost m0 = self.memory_space@;
        let ghost live = is_live(bs0, block_offset as int);
        let ghost i = live_index(bs0, block_offset as int);
        proof {
            if live {
                assert(0 <= i < bs0.len() && bs0[i].off + HEADER_SIZE == block_offset);
                assert(blk_end(bs0[i]) <= brk0);
            }
        }
        let header_offset = block_offset - HEADER_SIZE;
        let header = read_header(&self.memory_space, header_offset);
        proof {
            if live {
                assert(header_matches(m0, bs0, i));
                assert(header == header_of(bs0, i));
            }
        }
        let end_opt = block_offset.checked_add(header.size);
        let is_tail = match end_opt {
            Some(e) => e == self.program_break,
            None => false,
        };
        if is_tail {
            proof {
                if !live {
                    assert(block_offset > brk0);
                    assert(false);
                }
                if i < bs0.len() - 1 {
                    assert(blk_end(bs0[i]) <= bs0[i + 1].off);
                    assert(blk_end(bs0[i + 1]) <= brk0);
                    assert(false);
                }
                assert(i == bs0.len() - 1);
            }
            let sole = match self.head {
                Some(h) => h == header_offset,
                None => false,
            };
            let ghost m1 = self.memory_space@;
            if sole {
                proof {
                    if i > 0 {
                        assert(blk_end(bs0[0]) <= bs0[i].off);
                        assert(false);
                    }
                }
                self.head = None;
                self.tail = None;
            } else {
                proof {
                    assert(bs0.len() > 1);
                }
                let pred_offset = self.find_pred(header_offset, Ghost(i));
                proof {
                    assert(blk_end(bs0[i - 1]) <= brk0);
                    assert(header_matches(m0, bs0, i - 1));
                }
                let mut new_tail = read_header(&self.memory_space, pred_offset);
                proof {
                    assert(new_tail == header_of(bs0, i - 1));
                }
                new_tail.next = None;
                write_header(&mut self.memory_space, pred_offset, new_tail);
                self.tail = Some(pred_offset);
            }
            let shrink_size = HEADER_SIZE + header.size;
            proof {
                assert(shrink_size == blk_end(bs0[i]) - bs0[i].off);
                assert(shrink_size <= cap0 <= isize::MAX);
            }
            let res = self.sbrk(-(shrink_size as isize));
            match res {
                Ok(_) => {},
                Err(_) => {
                    proof {
                        assert(false);
                    }
                },
            }
            self.blocks = Ghost(spec_free(bs0, brk0, block_offset as int).0);
            proof {
                let bs1 = self.blocks@;
                let m2 = self.memory_space@;
                assert(bs1 == bs0.drop_last());
                let len1 = bs1.len() as int;
                assert(self.brk() == bs0[i].off);
                if i > 0 {
                    assert(bs0[i].off == blk_end(bs0[i - 1]));
                }
                assert(heap_wf(bs1, self.brk(), cap0, self.base())) by {
                    assert forall|j: int| 0 <= j < bs1.len() implies 1 <= (
                    #[trigger] bs1[j]).size && self.base() <= bs1[j].off && blk_end(bs1[j])
                        <= self.brk() by {
                        assert(bs1[j] == bs0[j]);
                        if j < len1 - 1 {
                            assert(blk_end(bs0[j]) <= bs0[len1 - 1].off);
                            assert(blk_end(bs0[len1 - 1]) == bs0[i].off);
                        } else if j == len1 - 1 {
                            assert(blk_end(bs0[j]) == bs0[i].off);
                        }
                    }
                    assert forall|j: int| 0 <= j < bs1.len() - 1 implies (#[trigger] bs1[j
                        + 1]).off == blk_end(bs1[j]) by {
                        assert(bs0[j + 1].off == blk_end(bs0[j]));
                    }
                }
                assert forall|j: int| 0 <= j < bs1.len() implies #[trigger] header_matches(
                    m2,
                    bs1,
                    j,
                ) by {
                    assert(header_matches(m0, bs0, j));
                    if !sole && j == i - 1 {
                        assert(m2.subrange(
                            bs1[j].off as int,
                            bs1[j].off + HEADER_SIZE,
                        ) == spec_encode_header(
                            (Header { size: bs0[j].size, is_free: bs0[j].free, next: None }),
                        ));
                        assert(header_of(bs1, j) == (Header {
                            size: bs0[j].size,
                            is_free: bs0[j].free,
                            next: None,
                        }));
                    } else {
                        if !sole {
                            assert(blk_end(bs0[j]) <= bs0[i - 1].off);
                        }
                        lemma_subrange_eq(m0, m2, bs0[j].off as int, bs0[j].off + HEADER_SIZE);
                        assert(header_of(bs1, j) == header_of(bs0, j));
                    }
                }
                assert forall|k: int| in_payload(bs1, k) implies m2[k] == m0[k] by {
                    let t = choose|t: int|
                        0 <= t < bs1.len() && (#[trigger] bs1[t]).off + HEADER_SIZE <= k < blk_end(
                            bs1[t],
                        );
                    assert(bs1[t] == bs0[t]);
                    if !sole && t != i - 1 {
                        if t < i - 1 {
                            assert(blk_end(bs0[t]) <= bs0[i - 1].off);
                        }
                    }
                }
            }
        } else {
            proof {
                if live && i == bs0.len() - 1 {
                    assert(blk_end(bs0[i]) == brk0);
                    assert(false);
                }
            }
            let mut h2 = header;
            h2.is_free = true;
            write_header(&mut self.memory_space, header_offset, h2);
            self.blocks = Ghost(spec_free(bs0, brk0, block_offset as int).0);
            proof {
                let bs1 = self.blocks@;
                let m2 = self.memory_space@;
                if live {
                    assert(bs1 == bs0.update(
                        i,
                        (Block { off: bs0[i].off, size: bs0[i].size, free: true }),
                    ));
                    assert(heap_wf(bs1, brk0, cap0, self.base())) by {
                        assert forall|j: int| 0 <= j < bs1.len() - 1 implies (#[trigger] bs1[j
                            + 1]).off == blk_end(bs1[j]) by {
                            assert(bs0[j + 1].off == blk_end(bs0[j]));
                        }
                    }
                    assert forall|j: int| 0 <= j < bs1.len() implies #[trigger] header_matches(
                        m2,
                        bs1,
                        j,
                    ) by {
                        assert(header_matches(m0, bs0, j));
                        if j == i {
                            assert(m2.subrange(
                                bs1[j].off as int,
                                bs1[j].off + HEADER_SIZE,
                            ) == spec_encode_header(h2));
                            assert(header_of(bs1, i) == h2);
                        } else {
                            if j < i {
                                assert(blk_end(bs0[j]) <= bs0[i].off);
                            } else {
                                assert(blk_end(bs0[i]) <= bs0[j].off);
                            }
                            lemma_subrange_eq(
                                m0,
                                m2,
                                bs0[j].off as int,
                                bs0[j].off + HEADER_SIZE,
                            );
                            assert(header_of(bs1, j) == header_of(bs0, j));
                        }
                    }
                    assert forall|k: int| in_payload(bs1, k) implies m2[k] == m0[k] by {
                        let t = choose|t: int|
                            0 <= t < bs1.len() && (#[trigger] bs1[t]).off + HEADER_SIZE <= k
                                < blk_end(bs1[t]);
                        if t < i {
                            assert(blk_end(bs0[t]) <= bs0[i].off);
                        } else if i < t {
                            assert(blk_end(bs0[i]) <= bs0[t].off);
                        }
                    }
                } else {
                    assert(bs1 == bs0);
                    assert(header_offset >= brk0);
                    assert forall|j: int| 0 <= j < bs1.len() implies #[trigger] header_matches(
                        m2,
                        bs1,
                        j,
                    ) by {
                        assert(header_matches(m0, bs0, j));
                        assert(blk_end(bs0[j]) <= brk0);
                        lemma_subrange_eq(m0, m2, bs0[j].off as int, bs0[j].off + HEADER_SIZE);
                    }
                    assert forall|k: int| in_payload(bs1, k) implies m2[k] == m0[k] by {
                        let t = choose|t: int|
                            0 <= t < bs1.len() && (#[trigger] bs1[t]).off + HEADER_SIZE <= k
                                < blk_end(bs1[t]);
                        assert(blk_end(bs0[t]) <= brk0);
                    }
                }
            }
        }
    }
}

/// Sets every byte of `[start, end)` to zero; nothing else moves.
fn zero_range(mem: &mut Vec<u8>, start: usize, end: usize)
    requires
        start <= end,
        end <= old(mem).len(),
    ensures
        final(mem).len() == old(mem).len(),
        forall|k: int|
            0 <= k < old(mem).len() && !(start <= k < end) ==> final(mem)@[k] == old(mem)@[k],
        forall|k: int| start <= k < end ==> final(mem)@[k] == 0,
{
    let mut i: usize = start;
    while i < end
        invariant
            start <= i <= end,
            end <= mem.len(),
            mem@.len() == old(mem)@.len(),
            forall|k: int| 0 <= k < mem@.len() && !(start <= k < i) ==> mem@[k] == old(mem)@[k],
            forall|k: int| start <= k < i ==> mem@[k] == 0,
        decreases end - i,
    {
        mem.set(i, 0);
        i = i + 1;
    }
}

/// Copies `count` bytes from `src` to a disjoint `dst` inside one buffer.
fn copy_range(mem: &mut Vec<u8>, src: usize, dst: usize, count: usize)
    requires
        src + count <= old(mem).len(),
        dst + count <= old(mem).len(),
        src + count <= dst || dst + count <= src,
    ensures
        final(mem).len() == old(mem).len(),
        forall|k: int|
            0 <= k < old(mem).len() && !(dst <= k < dst + count) ==> final(mem)@[k] == old(
                mem,
            )@[k],
        forall|k: int| dst <= k < dst + count ==> final(mem)@[k] == old(mem)@[src + (k - dst)],
{
    let mut i: usize = 0;
    while i < count
        invariant
            i <= count,
            src + count <= mem.len(),
            dst + count <= mem.len(),
            mem@.len() == old(mem)@.len(),
            src + count <= dst || dst + count <= src,
            forall|k: int|
                0 <= k < mem@.len() && !(dst <= k < dst + i) ==> mem@[k] == old(mem)@[k],
            forall|k: int| dst <= k < dst + i ==> mem@[k] == old(mem)@[src + (k - dst)],
        decreases count - i,
    {
        let b = mem[src + i];
        mem.set(dst + i, b);
        i = i + 1;
    }
}

impl Memory {
    /// Allocates room for `num` elements of `nsize` bytes each and zero-fills
    /// exactly those `num * nsize` bytes. Fails on a zero count, a zero
    /// element size, an overflowing product, or a failing allocation.
    pub fn calloc(&mut self, num: usize, nsize: usize) -> (r: Option<usize>)
        requires
            old(self).wf(),
        ensures
            final(self).wf(),
            final(self).cap() == old(self).cap(),
            (num == 0 || nsize == 0 || num * nsize > usize::MAX) ==> r is None && unchanged(
                *old(self),
                *final(self),
            ),
            (num > 0 && nsize > 0 && num * nsize <= usize::MAX) ==> ({
                let a = spec_alloc(
                    old(self).blocks(),
                    old(self).brk(),
                    old(self).cap(),
                    num * nsize,
                );
                &&& final(self).blocks() == a.0
                &&& final(self).brk() == a.1
                &&& match r {
                    Some(p) => a.2 == Some(p as int) && p + num * nsize <= old(self).cap() && (
                    forall|k: int| p <= k < p + num * nsize ==> final(self).bytes()[k] == 0) && (
                    forall|k: int|
                        in_payload(old(self).blocks(), k) && !(p <= k < p + num * nsize)
                            ==> final(self).bytes()[k] == old(self).bytes()[k]),
                    None => a.2 is None && unchanged(*old(self), *final(self)),
                }
            }),
    {
        if num == 0 || nsize == 0 {
            return None;
        }
        let size = match num.checked_mul(nsize) {
            Some(s) => s,
            None => {
                return None;
            },
        };
        let ghost bs0 = self.blocks@;
        let ghost m0 = self.memory_space@;
        let r0 = self.allocate(size);
        let block_offset = match r0 {
            Some(o) => o,
            None => {
                return None;
            },
        };
        let ghost bs1 = self.blocks@;
        let ghost m1 = self.memory_space@;
        let ghost t = choose|t: int|
            0 <= t < bs1.len() && (#[trigger] bs1[t]).off + HEADER_SIZE == block_offset && size
                <= bs1[t].size && !bs1[t].free;
        proof {
            assert(blk_end(bs1[t]) <= self.brk());
        }
        zero_range(&mut self.memory_space, block_offset, block_offset + size);
        proof {
            let m2 = self.memory_space@;
            assert forall|j: int| 0 <= j < bs1.len() implies #[trigger] header_matches(
                m2,
                bs1,
                j,
            ) by {
                assert(header_matches(m1, bs1, j));
                if j < t {
                    assert(blk_end(bs1[j]) <= bs1[t].off);
                } else if t < j {
                    assert(blk_end(bs1[t]) <= bs1[j].off);
                }
                lemma_subrange_eq(m1, m2, bs1[j].off as int, bs1[j].off + HEADER_SIZE);
            }
            assert forall|k: int|
                in_payload(bs0, k) && !(block_offset <= k < block_offset + size) implies self.memory_space@[k]
                == m0[k] by {
                assert(m1[k] == m0[k]);
            }
        }
        Some(block_offset)
    }

    /// Resizes the block whose payload starts at `block_offset`. A zero
    /// offset or zero size acts as a fresh allocation (and a zero size
    /// therefore always fails). A stored size already covering the request
    /// returns the same offset unchanged. Otherwise a new block is
    /// allocated, the old payload is copied over, and the old block is
    /// freed; on allocation failure nothing changes at all.
    #[verifier::rlimit(100)]
    #[verifier::spinoff_prover]
    pub fn realloc(&mut self, block_offset: usize, new_size: usize) -> (r: Option<usize>)
        requires
            old(self).wf(),
            block_offset == 0 || new_size == 0 || is_live(old(self).blocks(), block_offset as int),
        ensures
            final(self).wf(),
            final(self).cap() == old(self).cap(),
            ({
                let t = spec_realloc(
                    old(self).blocks(),
                    old(self).brk(),
                    old(self).cap(),
                    block_offset as int,
                    new_size as int,
                );
                &&& final(self).blocks() == t.0
                &&& final(self).brk() == t.1
                &&& match r {
                    Some(p) => t.2 == Some(p as int),
                    None => t.2 is None,
                }
            }),
            r is None ==> unchanged(*old(self), *final(self)),
            (block_offset != 0 && new_size != 0 && is_live(old(self).blocks(), block_offset as int)
                && old(self).blocks()[live_index(old(self).blocks(), block_offset as int)].size
                >= new_size) ==> r == Some(block_offset) && unchanged(*old(self), *final(self)),
            (block_offset != 0 && new_size != 0 && is_live(old(self).blocks(), block_offset as int)
                && old(self).blocks()[live_index(old(self).blocks(), block_offset as int)].size
                < new_size) ==> (match r {
                Some(p) => forall|k: int|
                    p <= k < p + old(self).blocks()[live_index(
                        old(self).blocks(),
                        block_offset as int,
                    )].size ==> final(self).bytes()[k] == old(self).bytes()[block_offset + (k
                        - p)],
                None => true,
            }),
    {
        if block_offset == 0 || new_size == 0 {
            let r0 = self.allocate(new_size);
            return r0;
        }
        let ghost bs0 = self.blocks@;
        let ghost brk0 = self.brk();
        let ghost cap0 = self.cap();
        let ghost m0 = self.memory_space@;
        let ghost i = live_index(bs0, block_offset as int);
        proof {
            assert(0 <= i < bs0.len() && bs0[i].off + HEADER_SIZE == block_offset);
            assert(blk_end(bs0[i]) <= brk0);
            assert(header_matches(m0, bs0, i));
        }
        let header_offset = block_offset - HEADER_SIZE;
        let header = read_header(&self.memory_space, header_offset);
        proof {
            assert(header == header_of(bs0, i));
        }
        if header.size >= new_size {
            return Some(block_offset);
        }
        let r1 = self.allocate(new_size);
        let new_block_offset = match r1 {
            Some(o) => o,
            None => {
                return None;
            },
        };
        let ghost bs1 = self.blocks@;
        let ghost brk1 = self.brk();
        let ghost m1 = self.memory_space@;
        let ghost t = choose|t: int|
            0 <= t < bs1.len() && (#[trigger] bs1[t]).off + HEADER_SIZE == new_block_offset
                && new_size <= bs1[t].size && !bs1[t].free;
        proof {
            if first_fit(bs0, new_size as int) is Some {
                let j = first_fit(bs0, new_size as int).unwrap();
                lemma_first_fit_from_props(bs0, new_size as int, 0, j);
                assert(bs1 == bs0.update(
                    j,
                    (Block { off: bs0[j].off, size: bs0[j].size, free: false }),
                ));
                assert(bs1[i] == bs0[i]);
            } else {
                assert(bs1[i] == bs0[i]);
            }
            if t == i {
                assert(false);
            }
            if t < i {
                assert(blk_end(bs1[t]) <= bs1[i].off);
            } else {
                assert(blk_end(bs1[i]) <= bs1[t].off);
            }
            assert(blk_end(bs1[t]) <= brk1);
            assert(blk_end(bs1[i]) <= brk1);
            assert forall|k: int|
                block_offset <= k < block_offset + header.size implies m1[k] == m0[k] by {
                assert(in_payload(bs0, k));
            }
        }
        copy_range(&mut self.memory_space, block_offset, new_block_offset, header.size);
        proof {
            let m2 = self.memory_space@;
            assert forall|j: int| 0 <= j < bs1.len() implies #[trigger] header_matches(
                m2,
                bs1,
                j,
            ) by {
                assert(header_matches(m1, bs1, j));
                if j < t {
                    assert(blk_end(bs1[j]) <= bs1[t].off);
                } else if t < j {
                    assert(blk_end(bs1[t]) <= bs1[j].off);
                }
                lemma_subrange_eq(m1, m2, bs1[j].off as int, bs1[j].off + HEADER_SIZE);
            }
            lemma_live_index_unique(bs1, brk1, cap0, self.base(), i);
        }
        self.free(block_offset);
        proof {
            let bs2 = self.blocks@;
            let m3 = self.memory_space@;
            assert forall|k: int|
                new_block_offset <= k < new_block_offset + header.size implies m3[k] == m0[
                block_offset + (k - new_block_offset)] by {
                let f = spec_free(bs1, brk1, block_offset as int);
                if i == bs1.len() - 1 {
                    assert(bs2 == bs1.drop_last());
                    assert(bs2[t] == bs1[t]);
                } else {
                    assert(bs2[t] == bs1[t]);
                }
                assert(in_payload(bs2, k));
            }
        }
        Some(new_block_offset)
    }

    /// Bounds-checked copy out of the arena: `length` bytes starting at
    /// `offset`, or nothing when the range passes the capacity.
    pub fn read_bytes(&self, offset: usize, length: usize) -> (r: Option<Vec<u8>>)
        ensures
            match r {
                Some(v) => offset + length <= self.cap() && v@ == self.bytes().subrange(
                    offset as int,
                    offset + length,
                ),
                None => offset + length > self.cap(),
            },
    {
        let cap = self.memory_space.len();
        if length > cap {
            return None;
        }
        if offset > cap - length {
            return None;
        }
        let mut out: Vec<u8> = Vec::new();
        let mut i: usize = 0;
        while i < length
            invariant
                offset + length <= self.memory_space.len(),
                i <= length,
                out@.len() == i,
                forall|k: int| 0 <= k < i ==> out@[k] == self.memory_space@[offset + k],
            decreases length - i,
        {
            out.push(self.memory_space[offset + i]);
            i = i + 1;
        }
        proof {
            assert(out@ =~= self.bytes().subrange(offset as int, offset + length));
        }
        Some(out)
    }

    /// Bounds-checked copy into the arena. Returns false, writing nothing,
    /// when the range passes the capacity. The block list is not consulted:
    /// writing over header bytes is the caller's error, and the heap
    /// invariant is kept exactly when the whole range lies in payload bytes.
    pub fn write_bytes(&mut self, offset: usize, data: &Vec<u8>) -> (r: bool)
        ensures
            final(self).cap() == old(self).cap(),
            final(self).brk() == old(self).brk(),
            final(self).blocks() == old(self).blocks(),
            final(self).head_off() == old(self).head_off(),
            final(self).tail_off() == old(self).tail_off(),
            r <==> offset + data.len() <= old(self).cap(),
            !r ==> final(self).bytes() == old(self).bytes(),
            r ==> final(self).bytes().subrange(offset as int, offset + data.len()) == data@,
            r ==> forall|k: int|
                0 <= k < old(self).cap() && !(offset <= k < offset + data.len()) ==> final(self).bytes()[k] == old(self).bytes()[k],
            (old(self).wf() && (forall|k: int|
                offset <= k < offset + data.len() ==> in_payload(old(self).blocks(), k))) ==> final(self).wf(),
    {
        let ghost bs0 = self.blocks@;
        let ghost m0 = self.memory_space@;
        let len = data.len();
        let cap = self.memory_space.len();
        if len > cap {
            return false;
        }
        if offset > cap - len {
            return false;
        }
        crate::header::copy_bytes_into(&mut self.memory_space, offset, data);
        proof {
            let m2 = self.memory_space@;
            if old(self).wf() && (forall|k: int|
                offset <= k < offset + data.len() ==> in_payload(bs0, k)) {
                assert forall|j: int| 0 <= j < bs0.len() implies #[trigger] header_matches(
                    m2,
                    bs0,
                    j,
                ) by {
                    assert(header_matches(m0, bs0, j));
                    assert forall|k: int|
                        bs0[j].off <= k < bs0[j].off + HEADER_SIZE implies m2[k] == m0[k] by {
                        if offset <= k < offset + data.len() {
                            assert(in_payload(bs0, k));
                            let t = choose|t: int|
                                0 <= t < bs0.len() && (#[trigger] bs0[t]).off + HEADER_SIZE <= k
                                    < blk_end(bs0[t]);
                            if t < j {
                                assert(blk_end(bs0[t]) <= bs0[j].off);
                            } else if j < t {
                                assert(blk_end(bs0[j]) <= bs0[t].off);
                            }
                            assert(false);
                        }
                    }
                    lemma_subrange_eq(m0, m2, bs0[j].off as int, bs0[j].off + HEADER_SIZE);
                }
            }
        }
        true
    }
}

} // verus!
