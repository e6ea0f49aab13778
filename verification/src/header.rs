//! The block header and its fixed-width byte layout.
//!
//! Every heap block begins with an 18-byte header stored directly inside the
//! arena: the payload size as eight little-endian bytes, one flag byte for
//! the free bit (1 = free), one tag byte for the link (1 = a next offset
//! follows), and the next header's offset as eight little-endian bytes
//! (all zero when there is no next block).

use vstd::bytes::{
    lemma_auto_spec_u64_to_from_le_bytes, spec_u64_from_le_bytes, spec_u64_to_le_bytes,
    u64_from_le_bytes, u64_to_le_bytes,
};
use vstd::prelude::*;
use vstd::slice::slice_subrange;

verus! {

broadcast use vstd::seq::group_seq_axioms, vstd::std_specs::vec::group_vec_axioms;

/// Number of bytes a block header occupies inside the arena.
pub const HEADER_SIZE: usize = 18;

/// Metadata record stored immediately before each block's payload.
#[derive(Clone, Copy, Debug, PartialEq, Eq)]
pub struct Header {
    /// Payload size in bytes, excluding the header itself.
    pub size: usize,
    /// True when the block is available for reuse.
    pub is_free: bool,
    /// Offset of the next header in allocation order, if any.
    pub next: Option<usize>,
}

/// The exact byte image of a header: size (8 bytes, little endian),
/// free flag (1 byte), link tag (1 byte), link offset (8 bytes, little
/// endian, zero when absent).
pub open spec fn spec_encode_header(h: Header) -> Seq<u8> {
    spec_u64_to_le_bytes(h.size as u64) + seq![if h.is_free {
        1u8
    } else {
        0u8
    }] + seq![if h.next is Some {
        1u8
    } else {
        0u8
    }] + spec_u64_to_le_bytes(
        match h.next {
            Some(n) => n as u64,
            None => 0u64,
        },
    )
}

/// The encoding always fills exactly `HEADER_SIZE` bytes.
pub proof fn lemma_encode_header_len(h: Header)
    ensures
        spec_encode_header(h).len() == HEADER_SIZE,
{
    lemma_auto_spec_u64_to_from_le_bytes();
}

/// Copies all of `src` into `mem` starting at `offset`; nothing else moves.
pub(crate) fn copy_bytes_into(mem: &mut Vec<u8>, offset: usize, src: &Vec<u8>)
    requires
        offset + src@.len() <= old(mem).len(),
    ensures
        final(mem).len() == old(mem).len(),
        forall|k: int|
            0 <= k < old(mem).len() && !(offset <= k < offset + src@.len()) ==> final(mem)@[k]
                == old(mem)@[k],
        final(mem)@.subrange(offset as int, offset + src@.len()) == src@,
{
    let mut i: usize = 0;
    while i < src.len()
        invariant
            i <= src@.len(),
            offset + src@.len() <= mem.len(),
            mem.len() == old(mem).len(),
            forall|k: int|
                0 <= k < mem.len() && !(offset <= k < offset + i) ==> mem@[k] == old(mem)@[k],
            forall|k: int| 0 <= k < i ==> mem@[offset + k] == src@[k],
        decreases src@.len() - i,
    {
        mem.set(offset + i, src[i]);
        i = i + 1;
    }
    assert(mem@.subrange(offset as int, offset + src@.len()) =~= src@);
}

/// Serializes `h` into the `HEADER_SIZE` bytes of `mem` starting at `offset`.
pub fn write_header(mem: &mut Vec<u8>, offset: usize, h: Header)
    requires
        offset + HEADER_SIZE <= old(mem).len(),
    ensures
        final(mem).len() == old(mem).len(),
        forall|k: int|
            0 <= k < old(mem).len() && !(offset <= k < offset + HEADER_SIZE) ==> final(mem)@[k]
                == old(mem)@[k],
        final(mem)@.subrange(offset as int, offset + HEADER_SIZE) == spec_encode_header(h),
{
    proof {
        lemma_auto_spec_u64_to_from_le_bytes();
    }
    let size_bytes = u64_to_le_bytes(h.size as u64);
    copy_bytes_into(mem, offset, &size_bytes);
    mem.set(offset + 8, if h.is_free { 1 } else { 0 });
    let tag: u8 = match h.next {
        Some(_) => 1,
        None => 0,
    };
    mem.set(offset + 9, tag);
    let link: u64 = match h.next {
        Some(n) => n as u64,
        None => 0,
    };
    let link_bytes = u64_to_le_bytes(link);
    copy_bytes_into(mem, offset + 10, &link_bytes);
    proof {
        lemma_encode_header_len(h);
        assert(mem@.subrange(offset as int, offset + HEADER_SIZE) =~= spec_encode_header(h)) by {
            assert forall|k: int| 0 <= k < HEADER_SIZE implies mem@[offset + k] == #[trigger] spec_encode_header(
                h,
            )[k] by {
                if k < 8 {
                    assert(mem@[offset + k] == spec_u64_to_le_bytes(h.size as u64)[k]);
                } else if k == 8 || k == 9 {
                } else {
                    assert(mem@[offset + 10 + (k - 10)] == spec_u64_to_le_bytes(link)[k - 10]);
                }
            }
        }
    }
}

/// Reads eight little-endian bytes of `mem` at `offset` as one `u64`.
fn read_u64_at(mem: &Vec<u8>, offset: usize) -> (x: u64)
    requires
        offset + 8 <= mem.len(),
    ensures
        x == spec_u64_from_le_bytes(mem@.subrange(offset as int, offset + 8)),
{
    let s = slice_subrange(mem.as_slice(), offset, offset + 8);
    u64_from_le_bytes(s)
}

/// Deserializes the header stored at `offset`. When the bytes are a valid
/// encoding, the result is exactly the header that was encoded; on other
/// byte patterns the result is unconstrained (but the call is still safe).
pub fn read_header(mem: &Vec<u8>, offset: usize) -> (h: Header)
    requires
        offset + HEADER_SIZE <= mem.len(),
    ensures
        forall|h0: Header|
            mem@.subrange(offset as int, offset + HEADER_SIZE) == spec_encode_header(h0) ==> h
                == h0,
{
    proof {
        lemma_auto_spec_u64_to_from_le_bytes();
    }
    let size64 = read_u64_at(mem, offset);
    let size: usize = #[verifier::truncate] (size64 as usize);
    let is_free = mem[offset + 8] == 1;
    let tag = mem[offset + 9];
    let link64 = read_u64_at(mem, offset + 10);
    let next: Option<usize> = if tag == 1 {
        Some(#[verifier::truncate] (link64 as usize))
    } else {
        None
    };
    let h = Header { size, is_free, next };
    proof {
        let sub = mem@.subrange(offset as int, offset + HEADER_SIZE);
        assert forall|h0: Header| sub == spec_encode_header(h0) implies h == h0 by {
            lemma_encode_header_len(h0);
            assert(mem@.subrange(offset as int, offset + 8) =~= spec_u64_to_le_bytes(
                h0.size as u64,
            )) by {
                assert forall|k: int| 0 <= k < 8 implies mem@[offset + k] == #[trigger] spec_u64_to_le_bytes(
                    h0.size as u64,
                )[k] by {
                    assert(sub[k] == spec_encode_header(h0)[k]);
                }
            }
            assert(size64 == h0.size as u64);
            assert(sub[8] == spec_encode_header(h0)[8]);
            assert(sub[9] == spec_encode_header(h0)[9]);
            let link0: u64 = match h0.next {
                Some(n) => n as u64,
                None => 0u64,
            };
            assert(mem@.subrange(offset + 10, offset + HEADER_SIZE) =~= spec_u64_to_le_bytes(
                link0,
            )) by {
                assert forall|k: int| 0 <= k < 8 implies mem@[offset + 10 + k]
                    == #[trigger] spec_u64_to_le_bytes(link0)[k] by {
                    assert(sub[10 + k] == spec_encode_header(h0)[10 + k]);
                }
            }
            assert(link64 == link0);
        }
    }
    h
}

} // verus!
