use sbrk_heap::allocator::Allocator;
use sbrk_heap::header::{read_header, write_header, Header, HEADER_SIZE};
use sbrk_heap::memory::{Memory, MEM_SIZE};

#[test]
fn header_layout_is_pinned() {
    assert_eq!(HEADER_SIZE, 18);
    let mut buf: Vec<u8> = vec![0xFF; 30];
    let h = Header { size: 0x0102, is_free: true, next: Some(0x0304) };
    write_header(&mut buf, 5, h);
    let expected: Vec<u8> = vec![
        0x02, 0x01, 0, 0, 0, 0, 0, 0, // size, little endian
        1, // free flag
        1, // link tag
        0x04, 0x03, 0, 0, 0, 0, 0, 0, // link offset, little endian
    ];
    assert_eq!(&buf[5..23], &expected[..]);
    assert_eq!(buf[4], 0xFF);
    assert_eq!(buf[23], 0xFF);
    assert_eq!(read_header(&buf, 5), h);
}

#[test]
fn header_without_link_encodes_zeros() {
    let mut buf: Vec<u8> = vec![0xFF; 18];
    let h = Header { size: 7, is_free: false, next: None };
    write_header(&mut buf, 0, h);
    let expected: Vec<u8> = vec![7, 0, 0, 0, 0, 0, 0, 0, 0, 0, 0, 0, 0, 0, 0, 0, 0, 0];
    assert_eq!(buf, expected);
    assert_eq!(read_header(&buf, 0), h);
}

#[test]
fn allocation_stays_inside_capacity() {
    let mut m = Memory::new();
    let n = 12345;
    let p = m.allocate(n).unwrap();
    assert!(p + n <= MEM_SIZE);
    assert_eq!(p, MEM_SIZE / 3 + HEADER_SIZE);
}

#[test]
fn zero_size_requests_fail() {
    let mut m = Memory::new();
    assert_eq!(m.allocate(0), None);
    assert_eq!(m.calloc(0, 7), None);
    assert_eq!(m.calloc(7, 0), None);
    // the heap is untouched by the failures
    assert_eq!(m.sbrk(0), Ok(MEM_SIZE / 3));
}

#[test]
fn calloc_overflow_fails() {
    let mut m = Memory::new();
    assert_eq!(m.calloc(usize::MAX, 2), None);
    assert_eq!(m.sbrk(0), Ok(MEM_SIZE / 3));
}

#[test]
fn tail_shrink_round_trip() {
    let mut m = Memory::with_capacity(3000);
    assert_eq!(m.sbrk(0), Ok(1000));
    let p = m.allocate(100).unwrap();
    assert_eq!(p, 1018);
    assert_eq!(m.sbrk(0), Ok(1118));
    m.free(p);
    // the sole block is reclaimed: the break returns exactly
    assert_eq!(m.sbrk(0), Ok(1000));
    assert_eq!(m.allocate(100), Some(1018));
}

#[test]
fn interior_free_keeps_break_and_is_reused_first_fit() {
    let mut m = Memory::with_capacity(3000);
    let a = m.allocate(40).unwrap();
    assert_eq!(a, 1018);
    let b = m.allocate(10).unwrap();
    assert_eq!(b, 1076);
    m.free(a);
    // interior block: the break does not move
    assert_eq!(m.sbrk(0), Ok(1086));
    // a smaller request reuses the freed block's offset
    assert_eq!(m.allocate(24), Some(1018));
}

#[test]
fn interior_free_not_reused_when_too_small() {
    let mut m = Memory::with_capacity(3000);
    let a = m.allocate(40).unwrap();
    let _b = m.allocate(10).unwrap();
    m.free(a);
    // a larger request does not reuse it: a fresh block is carved
    assert_eq!(m.allocate(41), Some(1104));
    assert_eq!(m.sbrk(0), Ok(1145));
}

#[test]
fn calloc_zeroes_a_reused_dirty_block() {
    let mut m = Memory::with_capacity(3000);
    let a = m.allocate(64).unwrap();
    let _b = m.allocate(8).unwrap();
    assert!(m.write_bytes(a, &vec![0xAB; 64]));
    m.free(a);
    let p = m.calloc(8, 8).unwrap();
    assert_eq!(p, a);
    let bytes = m.read_bytes(p, 64).unwrap();
    assert!(bytes.iter().all(|&x| x == 0));
}

#[test]
fn realloc_shrink_returns_same_offset() {
    let mut m = Memory::with_capacity(3000);
    let p = m.allocate(10).unwrap();
    assert_eq!(m.realloc(p, 4), Some(p));
    assert_eq!(m.realloc(p, 10), Some(p));
    assert_eq!(m.sbrk(0), Ok(1028));
}

#[test]
fn realloc_grow_copies_and_frees_old_block() {
    let mut m = Memory::with_capacity(3000);
    let p1 = m.allocate(10).unwrap();
    let data: Vec<u8> = vec![1, 2, 3, 4, 5, 6, 7, 8, 9, 10];
    assert!(m.write_bytes(p1, &data));
    let _b = m.allocate(5).unwrap();
    let p2 = m.realloc(p1, 50).unwrap();
    assert_ne!(p2, p1);
    assert_eq!(m.read_bytes(p2, 10).unwrap(), data);
    // the old region is eligible for reuse afterwards
    assert_eq!(m.allocate(10), Some(p1));
}

#[test]
fn realloc_null_or_zero_acts_as_allocate() {
    let mut m = Memory::with_capacity(3000);
    // a null offset allocates afresh
    assert_eq!(m.realloc(0, 20), Some(1018));
    // a zero size degrades to a zero-size allocation, which always fails
    let p = 1018;
    assert_eq!(m.realloc(p, 0), None);
    assert_eq!(m.sbrk(0), Ok(1038));
}

#[test]
fn exact_fill_succeeds_and_one_more_byte_fails() {
    let mut m = Memory::with_capacity(300);
    assert_eq!(m.allocate(182), Some(118));
    assert_eq!(m.sbrk(0), Ok(300));

    let mut m2 = Memory::with_capacity(300);
    assert_eq!(m2.allocate(183), None);
    assert_eq!(m2.sbrk(0), Ok(100));

    let mut big = Memory::new();
    let largest = MEM_SIZE - MEM_SIZE / 3 - HEADER_SIZE;
    assert_eq!(big.allocate(largest), Some(MEM_SIZE / 3 + HEADER_SIZE));
    assert_eq!(big.sbrk(0), Ok(MEM_SIZE));

    let mut big2 = Memory::new();
    assert_eq!(big2.allocate(largest + 1), None);
    assert_eq!(big2.sbrk(0), Ok(MEM_SIZE / 3));
}

#[test]
fn double_free_and_null_free_are_safe() {
    let mut m = Memory::with_capacity(300);
    let p = m.allocate(10).unwrap();
    assert_eq!(p, 118);
    m.free(p);
    assert_eq!(m.sbrk(0), Ok(100));
    // freeing the already-reclaimed offset again is a no-op
    m.free(p);
    assert_eq!(m.sbrk(0), Ok(100));
    // freeing a null offset is a no-op
    m.free(0);
    assert_eq!(m.sbrk(0), Ok(100));
    // the heap still works as if freshly emptied
    assert_eq!(m.allocate(10), Some(118));
}

#[test]
fn sbrk_moves_and_reports_the_break() {
    let mut m = Memory::with_capacity(300);
    assert_eq!(m.sbrk(0), Ok(100));
    assert_eq!(m.sbrk(50), Ok(150));
    assert_eq!(m.sbrk(-50), Ok(100));
}

#[test]
fn sbrk_error_cases() {
    let mut m = Memory::with_capacity(300);
    assert_eq!(m.sbrk(201), Err("Program Break has exceeded memory space!"));
    assert_eq!(m.sbrk(-101), Err("Program Break arithmetic overflow!"));
    assert_eq!(m.sbrk(isize::MIN), Err("Program Break arithmetic overflow!"));
    // a failed adjustment leaves the break unchanged
    assert_eq!(m.sbrk(0), Ok(100));
}

#[test]
fn byte_access_is_bounds_checked() {
    let mut m = Memory::with_capacity(300);
    assert!(m.read_bytes(299, 2).is_none());
    assert!(m.read_bytes(0, 301).is_none());
    assert!(!m.write_bytes(299, &vec![1, 2]));
    assert!(m.read_bytes(298, 2).is_some());
}

#[test]
fn allocator_facade_forwards_to_the_heap() {
    let mut a = Allocator::new();
    assert_eq!(a.malloc(0), None);
    assert_eq!(a.malloc(1024), Some(MEM_SIZE / 3 + HEADER_SIZE));
}

#[test]
fn freeing_the_tail_relinks_the_predecessor() {
    let mut m = Memory::with_capacity(3000);
    let a = m.allocate(10).unwrap();
    let b = m.allocate(20).unwrap();
    let c = m.allocate(30).unwrap();
    assert_eq!((a, b, c), (1018, 1046, 1084));
    // the trailing block is reclaimed and its predecessor becomes the tail
    m.free(c);
    assert_eq!(m.sbrk(0), Ok(1066));
    // a new allocation is carved right where the reclaimed block stood
    assert_eq!(m.allocate(5), Some(1084));
    assert_eq!(m.sbrk(0), Ok(1089));
}

#[test]
fn marked_free_block_is_reclaimed_by_a_second_free_at_the_break() {
    let mut m = Memory::with_capacity(3000);
    let a = m.allocate(10).unwrap();
    let b = m.allocate(10).unwrap();
    m.free(a);
    // interior: only marked free
    assert_eq!(m.sbrk(0), Ok(1056));
    m.free(b);
    // the trailing block goes, the marked block becomes the tail
    assert_eq!(m.sbrk(0), Ok(1028));
    // freeing the marked block now finds it trailing and reclaims it too
    m.free(a);
    assert_eq!(m.sbrk(0), Ok(1000));
    assert_eq!(m.allocate(10), Some(1018));
}
