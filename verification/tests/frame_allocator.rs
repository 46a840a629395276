use rvos::mm::address::PhysPageNum;
use rvos::mm::frame_allocator::{frame_alloc, frame_dealloc, FrameTracker, StackFrameAllocator};

fn allocator(l: u64, r: u64) -> StackFrameAllocator {
    let mut a = StackFrameAllocator::new();
    a.init(PhysPageNum(l), PhysPageNum(r));
    a
}

#[test]
fn new_allocator_is_empty() {
    let mut a = StackFrameAllocator::new();
    assert!(a.has_available(0));
    assert!(!a.has_available(1));
    assert!(a.allocate().is_none());
}

#[test]
fn bump_allocation_ascends() {
    let mut a = allocator(100, 103);
    assert_eq!(a.allocate(), Some(PhysPageNum(100)));
    assert_eq!(a.allocate(), Some(PhysPageNum(101)));
    assert_eq!(a.allocate(), Some(PhysPageNum(102)));
    assert_eq!(a.allocate(), None);
    assert_eq!(a.allocate(), None);
}

#[test]
fn recycled_frames_come_back_lifo() {
    let mut a = allocator(10, 20);
    let first = a.allocate().unwrap();
    let second = a.allocate().unwrap();
    let third = a.allocate().unwrap();
    a.dealloc(first);
    a.dealloc(third);
    assert_eq!(a.allocate(), Some(third));
    assert_eq!(a.allocate(), Some(first));
    assert_eq!(a.allocate(), Some(PhysPageNum(13)));
    assert_eq!(second, PhysPageNum(11));
}

#[test]
fn alloc_dealloc_alloc_never_hands_out_a_live_frame() {
    let mut a = allocator(0, 8);
    let live = a.allocate().unwrap();
    let other = a.allocate().unwrap();
    let p = a.allocate().unwrap();
    a.dealloc(p);
    let q = a.allocate().unwrap();
    assert_eq!(q, p);
    assert_ne!(q, live);
    assert_ne!(q, other);
}

#[test]
fn has_available_counts_bump_and_recycled() {
    let mut a = allocator(0, 4);
    assert!(a.has_available(4));
    assert!(!a.has_available(5));
    let p = a.allocate().unwrap();
    let _q = a.allocate().unwrap();
    assert!(a.has_available(2));
    assert!(!a.has_available(3));
    a.dealloc(p);
    assert!(a.has_available(3));
    assert!(!a.has_available(4));
    assert!(a.has_available_sum(1, 2));
    assert!(!a.has_available_sum(2, 2));
    assert!(!a.has_available_sum(u64::MAX, u64::MAX));
    assert!(a.has_available_wide(3));
    assert!(!a.has_available_wide(4));
    assert!(!a.has_available_wide(u128::MAX));
}

#[test]
fn frame_alloc_hands_out_zeroed_frames() {
    let mut a = allocator(7, 9);
    let f = frame_alloc(&mut a).unwrap();
    assert_eq!(f.ppn(), PhysPageNum(7));
    for i in 0..512 {
        assert_eq!(f.read_word(i), 0);
    }
    for off in [0usize, 1, 7, 8, 4095] {
        assert_eq!(f.read_byte(off), 0);
    }
    let g = frame_alloc(&mut a).unwrap();
    assert_eq!(g.ppn(), PhysPageNum(8));
    assert!(frame_alloc(&mut a).is_none());
    frame_dealloc(&mut a, f.ppn());
    assert_eq!(frame_alloc(&mut a).unwrap().ppn(), PhysPageNum(7));
}

#[test]
fn frame_bytes_are_little_endian_words() {
    let mut f = FrameTracker::new(PhysPageNum(3));
    f.write_word(1, 0x0807_0605_0403_0201);
    for k in 0..8usize {
        assert_eq!(f.read_byte(8 + k), (k + 1) as u8);
    }
    f.write_byte(10, 0xaa);
    assert_eq!(f.read_word(1), 0x0807_0605_04aa_0201);
    f.write_byte(15, 0xff);
    assert_eq!(f.read_word(1), 0xff07_0605_04aa_0201);
    assert_eq!(f.read_word(0), 0);
    assert_eq!(f.read_word(2), 0);
}

#[test]
fn frame_copy_takes_every_word() {
    let mut src = FrameTracker::new(PhysPageNum(1));
    src.write_word(0, 11);
    src.write_word(511, 99);
    src.write_byte(100, 5);
    let mut dst = FrameTracker::new(PhysPageNum(2));
    dst.write_word(7, 1234);
    dst.copy_from(&src);
    assert_eq!(dst.ppn(), PhysPageNum(2));
    assert_eq!(dst.read_word(0), 11);
    assert_eq!(dst.read_word(511), 99);
    assert_eq!(dst.read_word(7), 0);
    assert_eq!(dst.read_byte(100), 5);
}
