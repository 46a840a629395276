use rvos::mm::address::{PhysAddr, PhysPageNum, VirtPageNum};
use rvos::mm::elf::{check_segments, load_cost_of_segments, ElfError, ProgramSegment};
use rvos::mm::frame_allocator::StackFrameAllocator;
use rvos::mm::memory_set::{MemorySet, TRAMPOLINE_VPN, TRAP_CONTEXT_VPN};
use rvos::mm::page_table::{PTE_R, PTE_U, PTE_V, PTE_W, PTE_X};

fn allocator(l: u64, r: u64) -> StackFrameAllocator {
    let mut a = StackFrameAllocator::new();
    a.init(PhysPageNum(l), PhysPageNum(r));
    a
}

struct Seg {
    kind: u32,
    flags: u32,
    vaddr: u64,
    memsz: u64,
    data: Vec<u8>,
}

/// A 64-bit little-endian ELF image with these program headers; the data of
/// each segment follows the headers, each at a multiple of 16.
fn image(entry: u64, segs: &[Seg]) -> Vec<u8> {
    let mut v = vec![0x7f, b'E', b'L', b'F', 2, 1, 1, 0, 0, 0, 0, 0, 0, 0, 0, 0];
    v.extend_from_slice(&2u16.to_le_bytes());
    v.extend_from_slice(&0xf3u16.to_le_bytes());
    v.extend_from_slice(&1u32.to_le_bytes());
    v.extend_from_slice(&entry.to_le_bytes());
    v.extend_from_slice(&64u64.to_le_bytes());
    v.extend_from_slice(&0u64.to_le_bytes());
    v.extend_from_slice(&0u32.to_le_bytes());
    v.extend_from_slice(&64u16.to_le_bytes());
    v.extend_from_slice(&56u16.to_le_bytes());
    v.extend_from_slice(&(segs.len() as u16).to_le_bytes());
    v.extend_from_slice(&[0u8; 6]);
    assert_eq!(v.len(), 64);
    let mut offset = 64 + 56 * segs.len() as u64;
    let mut offsets = Vec::new();
    for s in segs {
        offset = (offset + 15) / 16 * 16;
        offsets.push(offset);
        v.extend_from_slice(&s.kind.to_le_bytes());
        v.extend_from_slice(&s.flags.to_le_bytes());
        v.extend_from_slice(&offset.to_le_bytes());
        v.extend_from_slice(&s.vaddr.to_le_bytes());
        v.extend_from_slice(&s.vaddr.to_le_bytes());
        v.extend_from_slice(&(s.data.len() as u64).to_le_bytes());
        v.extend_from_slice(&s.memsz.to_le_bytes());
        v.extend_from_slice(&4096u64.to_le_bytes());
        offset += s.data.len() as u64;
    }
    for (s, off) in segs.iter().zip(offsets) {
        while (v.len() as u64) < off {
            v.push(0);
        }
        v.extend_from_slice(&s.data);
    }
    while v.len() % 8 != 0 {
        v.push(0);
    }
    v
}

fn two_segments() -> Vec<u8> {
    image(
        0x1_0040,
        &[
            Seg { kind: 1, flags: 5, vaddr: 0x1_0000, memsz: 0x1800, data: (1..=200u8).collect() },
            Seg { kind: 4, flags: 4, vaddr: 0x9_0000, memsz: 0x10, data: vec![9; 16] },
            Seg { kind: 1, flags: 6, vaddr: 0x1_2000, memsz: 0x3000, data: vec![0xab; 5000] },
        ],
    )
}

#[test]
fn load_segments_stack_and_trap_context() {
    let mut a = allocator(0x2000, 0x2100);
    let img = two_segments();
    let (ms, sp, entry) = MemorySet::from_elf(&mut a, &img, PhysAddr(0x8020_1000)).unwrap();
    assert_eq!(entry, 0x1_0040);
    assert_eq!(sp, 0x1_7000);
    assert_eq!(ms.area_count(), 4);
    for v in [0x10u64, 0x11] {
        assert_eq!(ms.translate(VirtPageNum(v)).unwrap().flags().bits, PTE_U | PTE_R | PTE_X | PTE_V);
    }
    for v in [0x12u64, 0x13, 0x14] {
        assert_eq!(ms.translate(VirtPageNum(v)).unwrap().flags().bits, PTE_U | PTE_R | PTE_W | PTE_V);
    }
    assert_eq!(ms.translate(VirtPageNum(0x15)), None);
    assert_eq!(ms.translate(VirtPageNum(0x16)).unwrap().flags().bits, PTE_U | PTE_R | PTE_W | PTE_V);
    assert_eq!(ms.translate(VirtPageNum(0x17)), None);
    assert_eq!(ms.translate(VirtPageNum(0x90)), None);
    assert_eq!(ms.translate(VirtPageNum(TRAP_CONTEXT_VPN)).unwrap().flags().bits, PTE_R | PTE_W | PTE_V);
    let t = ms.translate(VirtPageNum(TRAMPOLINE_VPN)).unwrap();
    assert_eq!(t.ppn().0, 0x80201);
    assert_eq!(t.flags().bits, PTE_R | PTE_X | PTE_V);
}

#[test]
fn loaded_bytes_are_file_bytes_then_zero() {
    let mut a = allocator(0x2000, 0x2100);
    let img = two_segments();
    let (ms, _, _) = MemorySet::from_elf(&mut a, &img, PhysAddr(0x8020_1000)).unwrap();
    for i in 0..200u64 {
        assert_eq!(ms.read_byte(0x1_0000 + i), Some(i as u8 + 1));
    }
    for i in [200u64, 201, 0xfff, 0x1000, 0x17ff, 0x1fff] {
        assert_eq!(ms.read_byte(0x1_0000 + i), Some(0));
    }
    for i in [0u64, 1, 4095, 4096, 4999] {
        assert_eq!(ms.read_byte(0x1_2000 + i), Some(0xab));
    }
    for i in [5000u64, 8191, 8192, 0x2fff] {
        assert_eq!(ms.read_byte(0x1_2000 + i), Some(0));
    }
    assert_eq!(ms.read_byte(0x1_5000), None);
    assert_eq!(ms.read_byte(0x1_6000), Some(0));
    assert_eq!(ms.read_byte(0x1_6fff), Some(0));
    assert_eq!(ms.read_byte(0x7f_ffff_e000), Some(0));
}

#[test]
fn image_may_lie_at_any_address() {
    let img = two_segments();
    let mut shifted = vec![0u8; 3];
    shifted.extend_from_slice(&img);
    for skip in 0..3usize {
        let mut padded = vec![0u8; skip];
        padded.extend_from_slice(&img);
        let mut a = allocator(0x2000, 0x2100);
        let (ms, sp, entry) = MemorySet::from_elf(&mut a, &padded[skip..], PhysAddr(0x8020_1000)).unwrap();
        assert_eq!((sp, entry), (0x1_7000, 0x1_0040));
        assert_eq!(ms.read_byte(0x1_0001), Some(2));
    }
    let mut a = allocator(0x2000, 0x2100);
    assert!(MemorySet::from_elf(&mut a, &shifted[3..], PhysAddr(0x8020_1000)).is_ok());
}

#[test]
fn image_without_segments_gets_stack_at_page_one() {
    let mut a = allocator(0, 32);
    let img = image(0x55, &[]);
    let (ms, sp, entry) = MemorySet::from_elf(&mut a, &img, PhysAddr(0x1000)).unwrap();
    assert_eq!((sp, entry), (0x2000, 0x55));
    assert_eq!(ms.area_count(), 2);
    assert!(ms.translate(VirtPageNum(1)).is_some());
    assert_eq!(ms.translate(VirtPageNum(0)), None);
    assert_eq!(ms.translate(VirtPageNum(2)), None);
    assert!(a.has_available(32 - 9 + 2) || a.has_available(32 - 9));
}

#[test]
fn short_or_foreign_image_is_no_elf() {
    let mut a = allocator(0, 64);
    let good = image(0, &[]);
    assert_eq!(MemorySet::from_elf(&mut a, &good[..63], PhysAddr(0)).err(), Some(ElfError::NotElf));
    assert_eq!(MemorySet::from_elf(&mut a, &[], PhysAddr(0)).err(), Some(ElfError::NotElf));
    let mut bad_magic = good.clone();
    bad_magic[1] = b'F';
    assert_eq!(MemorySet::from_elf(&mut a, &bad_magic, PhysAddr(0)).err(), Some(ElfError::NotElf));
    let mut bad_class = good.clone();
    bad_class[4] = 3;
    assert_eq!(MemorySet::from_elf(&mut a, &bad_class, PhysAddr(0)).err(), Some(ElfError::NotElf));
    assert!(a.has_available(64));
    assert!(MemorySet::from_elf(&mut a, &good, PhysAddr(0)).is_ok());
}

#[test]
fn program_headers_out_of_bounds_are_refused() {
    let mut a = allocator(0, 64);
    let good = image(0, &[Seg { kind: 1, flags: 4, vaddr: 0x1000, memsz: 16, data: vec![1; 16] }]);
    let mut count = good.clone();
    count[56] = 200;
    assert_eq!(MemorySet::from_elf(&mut a, &count, PhysAddr(0)).err(), Some(ElfError::BadProgramHeaders));
    let mut small = good.clone();
    small[54] = 48;
    assert_eq!(MemorySet::from_elf(&mut a, &small, PhysAddr(0)).err(), Some(ElfError::BadProgramHeaders));
    let mut odd = good.clone();
    odd[32] = 65;
    assert_eq!(MemorySet::from_elf(&mut a, &odd, PhysAddr(0)).err(), Some(ElfError::BadProgramHeaders));
    let mut none = good.clone();
    none[32] = 0;
    assert_eq!(MemorySet::from_elf(&mut a, &none, PhysAddr(0)).err(), Some(ElfError::BadProgramHeaders));
    assert!(a.has_available(64));
}

#[test]
fn segments_that_do_not_fit_are_refused() {
    let mut a = allocator(0, 64);
    let beyond_file = {
        let mut img = image(0, &[Seg { kind: 1, flags: 4, vaddr: 0x1000, memsz: 16, data: vec![1; 16] }]);
        img[64 + 32..64 + 40].copy_from_slice(&100_000u64.to_le_bytes());
        img
    };
    assert_eq!(MemorySet::from_elf(&mut a, &beyond_file, PhysAddr(0)).err(), Some(ElfError::BadSegment));
    let high = image(0, &[Seg { kind: 1, flags: 4, vaddr: 0x40_0000_0000, memsz: 16, data: vec![] }]);
    assert_eq!(MemorySet::from_elf(&mut a, &high, PhysAddr(0)).err(), Some(ElfError::BadSegment));
    let inside = image(
        0,
        &[
            Seg { kind: 1, flags: 4, vaddr: 0x1000, memsz: 0x3000, data: vec![] },
            Seg { kind: 1, flags: 4, vaddr: 0x2800, memsz: 1, data: vec![] },
        ],
    );
    assert_eq!(MemorySet::from_elf(&mut a, &inside, PhysAddr(0)).err(), Some(ElfError::BadSegment));
    let sharing_a_page = image(
        0,
        &[
            Seg { kind: 1, flags: 4, vaddr: 0x1000, memsz: 0x800, data: vec![] },
            Seg { kind: 1, flags: 4, vaddr: 0x1800, memsz: 0x800, data: vec![] },
        ],
    );
    assert_eq!(MemorySet::from_elf(&mut a, &sharing_a_page, PhysAddr(0)).err(), Some(ElfError::BadSegment));
    let more_file_than_memory = image(0, &[Seg { kind: 1, flags: 4, vaddr: 0x1000, memsz: 16, data: vec![7; 5000] }]);
    assert_eq!(
        MemorySet::from_elf(&mut a, &more_file_than_memory, PhysAddr(0)).err(),
        Some(ElfError::BadSegment)
    );
    let no_room_for_stack = image(0, &[Seg { kind: 1, flags: 4, vaddr: 0x3f_ffff_e000, memsz: 0x1000, data: vec![] }]);
    assert_eq!(MemorySet::from_elf(&mut a, &no_room_for_stack, PhysAddr(0)).err(), Some(ElfError::BadSegment));
    assert!(a.has_available(64));
}

#[test]
fn too_few_frames_are_reported_before_anything_is_taken() {
    let img = two_segments();
    let cost = 9 + (2 + 2) + (3 + 2);
    let mut a = allocator(0, cost - 1);
    assert_eq!(MemorySet::from_elf(&mut a, &img, PhysAddr(0)).err(), Some(ElfError::OutOfFrames));
    assert!(a.has_available(cost - 1));
    let mut b = allocator(0, cost);
    assert!(MemorySet::from_elf(&mut b, &img, PhysAddr(0)).is_ok());
    let mut c = allocator(0, cost + 4);
    assert_eq!(
        MemorySet::from_elf_reserving(&mut c, &img, PhysAddr(0), 5).err(),
        Some(ElfError::OutOfFrames)
    );
    assert!(MemorySet::from_elf_reserving(&mut c, &img, PhysAddr(0), 4).is_ok());
}

#[test]
fn segment_checks_on_plain_values() {
    let seg = |vaddr: u64, mem_size: u64, file_size: u64, offset: u64| ProgramSegment {
        load: true,
        vaddr,
        mem_size,
        file_size,
        offset,
        readable: true,
        writable: false,
        executable: true,
    };
    assert!(check_segments(&vec![], 0));
    assert!(check_segments(&vec![seg(0x1000, 0x2000, 0x100, 0x40)], 0x140));
    assert!(!check_segments(&vec![seg(0x1000, 0x2000, 0x100, 0x41)], 0x140));
    assert!(check_segments(&vec![seg(0x1000, 0x1000, 0, 0), seg(0x2000, 0x1000, 0, 0)], 0));
    assert!(!check_segments(&vec![seg(0x1000, 0x1001, 0, 0), seg(0x2000, 0x1000, 0, 0)], 0));
    assert!(!check_segments(&vec![seg(u64::MAX, 2, 0, 0)], 0));
    assert!(!check_segments(&vec![seg(0, 0, u64::MAX, 2)], 10));
    assert!(check_segments(&vec![seg(0x3f_ffff_d000, 0x1000, 0, 0)], 0));
    assert!(!check_segments(&vec![seg(0x3f_ffff_d000, 0x1001, 0, 0)], 0));
    assert_eq!(load_cost_of_segments(&vec![]), Some(9));
    assert_eq!(load_cost_of_segments(&vec![seg(0x1000, 0x2000, 0, 0)]), Some(9 + 2 + 2));
    assert_eq!(load_cost_of_segments(&vec![seg(0x2000, 0x1000, 0, 0), seg(0x1000, 0x1000, 0, 0)]), Some(9 + 3 + 3));
    assert_eq!(load_cost_of_segments(&vec![seg(0x2000, 0x1000, 0, 0), seg(0x2fff, 1, 0, 0)]), None);
    assert!(check_segments(&vec![seg(0x5000, 0x1000, 0, 0), seg(0x1000, 0x1000, 0, 0), seg(0x3000, 0x2000, 0, 0)], 0));
    assert!(!check_segments(&vec![seg(0x5000, 0x1000, 0, 0), seg(0x1000, 0x1000, 0, 0), seg(0x3000, 0x2001, 0, 0)], 0));
    assert!(check_segments(&vec![seg(0x1000, 0x3000, 0, 0), seg(0x2000, 0, 0, 0)], 0));
    assert!(!check_segments(&vec![seg(0x1000, 0x3000, 0, 0), seg(0x2001, 0, 0, 0)], 0));
}

#[test]
fn from_segments_takes_the_parsed_values() {
    let mut a = allocator(0x500, 0x540);
    let file: Vec<u8> = (0..100u8).collect();
    let loads = vec![ProgramSegment {
        load: true,
        vaddr: 0x40_0000,
        mem_size: 0x1234,
        file_size: 60,
        offset: 40,
        readable: true,
        writable: true,
        executable: false,
    }];
    assert!(check_segments(&loads, file.len()));
    let (ms, sp, entry) = MemorySet::from_segments(&mut a, &loads, 0x40_0010, &file, PhysAddr(0x7000));
    assert_eq!((sp, entry), (0x40_4000, 0x40_0010));
    for i in 0..60u64 {
        assert_eq!(ms.read_byte(0x40_0000 + i), Some(40 + i as u8));
    }
    assert_eq!(ms.read_byte(0x40_0000 + 60), Some(0));
    assert_eq!(ms.read_byte(0x40_1fff), Some(0));
    assert_eq!(ms.read_byte(0x40_2000), None);
    assert_eq!(ms.translate(VirtPageNum(0x400)).unwrap().flags().bits, PTE_U | PTE_R | PTE_W | PTE_V);
    assert_eq!(ms.translate(VirtPageNum(TRAMPOLINE_VPN)).unwrap().ppn().0, 7);
}

#[test]
fn unaligned_segment_lands_at_its_address() {
    let mut a = allocator(0x2000, 0x2100);
    let data: Vec<u8> = (0..3000u32).map(|i| (i % 250) as u8 + 1).collect();
    let img = image(
        0x1_0800,
        &[
            Seg { kind: 1, flags: 5, vaddr: 0x1_0800, memsz: 0x1000, data: data.clone() },
            Seg { kind: 1, flags: 6, vaddr: 0x1_2fff, memsz: 2, data: vec![0x11, 0x22] },
        ],
    );
    let (ms, sp, entry) = MemorySet::from_elf(&mut a, &img, PhysAddr(0x8020_1000)).unwrap();
    assert_eq!((sp, entry), (0x1_6000, 0x1_0800));
    for i in [0u64, 1, 2047, 2048, 2999] {
        assert_eq!(ms.read_byte(0x1_0800 + i), Some(data[i as usize]));
    }
    for va in [0x1_0000u64, 0x1_07ff, 0x1_0800 + 3000, 0x1_17ff, 0x1_1800, 0x1_1fff] {
        assert_eq!(ms.read_byte(va), Some(0));
    }
    assert_eq!(ms.read_byte(0x1_2ffe), Some(0));
    assert_eq!(ms.read_byte(0x1_2fff), Some(0x11));
    assert_eq!(ms.read_byte(0x1_3000), Some(0x22));
    assert_eq!(ms.read_byte(0x1_3001), Some(0));
    assert_eq!(ms.read_byte(0x1_4000), None);
    assert_eq!(ms.area_count(), 4);
}

#[test]
fn single_byte_in_the_middle_of_a_page() {
    let mut a = allocator(0, 64);
    let img = image(0, &[Seg { kind: 1, flags: 4, vaddr: 0x7800, memsz: 1, data: vec![0xc3] }]);
    let (ms, _, _) = MemorySet::from_elf(&mut a, &img, PhysAddr(0)).unwrap();
    assert_eq!(ms.read_byte(0x7800), Some(0xc3));
    assert_eq!(ms.read_byte(0x7000), Some(0));
    assert_eq!(ms.read_byte(0x77ff), Some(0));
    assert_eq!(ms.read_byte(0x7801), Some(0));
    let too_much = image(0, &[Seg { kind: 1, flags: 4, vaddr: 0x7800, memsz: 1, data: vec![1; 2049] }]);
    assert_eq!(MemorySet::from_elf(&mut a, &too_much, PhysAddr(0)).err(), Some(ElfError::BadSegment));
    let just_fits = image(0, &[Seg { kind: 1, flags: 4, vaddr: 0x7800, memsz: 1, data: vec![1; 2048] }]);
    assert!(MemorySet::from_elf(&mut a, &just_fits, PhysAddr(0)).is_ok());
}

#[test]
fn guard_page_between_image_and_stack_is_unmapped() {
    let mut a = allocator(0x2000, 0x2100);
    let mut img = image(0x1_0000, &[Seg { kind: 1, flags: 5, vaddr: 0x1_0000, memsz: 0x1800, data: vec![] }]);
    img.resize(0x1000, 0);
    img.extend((0..0x800u32).map(|i| (i % 255) as u8 + 1));
    img[64 + 8..64 + 16].copy_from_slice(&0x1000u64.to_le_bytes());
    img[64 + 32..64 + 40].copy_from_slice(&0x800u64.to_le_bytes());
    let (ms, sp, entry) = MemorySet::from_elf(&mut a, &img, PhysAddr(0x8020_1000)).unwrap();
    assert_eq!((sp, entry), (0x1_4000, 0x1_0000));
    for v in [0x10u64, 0x11] {
        assert_eq!(ms.translate(VirtPageNum(v)).unwrap().flags().bits, PTE_V | PTE_R | PTE_X | PTE_U);
    }
    assert_eq!(ms.translate(VirtPageNum(0x12)), None);
    assert_eq!(ms.translate(VirtPageNum(0x13)).unwrap().flags().bits, PTE_V | PTE_R | PTE_W | PTE_U);
    assert_eq!(ms.translate(VirtPageNum(0x14)), None);
    assert_eq!(ms.translate(VirtPageNum(0xf)), None);
    assert_eq!(ms.read_byte(0x1_0000), Some(1));
    assert_eq!(ms.read_byte(0x1_07ff), Some((0x7ffu32 % 255) as u8 + 1));
    assert_eq!(ms.read_byte(0x1_0800), Some(0));
    let mapped: Vec<u64> = (0..0x40u64).filter(|v| ms.translate(VirtPageNum(*v)).is_some()).collect();
    assert_eq!(mapped, vec![0x10, 0x11, 0x13]);
}

#[test]
fn segments_in_any_order_get_the_stack_above_the_highest() {
    let mut a = allocator(0, 64);
    let img = image(
        0x5000,
        &[
            Seg { kind: 1, flags: 5, vaddr: 0x5000, memsz: 0x1000, data: vec![0x55; 8] },
            Seg { kind: 1, flags: 6, vaddr: 0x1000, memsz: 0x1000, data: vec![0x11; 8] },
            Seg { kind: 1, flags: 4, vaddr: 0x3000, memsz: 0x1000, data: vec![0x33; 8] },
        ],
    );
    let (ms, sp, entry) = MemorySet::from_elf(&mut a, &img, PhysAddr(0)).unwrap();
    assert_eq!((sp, entry), (0x8000, 0x5000));
    assert_eq!(ms.area_count(), 5);
    assert_eq!(ms.find_area(VirtPageNum(5)), Some(0));
    assert_eq!(ms.find_area(VirtPageNum(1)), Some(1));
    assert_eq!(ms.find_area(VirtPageNum(3)), Some(2));
    assert_eq!(ms.find_area(VirtPageNum(7)), Some(3));
    assert_eq!(ms.read_byte(0x5000), Some(0x55));
    assert_eq!(ms.read_byte(0x1007), Some(0x11));
    assert_eq!(ms.read_byte(0x3000), Some(0x33));
    let mapped: Vec<u64> = (0..0x20u64).filter(|v| ms.translate(VirtPageNum(*v)).is_some()).collect();
    assert_eq!(mapped, vec![1, 3, 5, 7]);
    assert_eq!(ms.translate(VirtPageNum(1)).unwrap().flags().bits, PTE_U | PTE_R | PTE_W | PTE_V);
    assert_eq!(ms.translate(VirtPageNum(5)).unwrap().flags().bits, PTE_U | PTE_R | PTE_X | PTE_V);
}
