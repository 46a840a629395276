use rvos::mm::address::{PhysAddr, PhysPageNum, VirtAddr, VirtPageNum};
use rvos::mm::frame_allocator::StackFrameAllocator;
use rvos::mm::{init, layout_fits};
use rvos::mm::memory_set::{map_cost_of, KernelLayout, MapArea, MapPermission, MapType, MemorySet};
use rvos::mm::memory_set::{MAP_R, MAP_U, MAP_W, MAP_X, TRAMPOLINE_VPN, TRAP_CONTEXT_VPN};
use rvos::mm::page_table::{PageTable, PTE_R, PTE_U, PTE_V, PTE_W, PTE_X};

fn allocator(l: u64, r: u64) -> StackFrameAllocator {
    let mut a = StackFrameAllocator::new();
    a.init(PhysPageNum(l), PhysPageNum(r));
    a
}

fn perm(bits: u8) -> MapPermission {
    MapPermission { bits }
}

fn layout() -> KernelLayout {
    KernelLayout {
        stext: 0x8020_0000,
        etext: 0x8020_3000,
        srodata: 0x8020_3000,
        erodata: 0x8020_4000,
        sdata: 0x8020_4000,
        edata: 0x8020_5000,
        sbss_with_stack: 0x8020_5000,
        ebss: 0x8021_5000,
        ekernel: 0x8070_0000,
        strampoline: 0x8020_1000,
    }
}

#[test]
fn permission_bits() {
    assert_eq!([MAP_R, MAP_W, MAP_X, MAP_U], [2, 4, 8, 16]);
    assert_eq!(MapPermission::from_bits(MAP_R | MAP_U), Some(perm(18)));
    assert_eq!(MapPermission::from_bits(1), None);
    assert_eq!(MapPermission::from_bits(0x20), None);
    assert_eq!(MapPermission::empty().bits, 0);
    assert_eq!(perm(MAP_R).union(perm(MAP_X)).bits, 10);
    assert!(perm(MAP_R | MAP_W).contains(perm(MAP_W)));
    assert!(!perm(MAP_R | MAP_W).contains(perm(MAP_U)));
    assert_eq!(perm(MAP_R | MAP_U).pte_flags().bits, PTE_R | PTE_U);
}

#[test]
fn map_cost_counts_pages_and_tables() {
    assert_eq!(map_cost_of(0, 0, MapType::Framed), 0);
    assert_eq!(map_cost_of(5, 6, MapType::Framed), 3);
    assert_eq!(map_cost_of(5, 6, MapType::Identical), 2);
    assert_eq!(map_cost_of(0, 512, MapType::Framed), 514);
    assert_eq!(map_cost_of(511, 513, MapType::Framed), 2 + 2 + 1);
    assert_eq!(map_cost_of(0x80700, 0x80800, MapType::Identical), 2);
    assert_eq!(map_cost_of(262143, 262145, MapType::Identical), 4);
}

#[test]
fn area_covers_touched_pages() {
    let a = MapArea::new(VirtAddr(0x1001), VirtAddr(0x3001), MapType::Framed, perm(MAP_R));
    assert_eq!(a.range().start(), VirtPageNum(1));
    assert_eq!(a.range().end(), VirtPageNum(4));
    assert_eq!(a.range().len(), 3);
    assert_eq!(a.map_type(), MapType::Framed);
    assert_eq!(a.map_perm(), perm(MAP_R));
    assert_eq!(a.cost(), 5);
    let empty = MapArea::new(VirtAddr(0x2000), VirtAddr(0x2000), MapType::Identical, perm(MAP_R));
    assert_eq!(empty.range().len(), 0);
}

#[test]
fn framed_area_maps_fresh_zeroed_frames() {
    let mut a = allocator(500, 600);
    let mut pt = PageTable::new(&mut a);
    let mut area = MapArea::new(VirtAddr(0x10000), VirtAddr(0x13000), MapType::Framed, perm(MAP_R | MAP_W | MAP_U));
    area.map(&mut pt, &mut a);
    let mut seen = Vec::new();
    for v in 0x10..0x13u64 {
        let e = pt.translate(VirtPageNum(v)).unwrap();
        assert_eq!(e.flags().bits, PTE_R | PTE_W | PTE_U | PTE_V);
        assert_eq!(area.frame(VirtPageNum(v)).ppn(), e.ppn());
        assert!(!seen.contains(&e.ppn()));
        seen.push(e.ppn());
        for off in [0usize, 1000, 4095] {
            assert_eq!(area.read_byte(VirtPageNum(v), off), 0);
        }
    }
    assert_eq!(pt.translate(VirtPageNum(0x13)), None);
    assert_eq!(pt.translate(VirtPageNum(0xf)), None);
    area.unmap(&mut pt, &mut a);
    for v in 0x10..0x13u64 {
        assert_eq!(pt.translate(VirtPageNum(v)), None);
    }
    assert!(a.has_available(97) && !a.has_available(98));
}

#[test]
fn identical_area_maps_page_to_same_frame() {
    let mut a = allocator(0, 20);
    let mut pt = PageTable::new(&mut a);
    let mut area = MapArea::new(VirtAddr(0x8020_0000), VirtAddr(0x8020_2000), MapType::Identical, perm(MAP_R | MAP_X));
    area.map(&mut pt, &mut a);
    for v in [0x80200u64, 0x80201] {
        let e = pt.translate(VirtPageNum(v)).unwrap();
        assert_eq!(e.ppn().0, v);
        assert_eq!(e.flags().bits, PTE_R | PTE_X | PTE_V);
    }
    assert!(a.has_available(17) && !a.has_available(18));
}

#[test]
fn copy_data_fills_from_first_page() {
    let mut a = allocator(0, 50);
    let mut pt = PageTable::new(&mut a);
    let mut area = MapArea::new(VirtAddr(0x4000), VirtAddr(0x7000), MapType::Framed, perm(MAP_R | MAP_U));
    area.map(&mut pt, &mut a);
    let data: Vec<u8> = (0..5000u32).map(|i| (i % 251) as u8 + 1).collect();
    area.copy_data(&pt, &data);
    for i in [0usize, 1, 4095, 4096, 4999] {
        assert_eq!(area.read_byte(VirtPageNum(4 + (i / 4096) as u64), i % 4096), data[i]);
    }
    assert_eq!(area.read_byte(VirtPageNum(5), 5000 - 4096), 0);
    assert_eq!(area.read_byte(VirtPageNum(6), 0), 0);
}

#[test]
fn translation_round_trip() {
    let mut a = allocator(0x300, 0x400);
    let mut pt = PageTable::new(&mut a);
    let mut area = MapArea::new(VirtAddr(0x20_0000), VirtAddr(0x20_2000), MapType::Framed, perm(MAP_R | MAP_W));
    area.map(&mut pt, &mut a);
    area.copy_data(&pt, &[7u8; 4100]);
    for va in [0x20_0000u64, 0x20_0abc, 0x20_1003] {
        let va = VirtAddr(va);
        let pa = pt.translate(va.floor()).unwrap().ppn().0 * 4096 + va.page_offset();
        let frame = area.frame(va.floor());
        assert_eq!(pa, frame.ppn().0 * 4096 + va.page_offset());
        assert_eq!(frame.read_byte(va.page_offset() as usize), 7);
        assert_eq!(PhysAddr(pa).floor(), frame.ppn());
    }
}

#[test]
fn bare_memory_set_maps_nothing() {
    let mut a = allocator(0x100, 0x110);
    let ms = MemorySet::new_bare(&mut a);
    assert_eq!(ms.token(), (8u64 << 60) | 0x100);
    assert_eq!(ms.area_count(), 0);
    assert_eq!(ms.translate(VirtPageNum(0)), None);
    assert_eq!(ms.translate(VirtPageNum(TRAMPOLINE_VPN)), None);
    assert_eq!(ms.read_byte(0), None);
}

#[test]
fn trampoline_is_mapped_read_execute_without_user() {
    let mut a = allocator(0x100, 0x110);
    let mut ms = MemorySet::new_bare(&mut a);
    ms.map_trampoline(&mut a, PhysAddr(0x8020_1000));
    let e = ms.translate(VirtPageNum(TRAMPOLINE_VPN)).unwrap();
    assert_eq!(e.ppn().0, 0x80201);
    assert_eq!(e.flags().bits, PTE_R | PTE_X | PTE_V);
    assert_eq!(ms.area_count(), 0);
    assert_eq!(ms.find_area(VirtPageNum(TRAMPOLINE_VPN)), None);
}

#[test]
fn insert_and_remove_framed_area() {
    let mut a = allocator(0, 40);
    let mut ms = MemorySet::new_bare(&mut a);
    ms.insert_framed_area(&mut a, VirtAddr(0x5000), VirtAddr(0x7000), perm(MAP_R | MAP_W));
    ms.insert_framed_area(&mut a, VirtAddr(0x9000), VirtAddr(0xa000), perm(MAP_R));
    assert_eq!(ms.area_count(), 2);
    assert_eq!(ms.find_area(VirtPageNum(6)), Some(0));
    assert_eq!(ms.find_area(VirtPageNum(9)), Some(1));
    assert_eq!(ms.find_area(VirtPageNum(7)), None);
    assert!(ms.translate(VirtPageNum(5)).unwrap().is_valid());
    assert!(ms.write_byte(0x5fff, 9));
    assert!(ms.write_byte(0x6000, 10));
    assert!(!ms.write_byte(0x7000, 11));
    assert_eq!(ms.read_byte(0x5fff), Some(9));
    assert_eq!(ms.read_byte(0x6000), Some(10));
    assert_eq!(ms.read_byte(0x6001), Some(0));
    assert_eq!(ms.read_byte(0x7000), None);
    ms.remove_area_with_start_vpn(&mut a, VirtPageNum(6));
    assert_eq!(ms.area_count(), 2);
    ms.remove_area_with_start_vpn(&mut a, VirtPageNum(5));
    assert_eq!(ms.area_count(), 1);
    assert_eq!(ms.translate(VirtPageNum(5)), None);
    assert_eq!(ms.translate(VirtPageNum(6)), None);
    assert!(ms.translate(VirtPageNum(9)).is_some());
    assert_eq!(ms.read_byte(0x5fff), None);
    assert_eq!(ms.find_area(VirtPageNum(9)), Some(0));
}

#[test]
fn push_copies_data_and_leaves_the_rest_zero() {
    let mut a = allocator(0, 40);
    let mut ms = MemorySet::new_bare(&mut a);
    let area = MapArea::new(VirtAddr(0x1_0000), VirtAddr(0x1_2000), MapType::Framed, perm(MAP_R | MAP_U));
    let data = [1u8, 2, 3, 4, 5];
    ms.push(&mut a, area, Some(&data));
    for i in 0..5u64 {
        assert_eq!(ms.read_byte(0x1_0000 + i), Some(data[i as usize]));
    }
    assert_eq!(ms.read_byte(0x1_0005), Some(0));
    assert_eq!(ms.read_byte(0x1_1fff), Some(0));
    assert_eq!(ms.read_byte(0x1_2000), None);
    assert_eq!(ms.read_word(VirtPageNum(0x10), 0), Some(0x0000_0005_0403_0201));
    assert!(ms.write_word(VirtPageNum(0x11), 3, 0xdead_beef));
    assert_eq!(ms.read_word(VirtPageNum(0x11), 3), Some(0xdead_beef));
    assert_eq!(ms.read_byte(0x1_1000 + 24), Some(0xef));
    assert_eq!(ms.read_word(VirtPageNum(0x12), 0), None);
    assert!(!ms.write_word(VirtPageNum(0x12), 0, 1));
}

#[test]
fn every_page_of_every_area_translates() {
    let mut a = allocator(0, 100);
    let mut ms = MemorySet::new_bare(&mut a);
    ms.map_trampoline(&mut a, PhysAddr(0x9000));
    ms.insert_framed_area(&mut a, VirtAddr(0), VirtAddr(0x3000), perm(MAP_R));
    ms.insert_framed_area(&mut a, VirtAddr(0x20_0000), VirtAddr(0x20_5000), perm(MAP_R | MAP_W));
    ms.insert_framed_area(&mut a, VirtAddr(0x4000_0000), VirtAddr(0x4000_1000), perm(MAP_X));
    for (s, e) in [(0u64, 3u64), (0x200, 0x205), (0x40000, 0x40001)] {
        for v in s..e {
            assert!(ms.translate(VirtPageNum(v)).unwrap().is_valid());
        }
    }
    assert!(ms.translate(VirtPageNum(TRAMPOLINE_VPN)).unwrap().is_valid());
}

#[test]
fn recycle_frees_areas_and_keeps_trampoline() {
    let mut a = allocator(0, 64);
    let mut ms = MemorySet::new_bare(&mut a);
    ms.map_trampoline(&mut a, PhysAddr(0x8020_1000));
    ms.insert_framed_area(&mut a, VirtAddr(0x1000), VirtAddr(0x4000), perm(MAP_R | MAP_W | MAP_U));
    ms.insert_framed_area(&mut a, VirtAddr(0x7f_ffff_e000), VirtAddr(0x7f_ffff_f000), perm(MAP_R | MAP_W));
    let token = ms.token();
    assert_eq!(ms.translate(VirtPageNum(TRAP_CONTEXT_VPN)).unwrap().flags().bits, PTE_R | PTE_W | PTE_V);
    assert!(a.has_available(55) && !a.has_available(56));
    ms.recycle_data_pages(&mut a);
    assert_eq!(ms.area_count(), 0);
    assert_eq!(ms.token(), token);
    assert_eq!(ms.translate(VirtPageNum(1)), None);
    assert_eq!(ms.translate(VirtPageNum(TRAP_CONTEXT_VPN)), None);
    assert_eq!(ms.translate(VirtPageNum(TRAMPOLINE_VPN)).unwrap().ppn().0, 0x80201);
    assert!(a.has_available(59) && !a.has_available(60));
    ms.release(&mut a);
    assert!(a.has_available(64) && !a.has_available(65));
}

#[test]
fn kernel_space_is_identity_mapped() {
    let l = layout();
    let (allocator, ks) = init(&l);
    assert_eq!(ks.area_count(), 6);
    let expect = [
        (0x80200u64, 0x80203u64, PTE_R | PTE_X),
        (0x80203, 0x80204, PTE_R),
        (0x80204, 0x80205, PTE_R | PTE_W),
        (0x80205, 0x80215, PTE_R | PTE_W),
        (0x80700, 0x80800, PTE_R | PTE_W),
        (0x100, 0x102, PTE_R | PTE_W),
    ];
    for (i, (s, e, flags)) in expect.iter().enumerate() {
        for v in [*s, (*s + *e) / 2, *e - 1] {
            let pte = ks.translate(VirtPageNum(v)).unwrap();
            assert_eq!(pte.ppn().0, v);
            assert_eq!(pte.flags().bits, *flags | PTE_V);
            assert_eq!(ks.find_area(VirtPageNum(v)), Some(i));
        }
    }
    assert_eq!(ks.translate(VirtPageNum(0x80215)), None);
    assert_eq!(ks.translate(VirtPageNum(0x806ff)), None);
    assert_eq!(ks.translate(VirtPageNum(0x102)), None);
    let t = ks.translate(VirtPageNum(TRAMPOLINE_VPN)).unwrap();
    assert_eq!(t.ppn().0, 0x80201);
    assert_eq!(t.flags().bits, PTE_R | PTE_X | PTE_V);
    assert_eq!(ks.token(), (8u64 << 60) | 0x80700);
    assert!(allocator.has_available(256 - 15));
    assert!(!allocator.has_available(256));
}

#[test]
fn copy_of_user_space_has_same_bytes_on_other_frames() {
    let mut a = allocator(0x1000, 0x1100);
    let mut src = MemorySet::new_bare(&mut a);
    src.map_trampoline(&mut a, PhysAddr(0x8020_1000));
    let area = MapArea::new(VirtAddr(0x1_0000), VirtAddr(0x1_3000), MapType::Framed, perm(MAP_R | MAP_W | MAP_U));
    let data: Vec<u8> = (0..9000u32).map(|i| (i * 7 % 256) as u8).collect();
    src.push(&mut a, area, Some(&data));
    src.insert_framed_area(&mut a, VirtAddr(0x2_0000), VirtAddr(0x2_1000), perm(MAP_R | MAP_U));
    assert!(src.write_byte(0x2_0010, 0x5a));
    assert_eq!(src.copy_cost(), Some(3 + 5 + 3));
    let copy = MemorySet::from_existed_user_space(&mut a, &src);
    assert_eq!(copy.area_count(), 2);
    assert_ne!(copy.token(), src.token());
    for va in [0x1_0000u64, 0x1_0fff, 0x1_1000, 0x1_2327, 0x1_2fff, 0x2_0000, 0x2_0010, 0x2_0fff] {
        assert_eq!(copy.read_byte(va), src.read_byte(va));
    }
    assert_eq!(copy.read_byte(0x1_2327), Some(data[0x2327]));
    assert_eq!(copy.read_byte(0x2_0010), Some(0x5a));
    for v in [0x10u64, 0x11, 0x12, 0x20] {
        let p = src.translate(VirtPageNum(v)).unwrap();
        let c = copy.translate(VirtPageNum(v)).unwrap();
        assert_ne!(p.ppn(), c.ppn());
        assert_eq!(p.flags(), c.flags());
    }
    assert_eq!(
        copy.translate(VirtPageNum(TRAMPOLINE_VPN)),
        src.translate(VirtPageNum(TRAMPOLINE_VPN))
    );
    let mut copy = copy;
    assert!(copy.write_byte(0x1_0000, 0xee));
    assert_eq!(src.read_byte(0x1_0000), Some(data[0]));
}

#[test]
fn user_strings_and_buffers() {
    let mut a = allocator(0, 40);
    let mut ms = MemorySet::new_bare(&mut a);
    ms.insert_framed_area(&mut a, VirtAddr(0x3000), VirtAddr(0x5000), perm(MAP_R | MAP_W | MAP_U));
    assert!(ms.write_bytes(0x3ffe, &vec![b'h', b'i', b'!', 0, b'x']));
    assert_eq!(ms.read_bytes(0x3ffe, 5), Some(vec![b'h', b'i', b'!', 0, b'x']));
    assert_eq!(ms.read_c_string(0x3ffe), Some(vec![b'h', b'i', b'!']));
    assert_eq!(ms.read_c_string(0x4001), Some(vec![]));
    assert_eq!(ms.read_bytes(0x4ffe, 3), None);
    assert_eq!(ms.read_bytes(0x4ffe, 2), Some(vec![0, 0]));
    assert_eq!(ms.read_bytes(0x2fff, 2), None);
    assert_eq!(ms.read_bytes(0x9000, 0), Some(vec![]));
    assert!(!ms.write_bytes(0x4ffe, &vec![1, 2, 3]));
    assert_eq!(ms.read_bytes(0x4ffe, 2), Some(vec![0, 0]));
    assert!(ms.write_bytes(0x4000, &vec![1u8; 4096]));
    assert_eq!(ms.read_c_string(0x4000), None);
    assert_eq!(ms.read_c_string(0x9000), None);
    assert_eq!(ms.read_c_string(u64::MAX), None);
}

#[test]
fn copy_data_at_an_offset() {
    let mut a = allocator(0, 50);
    let mut pt = PageTable::new(&mut a);
    let mut area = MapArea::new(VirtAddr(0x4000), VirtAddr(0x6000), MapType::Framed, perm(MAP_R | MAP_U));
    area.map(&mut pt, &mut a);
    area.copy_data_at(&pt, &[1, 2, 3, 4], 4094);
    assert_eq!(area.read_byte(VirtPageNum(4), 4093), 0);
    assert_eq!(area.read_byte(VirtPageNum(4), 4094), 1);
    assert_eq!(area.read_byte(VirtPageNum(4), 4095), 2);
    assert_eq!(area.read_byte(VirtPageNum(5), 0), 3);
    assert_eq!(area.read_byte(VirtPageNum(5), 1), 4);
    assert_eq!(area.read_byte(VirtPageNum(5), 2), 0);
    area.copy_data_at(&pt, &[9], 8191);
    assert_eq!(area.read_byte(VirtPageNum(5), 4095), 9);
    area.copy_data_at(&pt, &[], 8192);
    assert_eq!(area.read_byte(VirtPageNum(4), 0), 0);
}

#[test]
fn push_at_an_offset() {
    let mut a = allocator(0, 40);
    let mut ms = MemorySet::new_bare(&mut a);
    let area = MapArea::new(VirtAddr(0x1_0000), VirtAddr(0x1_1000), MapType::Framed, perm(MAP_R));
    ms.push_at(&mut a, area, Some(&[5, 6]), 100);
    assert_eq!(ms.read_bytes(0x1_0000 + 99, 4), Some(vec![0, 5, 6, 0]));
    assert_eq!(ms.read_byte(0x1_0000), Some(0));
}

#[test]
fn layouts_that_fit() {
    assert!(layout_fits(&layout()));
    let mut l = layout();
    l.srodata = 0x8020_2800;
    assert!(!layout_fits(&l));
    let mut l = layout();
    l.strampoline = 0x8020_1004;
    assert!(!layout_fits(&l));
    let mut l = layout();
    l.ekernel = 0x8080_0001;
    assert!(!layout_fits(&l));
    let mut l = layout();
    l.ekernel = 0x8080_0000 - 14 * 4096;
    assert!(!layout_fits(&l));
    l.ekernel = 0x8080_0000 - 15 * 4096;
    assert!(layout_fits(&l));
    let mut l = layout();
    l.stext = 0x10_1000;
    assert!(!layout_fits(&l));
}
