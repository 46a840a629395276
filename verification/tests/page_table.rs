use rvos::mm::address::{PhysPageNum, VirtPageNum};
use rvos::mm::frame_allocator::StackFrameAllocator;
use rvos::mm::page_table::{PTEFlags, PageTable, PageTableEntry};
use rvos::mm::page_table::{PTE_A, PTE_D, PTE_G, PTE_R, PTE_U, PTE_V, PTE_W, PTE_X};

fn allocator(l: u64, r: u64) -> StackFrameAllocator {
    let mut a = StackFrameAllocator::new();
    a.init(PhysPageNum(l), PhysPageNum(r));
    a
}

#[test]
fn flag_bits() {
    assert_eq!(
        [PTE_V, PTE_R, PTE_W, PTE_X, PTE_U, PTE_G, PTE_A, PTE_D],
        [1, 2, 4, 8, 16, 32, 64, 128]
    );
    let rw = PTEFlags { bits: PTE_R }.union(PTEFlags { bits: PTE_W });
    assert_eq!(rw.bits, 6);
    assert!(rw.contains(PTEFlags { bits: PTE_R }));
    assert!(!rw.contains(PTEFlags { bits: PTE_X }));
    assert_eq!(rw.intersection(PTEFlags { bits: PTE_W | PTE_X }).bits, 4);
    assert!(PTEFlags::empty().is_empty());
    assert_eq!(PTEFlags::from_bits(0xff), Some(PTEFlags { bits: 0xff }));
}

#[test]
fn entry_layout() {
    let e = PageTableEntry::new(PhysPageNum(0x80123), PTEFlags { bits: PTE_V | PTE_R | PTE_X });
    assert_eq!(e.bits, (0x80123u64 << 10) | 0b1011);
    assert_eq!(e.ppn(), PhysPageNum(0x80123));
    assert_eq!(e.flags().bits, 0b1011);
    assert!(e.is_valid());
    assert!(e.readable());
    assert!(!e.writable());
    assert!(e.executable());
    let top = PageTableEntry::new(PhysPageNum((1 << 44) - 1), PTEFlags { bits: 0xff });
    assert_eq!(top.bits, (((1u64 << 44) - 1) << 10) | 0xff);
    assert_eq!(top.ppn().0, (1 << 44) - 1);
}

#[test]
fn empty_entry_is_absent() {
    let e = PageTableEntry::empty();
    assert_eq!(e.bits, 0);
    assert!(!e.is_valid());
    assert!(!e.readable() && !e.writable() && !e.executable());
    let not_valid = PageTableEntry::new(PhysPageNum(5), PTEFlags { bits: PTE_R | PTE_W });
    assert!(!not_valid.is_valid());
}

#[test]
fn token_is_mode_8_and_root() {
    let mut a = allocator(0x80400, 0x80410);
    let pt = PageTable::new(&mut a);
    assert_eq!(pt.token(), (8u64 << 60) | 0x80400);
}

#[test]
fn map_translate_unmap() {
    let mut a = allocator(100, 200);
    let mut pt = PageTable::new(&mut a);
    let vpn = VirtPageNum(0x12345);
    assert_eq!(pt.translate(vpn), None);
    assert_eq!(pt.find_pte(vpn), None);
    pt.map(&mut a, vpn, PhysPageNum(777), PTEFlags { bits: PTE_R | PTE_W });
    let e = pt.translate(vpn).unwrap();
    assert_eq!(e.ppn(), PhysPageNum(777));
    assert_eq!(e.flags().bits, PTE_R | PTE_W | PTE_V);
    assert_eq!(pt.translate(VirtPageNum(0x12346)), None);
    assert_eq!(pt.find_pte(VirtPageNum(0x12346)), Some(PageTableEntry::empty()));
    assert_eq!(pt.find_pte(VirtPageNum(0x12345 + 512)), None);
    pt.unmap(vpn);
    assert_eq!(pt.translate(vpn), None);
    assert_eq!(pt.find_pte(vpn), Some(PageTableEntry::empty()));
}

#[test]
fn tables_are_made_once_per_prefix() {
    let mut a = allocator(0, 100);
    let mut pt = PageTable::new(&mut a);
    assert!(a.has_available(99) && !a.has_available(100));
    pt.map(&mut a, VirtPageNum(0), PhysPageNum(1000), PTEFlags { bits: PTE_R });
    assert!(a.has_available(97) && !a.has_available(98));
    pt.map(&mut a, VirtPageNum(1), PhysPageNum(1001), PTEFlags { bits: PTE_R });
    assert!(a.has_available(97) && !a.has_available(98));
    pt.map(&mut a, VirtPageNum(512), PhysPageNum(1002), PTEFlags { bits: PTE_R });
    assert!(a.has_available(96) && !a.has_available(97));
    pt.map(&mut a, VirtPageNum(512 * 512), PhysPageNum(1003), PTEFlags { bits: PTE_R });
    assert!(a.has_available(94) && !a.has_available(95));
    assert_eq!(pt.translate(VirtPageNum(0)).unwrap().ppn().0, 1000);
    assert_eq!(pt.translate(VirtPageNum(1)).unwrap().ppn().0, 1001);
    assert_eq!(pt.translate(VirtPageNum(512)).unwrap().ppn().0, 1002);
    assert_eq!(pt.translate(VirtPageNum(512 * 512)).unwrap().ppn().0, 1003);
    assert_eq!(pt.translate(VirtPageNum(2)), None);
}

#[test]
fn find_pte_create_makes_tables_and_maps_nothing() {
    let mut a = allocator(0, 10);
    let mut pt = PageTable::new(&mut a);
    let e = pt.find_pte_create(&mut a, VirtPageNum(0x7ff_ffff));
    assert_eq!(e, PageTableEntry::empty());
    assert!(a.has_available(7) && !a.has_available(8));
    assert_eq!(pt.translate(VirtPageNum(0x7ff_ffff)), None);
    assert_eq!(pt.find_pte(VirtPageNum(0x7ff_ffff)), Some(PageTableEntry::empty()));
    let again = pt.find_pte_create(&mut a, VirtPageNum(0x7ff_fffe));
    assert_eq!(again, PageTableEntry::empty());
    assert!(a.has_available(7) && !a.has_available(8));
}

#[test]
fn mapping_one_page_leaves_the_others() {
    let mut a = allocator(0, 64);
    let mut pt = PageTable::new(&mut a);
    for v in 0..20u64 {
        pt.map(&mut a, VirtPageNum(v * 300), PhysPageNum(5000 + v), PTEFlags { bits: PTE_R | PTE_U });
    }
    for v in 0..20u64 {
        let e = pt.translate(VirtPageNum(v * 300)).unwrap();
        assert_eq!(e.ppn().0, 5000 + v);
        assert_eq!(e.flags().bits, PTE_R | PTE_U | PTE_V);
    }
    pt.unmap(VirtPageNum(300));
    assert_eq!(pt.translate(VirtPageNum(300)), None);
    assert_eq!(pt.translate(VirtPageNum(0)).unwrap().ppn().0, 5000);
    assert_eq!(pt.translate(VirtPageNum(600)).unwrap().ppn().0, 5002);
}

#[test]
fn release_gives_every_table_back() {
    let mut a = allocator(0, 16);
    let mut pt = PageTable::new(&mut a);
    pt.map(&mut a, VirtPageNum(7), PhysPageNum(1), PTEFlags { bits: PTE_R });
    pt.map(&mut a, VirtPageNum(1 << 20), PhysPageNum(2), PTEFlags { bits: PTE_R });
    assert!(a.has_available(11) && !a.has_available(12));
    pt.release(&mut a);
    assert!(a.has_available(16) && !a.has_available(17));
}
