use rvos::config::{kernel_stack_position, TRAMPOLINE, TRAP_CONTEXT};
use rvos::mm::address::{PhysAddr, PhysPageNum, VirtAddr, VirtPageNum};

#[test]
fn virt_addr_truncates_to_39_bits() {
    assert_eq!(VirtAddr::from(TRAMPOLINE).0, 0x7f_ffff_f000);
    assert_eq!(VirtAddr::from(TRAP_CONTEXT).0, 0x7f_ffff_e000);
    assert_eq!(VirtAddr::from(0x1234u64).0, 0x1234);
}

#[test]
fn virt_addr_sign_extends_bit_38() {
    assert_eq!(u64::from(VirtAddr(0x7f_ffff_f000)), TRAMPOLINE);
    assert_eq!(u64::from(VirtAddr(0x3f_ffff_ffff)), 0x3f_ffff_ffff);
    assert_eq!(u64::from(VirtAddr(0x40_0000_0000)), 0xffff_ffc0_0000_0000);
}

#[test]
fn phys_truncation_widths() {
    assert_eq!(PhysAddr::from(u64::MAX).0, (1u64 << 56) - 1);
    assert_eq!(PhysPageNum::from(u64::MAX).0, (1u64 << 44) - 1);
    assert_eq!(VirtPageNum::from(u64::MAX).0, (1u64 << 27) - 1);
}

#[test]
fn floor_ceil_offset() {
    assert_eq!(VirtAddr(0x1fff).floor().0, 1);
    assert_eq!(VirtAddr(0x1fff).ceil().0, 2);
    assert_eq!(VirtAddr(0x2000).ceil().0, 2);
    assert_eq!(VirtAddr(0).ceil().0, 0);
    assert_eq!(VirtAddr(0x1fff).page_offset(), 0xfff);
    assert_eq!(PhysAddr(0x8020_0001).floor().0, 0x80200);
    assert_eq!(PhysAddr(0x8020_0001).ceil().0, 0x80201);
}

#[test]
fn vpn_indices_high_to_low() {
    let vpn = VirtPageNum((3 << 18) | (5 << 9) | 7);
    assert_eq!(vpn.cut_into_three_parts(), [3, 5, 7]);
    assert_eq!(VirtPageNum(0x7ff_ffff).cut_into_three_parts(), [511, 511, 511]);
}

#[test]
fn kernel_stack_layout() {
    assert_eq!(kernel_stack_position(0), (TRAMPOLINE - 8192, TRAMPOLINE));
    assert_eq!(kernel_stack_position(1), (TRAMPOLINE - 12288 - 8192, TRAMPOLINE - 12288));
}
