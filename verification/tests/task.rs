use rvos::config::{kernel_stack_position, KERNEL_STACK_SIZE, PAGE_SIZE, TRAMPOLINE};
use rvos::mm::address::{PhysPageNum, VirtPageNum};
use rvos::mm::frame_allocator::StackFrameAllocator;
use rvos::mm::memory_set::MemorySet;
use rvos::task::context::TaskContext;
use rvos::task::manager::{add_task, fetch_task, TaskManager};
use rvos::task::pid::{kernel_stack_position_of, pid_alloc, KernelStack, PidAllocator};
use rvos::task::processor::Processor;
use rvos::task::task::kstack_cost_of;
use rvos::trap::context::TrapContext;

#[test]
fn first_pids_are_0_to_n() {
    let mut a = PidAllocator::new();
    for n in 0..10usize {
        assert_eq!(a.peek(), n);
        assert_eq!(pid_alloc(&mut a).0, n);
    }
}

#[test]
fn dropped_pids_come_back_lifo() {
    let mut a = PidAllocator::new();
    for _ in 0..6 {
        let _ = a.allocate();
    }
    a.dealloc(1);
    a.dealloc(4);
    a.dealloc(2);
    assert_eq!(a.peek(), 2);
    assert_eq!(a.allocate().0, 2);
    assert_eq!(a.allocate().0, 4);
    assert_eq!(a.allocate().0, 1);
    assert_eq!(a.allocate().0, 6);
    a.dealloc(0);
    assert_eq!(a.allocate().0, 0);
    assert_eq!(a.allocate().0, 7);
}

#[test]
fn kernel_stacks_are_separated_by_a_guard_page() {
    for pid in [0usize, 1, 2, 100, 0x155_5554] {
        let (bottom, top) = kernel_stack_position(pid);
        assert_eq!(top, TRAMPOLINE - pid as u64 * (KERNEL_STACK_SIZE + PAGE_SIZE) as u64);
        assert_eq!(top - bottom, KERNEL_STACK_SIZE as u64);
        assert_eq!(kernel_stack_position_of(pid), (bottom, top));
        if pid > 0 {
            let (lower_bottom, _) = kernel_stack_position(pid - 1);
            assert_eq!(lower_bottom - top, PAGE_SIZE as u64);
        }
        assert!(bottom >= 0xffff_ffc0_0000_0000);
    }
    assert_eq!(kstack_cost_of(0), 4);
    assert_eq!(kstack_cost_of(170), 5);
}

#[test]
fn kernel_stack_maps_and_unmaps_two_pages() {
    let mut a = StackFrameAllocator::new();
    a.init(PhysPageNum(0), PhysPageNum(32));
    let mut ks = MemorySet::new_bare(&mut a);
    let mut pids = PidAllocator::new();
    let h0 = pid_alloc(&mut pids);
    let h1 = pid_alloc(&mut pids);
    let s0 = KernelStack::new(&h0, &mut ks, &mut a);
    let s1 = KernelStack::new(&h1, &mut ks, &mut a);
    assert_eq!(s0.get_top(), TRAMPOLINE);
    assert_eq!(s1.get_top(), TRAMPOLINE - 3 * 4096);
    for v in [0x7ff_fffdu64, 0x7ff_fffe, 0x7ff_fffa, 0x7ff_fffb] {
        assert_eq!(ks.translate(VirtPageNum(v)).unwrap().flags().bits, 0b111);
    }
    assert_eq!(ks.translate(VirtPageNum(0x7ff_fffc)), None);
    assert_eq!(ks.translate(VirtPageNum(0x7ff_fff9)), None);
    assert!(a.has_available(32 - 3 - 4) && !a.has_available(32 - 3 - 4 + 1));
    s0.release(&mut ks, &mut a);
    assert_eq!(ks.area_count(), 1);
    assert_eq!(ks.translate(VirtPageNum(0x7ff_fffd)), None);
    assert_eq!(ks.translate(VirtPageNum(0x7ff_fffe)), None);
    assert!(ks.translate(VirtPageNum(0x7ff_fffa)).is_some());
    assert!(a.has_available(32 - 3 - 2) && !a.has_available(32 - 3 - 2 + 1));
    s1.release(&mut ks, &mut a);
    assert_eq!(ks.area_count(), 0);
}

#[test]
fn task_contexts() {
    let z = TaskContext::zero_init();
    assert_eq!((z.ra(), z.sp()), (0, 0));
    let t = TaskContext::goto_trap_return(0xffff_ffff_ffff_d000, 0x8020_1234);
    assert_eq!(t.ra(), 0x8020_1234);
    assert_eq!(t.sp(), 0xffff_ffff_ffff_d000);
    assert_eq!(format!("{:?}", z), "TaskContext { ra: 0, sp: 0, s: [0, 0, 0, 0, 0, 0, 0, 0, 0, 0, 0, 0] }");
}

#[test]
fn trap_context_of_a_new_program() {
    let cx = TrapContext::app_init_context(0x1000, 0x8000, 0xaaaa, 0xbbbb, 0xcccc, 0x122);
    assert_eq!(cx.sepc, 0x1000);
    assert_eq!(cx.x[2], 0x8000);
    assert_eq!(cx.x.iter().filter(|x| **x != 0).count(), 1);
    assert_eq!(cx.sstatus, 0x22);
    assert_eq!((cx.kernel_satp, cx.kernel_sp, cx.trap_handler), (0xaaaa, 0xbbbb, 0xcccc));
    let user_already = TrapContext::app_init_context(0, 0, 0, 0, 0, 0x22);
    assert_eq!(user_already.sstatus, 0x22);
    let mut cx = cx;
    cx.set_sp(0x9000);
    assert_eq!(cx.x[2], 0x9000);
    assert_eq!(cx.sepc, 0x1000);
}

#[test]
fn trap_context_words_in_memory_order() {
    let mut cx = TrapContext::app_init_context(1, 2, 3, 4, 5, 0x100);
    cx.x[31] = 77;
    let words: Vec<u64> = (0..37).map(|i| cx.word(i)).collect();
    assert_eq!(words[2], 2);
    assert_eq!(words[31], 77);
    assert_eq!(&words[32..], &[0, 1, 3, 4, 5]);
    let back = TrapContext::from_words(&words);
    assert_eq!(back.x, cx.x);
    assert_eq!(
        (back.sstatus, back.sepc, back.kernel_satp, back.kernel_sp, back.trap_handler),
        (0, 1, 3, 4, 5)
    );
}

#[test]
fn ready_queue_is_fifo() {
    let mut m = TaskManager::new();
    assert_eq!(m.len(), 0);
    assert_eq!(m.fetch(), None);
    for pid in [3usize, 1, 2] {
        add_task(&mut m, pid);
    }
    assert_eq!(m.len(), 3);
    assert_eq!(fetch_task(&mut m), Some(3));
    m.add(9);
    assert_eq!(fetch_task(&mut m), Some(1));
    assert_eq!(fetch_task(&mut m), Some(2));
    assert_eq!(fetch_task(&mut m), Some(9));
    assert_eq!(fetch_task(&mut m), None);
}

#[test]
fn processor_holds_one_task() {
    let mut p = Processor::new();
    assert_eq!(p.current(), None);
    assert_eq!(p.take_current(), None);
    p.set_current(4);
    assert_eq!(p.current(), Some(4));
    assert_eq!(p.take_current(), Some(4));
    assert_eq!(p.current(), None);
    assert_eq!(p.idle_task_cx().ra(), 0);
    p.set_idle_task_cx(TaskContext::goto_trap_return(1, 2));
    assert_eq!((p.idle_task_cx().sp(), p.idle_task_cx().ra()), (1, 2));
}
