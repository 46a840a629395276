use rvos::config::{kernel_stack_position, TRAMPOLINE, TRAP_CONTEXT};
use rvos::mm::address::VirtPageNum;
use rvos::mm::elf::ElfError;
use rvos::mm::memory_set::{KernelLayout, TRAP_CONTEXT_VPN};
use rvos::syscall::process::{sys_exec, sys_exit, sys_fork, sys_get_time, sys_getpid, sys_yield};
use rvos::syscall::process::{KernelFault, SysResult};
use rvos::syscall::wait::sys_waitpid;
use rvos::syscall::{is_served, syscall, Machine};
use rvos::task::task::TaskStatus;
use rvos::task::{App, ExitAction, Kernel, SpawnError};
use rvos::task::task::KernelEnv;
use rvos::trap::{trap_handler, trap_return, Exception, Interrupt, Trap, TrapAction};

const ENTRY_INIT: u64 = 0x1_0000;
const ENTRY_SHELL: u64 = 0x2_0080;

fn layout(frames: u64) -> KernelLayout {
    KernelLayout {
        stext: 0x8020_0000,
        etext: 0x8020_3000,
        srodata: 0x8020_3000,
        erodata: 0x8020_4000,
        sdata: 0x8020_4000,
        edata: 0x8020_5000,
        sbss_with_stack: 0x8020_5000,
        ebss: 0x8021_5000,
        ekernel: 0x8080_0000 - frames * 4096,
        strampoline: 0x8020_1000,
    }
}

fn env() -> KernelEnv {
    KernelEnv { strampoline: 0x8020_1000, trap_return: 0x8020_2000, trap_handler: 0x8020_2100, sstatus: 0x8000_0002_0000_0122 }
}

/// A 64-bit ELF image with one loadable, writable segment at `vaddr`.
fn image(entry: u64, vaddr: u64, data: &[u8], memsz: u64) -> Vec<u8> {
    let mut v = vec![0x7f, b'E', b'L', b'F', 2, 1, 1, 0, 0, 0, 0, 0, 0, 0, 0, 0];
    v.extend_from_slice(&2u16.to_le_bytes());
    v.extend_from_slice(&0xf3u16.to_le_bytes());
    v.extend_from_slice(&1u32.to_le_bytes());
    v.extend_from_slice(&entry.to_le_bytes());
    v.extend_from_slice(&64u64.to_le_bytes());
    v.extend_from_slice(&0u64.to_le_bytes());
    v.extend_from_slice(&0u32.to_le_bytes());
    v.extend_from_slice(&64u16.to_le_bytes());
    v.extend_from_slice(&56u16.to_le_bytes());
    v.extend_from_slice(&1u16.to_le_bytes());
    v.extend_from_slice(&[0u8; 6]);
    v.extend_from_slice(&1u32.to_le_bytes());
    v.extend_from_slice(&7u32.to_le_bytes());
    v.extend_from_slice(&128u64.to_le_bytes());
    v.extend_from_slice(&vaddr.to_le_bytes());
    v.extend_from_slice(&vaddr.to_le_bytes());
    v.extend_from_slice(&(data.len() as u64).to_le_bytes());
    v.extend_from_slice(&memsz.to_le_bytes());
    v.extend_from_slice(&4096u64.to_le_bytes());
    v.extend_from_slice(&[0u8; 8]);
    assert_eq!(v.len(), 128);
    v.extend_from_slice(data);
    while v.len() % 8 != 0 {
        v.push(0);
    }
    v
}

fn apps() -> Vec<App> {
    vec![
        App { name: b"hello".to_vec(), data: image(0x3_0000, 0x3_0000, b"Hello", 0x1000) },
        App { name: b"initproc".to_vec(), data: image(ENTRY_INIT, 0x1_0000, b"init code and data", 0x2000) },
        App { name: b"user_shell".to_vec(), data: image(ENTRY_SHELL, 0x2_0000, b"shell", 0x3000) },
        App { name: b"broken".to_vec(), data: b"not an image at all, but long enough to be looked at as one....!".to_vec() },
    ]
}

fn machine() -> Machine {
    Machine { mtime: 12_500_000, console_char: 0 }
}

/// A kernel whose first task runs.
fn booted(frames: u64) -> Kernel {
    let mut k = Kernel::new(&layout(frames), apps(), env());
    assert_eq!(k.add_initproc(), Ok(()));
    assert_eq!(k.run_next(), Some(0));
    k
}

/// Makes the running task ask for system call `id` and handles the trap.
fn ecall(k: &mut Kernel, id: u64, args: [u64; 3], m: Machine) -> (TrapAction, Vec<u8>) {
    let c = k.current_task().unwrap();
    k.set_trap_cx_word(c, 17, id);
    k.set_trap_cx_word(c, 10, args[0]);
    k.set_trap_cx_word(c, 11, args[1]);
    k.set_trap_cx_word(c, 12, args[2]);
    let out = trap_handler(k, Trap::Exception(Exception::UserEnvCall), m);
    assert_eq!(out.next_trigger, None);
    (out.action, out.console)
}

fn a0_of(k: &Kernel, pid: usize) -> u64 {
    k.tasks[pid].as_ref().unwrap().inner.get_trap_cx().x[10]
}

fn sepc_of(k: &Kernel, pid: usize) -> u64 {
    k.tasks[pid].as_ref().unwrap().inner.get_trap_cx().sepc
}

fn status_of(k: &Kernel, pid: usize) -> TaskStatus {
    k.tasks[pid].as_ref().unwrap().inner.get_status()
}

#[test]
fn boot_makes_the_first_task_with_pid_0() {
    let mut k = Kernel::new(&layout(256), apps(), env());
    assert_eq!(k.current_task(), None);
    assert_eq!(k.run_next(), None);
    assert_eq!(k.add_initproc(), Ok(()));
    assert_eq!(k.tasks.len(), 1);
    assert_eq!(k.manager.len(), 1);
    assert_eq!(status_of(&k, 0), TaskStatus::Ready);
    assert_eq!(k.run_next(), Some(0));
    assert_eq!(k.current_task(), Some(0));
    assert_eq!(status_of(&k, 0), TaskStatus::Running);
    assert_eq!(k.manager.len(), 0);
    assert_eq!(sys_getpid(&k), 0);
    let t = k.tasks[0].as_ref().unwrap();
    assert_eq!(t.getpid(), 0);
    assert_eq!(t.inner.parent, None);
    assert!(t.inner.children.is_empty());
    assert_eq!(t.inner.exit_code, 0);
    assert_eq!(t.inner.base_size, 0x1_4000);
    assert_eq!(t.inner.task_cx.ra(), 0x8020_2000);
    assert_eq!(t.inner.task_cx.sp(), TRAMPOLINE);
    assert!(!t.inner.is_zombie());
}

#[test]
fn first_trap_context_enters_the_program_in_user_mode() {
    let k = booted(256);
    let cx = k.current_trap_cx();
    assert_eq!(cx.sepc, ENTRY_INIT);
    assert_eq!(cx.x[2], 0x1_4000);
    for (i, x) in cx.x.iter().enumerate() {
        if i != 2 {
            assert_eq!(*x, 0);
        }
    }
    assert_eq!(cx.sstatus, 0x8000_0002_0000_0022);
    assert_eq!(cx.sstatus & 0x100, 0);
    assert_eq!(cx.kernel_satp, k.kernel_space.token());
    assert_eq!(cx.kernel_sp, kernel_stack_position(0).1);
    assert_eq!(cx.trap_handler, 0x8020_2100);
    let t = k.tasks[0].as_ref().unwrap();
    let pte = t.inner.memory_set.translate(VirtPageNum(TRAP_CONTEXT_VPN)).unwrap();
    assert_eq!(pte.ppn(), t.inner.trap_cx_ppn);
    assert_eq!(t.inner.get_user_token(), k.current_user_token());
}

#[test]
fn kernel_stack_of_the_first_task_is_mapped_below_the_trampoline() {
    let k = booted(256);
    assert_eq!(k.kernel_space.area_count(), 7);
    for v in [0x7ff_fffdu64, 0x7ff_fffe] {
        assert_eq!(k.kernel_space.translate(VirtPageNum(v)).unwrap().flags().bits, 0b111);
    }
    assert_eq!(k.kernel_space.translate(VirtPageNum(0x7ff_fffc)), None);
    assert_eq!(k.kernel_space.find_area(VirtPageNum(0x7ff_fffd)), Some(6));
}

#[test]
fn booting_without_the_first_program_fails() {
    let mut k = Kernel::new(&layout(256), vec![], env());
    assert_eq!(k.add_initproc(), Err(SpawnError::NoSuchApp));
    let broken = vec![App { name: b"initproc".to_vec(), data: vec![0u8; 100] }];
    let mut k = Kernel::new(&layout(256), broken, env());
    assert_eq!(k.add_initproc(), Err(SpawnError::Refused(ElfError::NotElf)));
    assert_eq!(k.tasks.len(), 0);
    let mut k = Kernel::new(&layout(24), apps(), env());
    assert_eq!(k.add_initproc(), Err(SpawnError::Refused(ElfError::OutOfFrames)));
}

#[test]
fn hello_is_written_to_the_console() {
    let mut k = booted(256);
    assert!(k.write_current(0x1_0100, &b"Hello".to_vec()));
    let (action, console) = ecall(&mut k, 64, [1, 0x1_0100, 5], machine());
    assert_eq!(action, TrapAction::Return);
    assert_eq!(console, b"Hello".to_vec());
    assert_eq!(a0_of(&k, 0), 5);
    assert_eq!(sepc_of(&k, 0), ENTRY_INIT + 4);
    assert_eq!(k.current_task(), Some(0));
    let (action, _) = ecall(&mut k, 93, [0, 0, 0], machine());
    assert_eq!(action, TrapAction::Shutdown { failure: false });
}

#[test]
fn write_spans_pages_and_image_bytes_are_readable() {
    let mut k = booted(256);
    let (action, console) = ecall(&mut k, 64, [1, 0x1_0000, 18], machine());
    assert_eq!(action, TrapAction::Return);
    assert_eq!(console, b"init code and data".to_vec());
    let data: Vec<u8> = (0..100u8).collect();
    assert!(k.write_current(0x1_0fd0, &data));
    let (_, console) = ecall(&mut k, 64, [1, 0x1_0fd0, 100], machine());
    assert_eq!(console, data);
    let (_, console) = ecall(&mut k, 64, [1, 0x1_0000, 0], machine());
    assert_eq!(console, Vec::<u8>::new());
    assert_eq!(a0_of(&k, 0), 0);
}

#[test]
fn fork_returns_child_pid_to_parent_and_0_to_child() {
    let mut k = booted(256);
    k.set_trap_cx_word(0, 5, 0x1234);
    assert!(k.write_current(0x1_0200, &vec![1, 2, 3]));
    let (action, _) = ecall(&mut k, 220, [0, 0, 0], machine());
    assert_eq!(action, TrapAction::Return);
    assert_eq!(k.current_task(), Some(0));
    let p = a0_of(&k, 0);
    assert!(p > 0);
    assert_eq!(p, 1);
    assert_eq!(a0_of(&k, 1), 0);
    assert_eq!(status_of(&k, 1), TaskStatus::Ready);
    assert_eq!(k.manager.len(), 1);
    let parent = k.tasks[0].as_ref().unwrap();
    let child = k.tasks[1].as_ref().unwrap();
    assert_eq!(parent.inner.children, vec![1]);
    assert_eq!(child.inner.parent, Some(0));
    assert_eq!(child.getpid(), 1);
    assert_eq!(child.inner.base_size, parent.inner.base_size);
    let pcx = parent.inner.get_trap_cx();
    let ccx = child.inner.get_trap_cx();
    assert_eq!(ccx.sepc, ENTRY_INIT + 4);
    assert_eq!(pcx.sepc, ENTRY_INIT + 4);
    assert_eq!(ccx.x[5], 0x1234);
    assert_eq!(ccx.x[2], pcx.x[2]);
    assert_eq!(ccx.x[17], 220);
    assert_eq!(ccx.kernel_sp, kernel_stack_position(1).1);
    assert_eq!(pcx.kernel_sp, kernel_stack_position(0).1);
    assert_eq!(ccx.kernel_satp, pcx.kernel_satp);
    assert_eq!(child.inner.task_cx.sp(), kernel_stack_position(1).1);
}

#[test]
fn fork_copies_memory_onto_other_frames() {
    let mut k = booted(256);
    assert!(k.write_current(0x1_0200, &vec![1, 2, 3]));
    assert!(k.write_current(0x1_3ff0, &vec![9; 16]));
    assert_eq!(sys_fork(&mut k), Ok(1));
    let parent = &k.tasks[0].as_ref().unwrap().inner.memory_set;
    let child = &k.tasks[1].as_ref().unwrap().inner.memory_set;
    assert_eq!(child.area_count(), parent.area_count());
    for va in [0x1_0000u64, 0x1_0011, 0x1_0200, 0x1_0202, 0x1_1fff, 0x1_3000, 0x1_3ff0, 0x1_3fff] {
        assert_eq!(child.read_byte(va), parent.read_byte(va));
        assert!(child.read_byte(va).is_some());
    }
    assert_eq!(child.read_byte(0x1_0201), Some(2));
    assert_eq!(child.read_byte(0x1_2000), None);
    for v in [0x10u64, 0x11, 0x13, TRAP_CONTEXT_VPN] {
        let p = parent.translate(VirtPageNum(v)).unwrap();
        let c = child.translate(VirtPageNum(v)).unwrap();
        assert_ne!(p.ppn(), c.ppn());
        assert_eq!(p.flags(), c.flags());
    }
    assert!(k.write_current(0x1_0200, &vec![7]));
    let parent = &k.tasks[0].as_ref().unwrap().inner.memory_set;
    let child = &k.tasks[1].as_ref().unwrap().inner.memory_set;
    assert_eq!(parent.read_byte(0x1_0200), Some(7));
    assert_eq!(child.read_byte(0x1_0200), Some(1));
}

#[test]
fn parent_collects_the_exit_code_of_its_child() {
    let mut k = booted(256);
    let (_, _) = ecall(&mut k, 220, [0, 0, 0], machine());
    let p = a0_of(&k, 0);
    let code_ptr = 0x1_0300u64;
    let (action, _) = ecall(&mut k, 260, [p, code_ptr, 0], machine());
    assert_eq!(action, TrapAction::Return);
    assert_eq!(a0_of(&k, 0) as i64, -2);
    let (action, _) = ecall(&mut k, 124, [0, 0, 0], machine());
    assert_eq!(action, TrapAction::Schedule);
    assert_eq!(a0_of(&k, 0), 0);
    assert_eq!(k.current_task(), None);
    assert_eq!(k.run_next(), Some(1));
    let (action, _) = ecall(&mut k, 172, [0, 0, 0], machine());
    assert_eq!(action, TrapAction::Return);
    assert_eq!(a0_of(&k, 1), 1);
    let (action, _) = ecall(&mut k, 93, [7, 0, 0], machine());
    assert_eq!(action, TrapAction::Schedule);
    assert_eq!(status_of(&k, 1), TaskStatus::Zombie);
    assert_eq!(k.tasks[1].as_ref().unwrap().inner.exit_code, 7);
    assert_eq!(k.tasks[1].as_ref().unwrap().inner.memory_set.area_count(), 0);
    assert_eq!(k.run_next(), Some(0));
    let (action, _) = ecall(&mut k, 260, [p, code_ptr, 0], machine());
    assert_eq!(action, TrapAction::Return);
    assert_eq!(a0_of(&k, 0), p);
    assert_eq!(k.read_current(code_ptr, 4), Some(vec![7, 0, 0, 0]));
    assert!(k.tasks[1].is_none());
    assert!(k.tasks[0].as_ref().unwrap().inner.children.is_empty());
    assert_eq!(k.kernel_space.area_count(), 7);
    assert_eq!(k.kernel_space.translate(VirtPageNum(0x7ff_fffa)), None);
    let (_, _) = ecall(&mut k, 260, [u64::MAX, code_ptr, 0], machine());
    assert_eq!(a0_of(&k, 0) as i64, -1);
}

#[test]
fn waitpid_answers() {
    let mut k = booted(256);
    assert_eq!(sys_waitpid(&mut k, -1, 0x1_0000), SysResult::Value(-1));
    assert_eq!(sys_waitpid(&mut k, 5, 0x1_0000), SysResult::Value(-1));
    assert_eq!(sys_fork(&mut k), Ok(1));
    assert_eq!(sys_fork(&mut k), Ok(2));
    assert_eq!(sys_waitpid(&mut k, 3, 0x1_0000), SysResult::Value(-1));
    assert_eq!(sys_waitpid(&mut k, -1, 0x1_0000), SysResult::Value(-2));
    assert_eq!(sys_waitpid(&mut k, 2, 0x1_0000), SysResult::Value(-2));
    assert_eq!(sys_waitpid(&mut k, -7, 0x1_0000), SysResult::Value(-1));
    assert_eq!(sys_yield(&mut k), 0);
    assert_eq!(k.run_next(), Some(1));
    assert_eq!(sys_yield(&mut k), 0);
    assert_eq!(k.run_next(), Some(2));
    assert_eq!(sys_exit(&mut k, -9), ExitAction::Schedule);
    assert_eq!(k.run_next(), Some(0));
    assert_eq!(sys_waitpid(&mut k, 1, 0x1_0000), SysResult::Value(-2));
    assert_eq!(sys_waitpid(&mut k, -1, 0x1_0000), SysResult::Value(2));
    assert_eq!(k.read_current(0x1_0000, 4), Some((-9i32).to_le_bytes().to_vec()));
    assert_eq!(k.tasks[0].as_ref().unwrap().inner.children, vec![1]);
    assert_eq!(sys_waitpid(&mut k, 2, 0x1_0000), SysResult::Value(-1));
    assert_eq!(sys_fork(&mut k), Ok(2));
    assert_eq!(k.tasks[0].as_ref().unwrap().inner.children, vec![1, 2]);
}

#[test]
fn shell_execs_missing_binary() {
    let mut k = booted(256);
    assert!(k.write_current(0x1_0400, &b"nonexistent\0".to_vec()));
    let token = k.current_user_token();
    let (action, _) = ecall(&mut k, 221, [0x1_0400, 0, 0], machine());
    assert_eq!(action, TrapAction::Return);
    assert_eq!(a0_of(&k, 0) as i64, -1);
    assert_eq!(k.current_user_token(), token);
    assert_eq!(sepc_of(&k, 0), ENTRY_INIT + 4);
    assert_eq!(sys_exec(&mut k, 0x1_0400), SysResult::Value(-1));
}

#[test]
fn exec_replaces_the_address_space() {
    let mut k = booted(256);
    assert_eq!(sys_fork(&mut k), Ok(1));
    assert_eq!(sys_yield(&mut k), 0);
    assert_eq!(k.run_next(), Some(1));
    assert!(k.write_current(0x1_0400, &b"user_shell\0".to_vec()));
    let old_frames: Vec<u64> = [0x10u64, 0x11, 0x13, TRAP_CONTEXT_VPN]
        .iter()
        .map(|v| k.tasks[1].as_ref().unwrap().inner.memory_set.translate(VirtPageNum(*v)).unwrap().ppn().0)
        .collect();
    let old_token = k.current_user_token();
    let (action, _) = ecall(&mut k, 221, [0x1_0400, 0, 0], machine());
    assert_eq!(action, TrapAction::Return);
    let t = k.tasks[1].as_ref().unwrap();
    assert_eq!(t.getpid(), 1);
    assert_eq!(k.current_task(), Some(1));
    assert_eq!(t.inner.parent, Some(0));
    assert_eq!(t.inner.get_status(), TaskStatus::Running);
    let cx = t.inner.get_trap_cx();
    assert_eq!(cx.sepc, ENTRY_SHELL);
    assert_eq!(cx.x[10], 0);
    assert_eq!(cx.x[2], 0x2_5000);
    assert_eq!(cx.kernel_sp, kernel_stack_position(1).1);
    assert_eq!(t.inner.base_size, 0x2_5000);
    let ms = &t.inner.memory_set;
    assert_eq!(ms.read_bytes(0x2_0000, 5), Some(b"shell".to_vec()));
    assert_eq!(ms.read_byte(0x1_0000), None);
    assert_eq!(ms.translate(VirtPageNum(TRAP_CONTEXT_VPN)).unwrap().ppn(), t.inner.trap_cx_ppn);
    for v in [0x20u64, 0x21, 0x22, 0x24, TRAP_CONTEXT_VPN] {
        let ppn = ms.translate(VirtPageNum(v)).unwrap().ppn().0;
        assert!(!old_frames.contains(&ppn));
    }
    assert_ne!(k.current_user_token(), old_token);
    assert_eq!(k.tasks[0].as_ref().unwrap().inner.children, vec![1]);
}

#[test]
fn exec_of_a_broken_image_stops_the_kernel() {
    let mut k = booted(256);
    assert!(k.write_current(0x1_0400, &b"broken\0".to_vec()));
    assert_eq!(sys_exec(&mut k, 0x1_0400), SysResult::Fault(KernelFault::BadImage(ElfError::NotElf)));
    assert_eq!(k.current_task(), Some(0));
    assert_eq!(k.read_current(0x1_0400, 6), Some(b"broken".to_vec()));
    let (action, _) = ecall(&mut k, 221, [0x1_0400, 0, 0], machine());
    assert_eq!(action, TrapAction::Panic(KernelFault::BadImage(ElfError::NotElf)));
}

#[test]
fn bad_pointers_end_the_task() {
    let mut k = booted(256);
    assert_eq!(sys_fork(&mut k), Ok(1));
    assert_eq!(sys_yield(&mut k), 0);
    assert_eq!(k.run_next(), Some(1));
    assert_eq!(sys_exec(&mut k, 0x9_0000), SysResult::Killed(ExitAction::Schedule));
    assert_eq!(status_of(&k, 1), TaskStatus::Zombie);
    assert_eq!(k.tasks[1].as_ref().unwrap().inner.exit_code, -2);
    assert_eq!(k.current_task(), None);
    assert_eq!(k.run_next(), Some(0));
    let (action, console) = ecall(&mut k, 64, [1, 0x1_1ff0, 100], machine());
    assert_eq!(action, TrapAction::Shutdown { failure: true });
    assert!(console.is_empty());
}

#[test]
fn page_fault_kills_the_task_with_code_minus_2() {
    let mut k = booted(256);
    assert_eq!(sys_fork(&mut k), Ok(1));
    assert_eq!(sys_yield(&mut k), 0);
    assert_eq!(k.run_next(), Some(1));
    let out = trap_handler(&mut k, Trap::Exception(Exception::StorePageFault), machine());
    assert_eq!(out.action, TrapAction::Schedule);
    assert!(out.console.is_empty());
    assert_eq!(out.next_trigger, None);
    assert_eq!(status_of(&k, 1), TaskStatus::Zombie);
    assert_eq!(k.run_next(), Some(0));
    assert_eq!(sys_waitpid(&mut k, 1, 0x1_0500), SysResult::Value(1));
    assert_eq!(k.read_current(0x1_0500, 4), Some((-2i32).to_le_bytes().to_vec()));
}

#[test]
fn every_memory_fault_and_illegal_instruction_ends_the_task() {
    for (cause, code) in [
        (Exception::StoreFault, -2i32),
        (Exception::StorePageFault, -2),
        (Exception::LoadFault, -2),
        (Exception::LoadPageFault, -2),
        (Exception::InstructionFault, -2),
        (Exception::InstructionPageFault, -2),
        (Exception::IllegalInstruction, -3),
    ] {
        let mut k = booted(256);
        assert_eq!(sys_fork(&mut k), Ok(1));
        assert_eq!(sys_yield(&mut k), 0);
        assert_eq!(k.run_next(), Some(1));
        let out = trap_handler(&mut k, Trap::Exception(cause), machine());
        assert_eq!(out.action, TrapAction::Schedule);
        assert_eq!(k.tasks[1].as_ref().unwrap().inner.exit_code, code);
        assert_eq!(k.run_next(), Some(0));
        let out = trap_handler(&mut k, Trap::Exception(cause), machine());
        assert_eq!(out.action, TrapAction::Shutdown { failure: true });
    }
}

#[test]
fn traps_that_are_not_handled_stop_the_kernel() {
    let mut k = booted(256);
    for cause in [
        Trap::Exception(Exception::Breakpoint),
        Trap::Exception(Exception::InstructionMisaligned),
        Trap::Exception(Exception::StoreMisaligned),
        Trap::Exception(Exception::Unknown),
        Trap::Interrupt(Interrupt::SupervisorSoft),
        Trap::Interrupt(Interrupt::SupervisorExternal),
        Trap::Interrupt(Interrupt::UserTimer),
        Trap::Interrupt(Interrupt::Unknown),
    ] {
        let out = trap_handler(&mut k, cause, machine());
        assert_eq!(out.action, TrapAction::Panic(KernelFault::UnsupportedTrap));
        assert_eq!(k.current_task(), Some(0));
    }
    for (id, args) in [(0u64, [0u64, 0, 0]), (214, [0, 0, 0]), (64, [2, 0, 0]), (63, [1, 0, 1]), (63, [0, 0, 2])] {
        assert!(!is_served(id, args));
        let (action, _) = ecall(&mut k, id, args, machine());
        assert_eq!(action, TrapAction::Panic(KernelFault::UnsupportedSyscall));
        assert_eq!(sepc_of(&k, 0), ENTRY_INIT);
    }
    assert!(is_served(64, [1, 0, 0]) && is_served(63, [0, 0, 1]) && is_served(260, [9, 9, 9]));
}

#[test]
fn timer_preempts_in_fifo_order() {
    let mut k = booted(256);
    assert_eq!(sys_fork(&mut k), Ok(1));
    assert_eq!(sys_fork(&mut k), Ok(2));
    let mut ran = vec![0usize];
    let mut now = 1_000u64;
    for _ in 0..6 {
        let out = trap_handler(&mut k, Trap::Interrupt(Interrupt::SupervisorTimer), Machine { mtime: now, console_char: 0 });
        assert_eq!(out.action, TrapAction::Schedule);
        assert_eq!(out.next_trigger, Some(now + 125_000));
        assert_eq!(k.current_task(), None);
        let next = k.run_next().unwrap();
        assert_eq!(status_of(&k, next), TaskStatus::Running);
        ran.push(next);
        now += 125_000;
    }
    assert_eq!(ran, vec![0, 1, 2, 0, 1, 2, 0]);
    assert_eq!(sepc_of(&k, 1), ENTRY_INIT);
}

#[test]
fn k_yields_run_every_task_once() {
    let mut k = booted(256);
    for pid in 1..5 {
        assert_eq!(sys_fork(&mut k), Ok(pid));
    }
    let mut runs = [0usize; 5];
    for _ in 0..5 {
        let (action, _) = ecall(&mut k, 124, [0, 0, 0], machine());
        assert_eq!(action, TrapAction::Schedule);
        runs[k.run_next().unwrap()] += 1;
    }
    assert_eq!(runs, [1, 1, 1, 1, 1]);
    assert_eq!(k.current_task(), Some(0));
    assert_eq!(k.manager.len(), 4);
}

#[test]
fn read_waits_for_a_byte() {
    let mut k = booted(256);
    assert_eq!(sys_fork(&mut k), Ok(1));
    let (action, _) = ecall(&mut k, 63, [0, 0x1_0600, 1], Machine { mtime: 0, console_char: 0 });
    assert_eq!(action, TrapAction::Schedule);
    assert_eq!(sepc_of(&k, 0), ENTRY_INIT);
    assert_eq!(status_of(&k, 0), TaskStatus::Ready);
    assert_eq!(k.run_next(), Some(1));
    assert_eq!(sys_yield(&mut k), 0);
    assert_eq!(k.run_next(), Some(0));
    let (action, _) = ecall(&mut k, 63, [0, 0x1_0600, 1], Machine { mtime: 0, console_char: b'x' });
    assert_eq!(action, TrapAction::Return);
    assert_eq!(a0_of(&k, 0), 1);
    assert_eq!(sepc_of(&k, 0), ENTRY_INIT + 4);
    assert_eq!(k.read_current(0x1_0600, 1), Some(vec![b'x']));
    let (action, _) = ecall(&mut k, 63, [0, 0x9_0000, 1], Machine { mtime: 0, console_char: b'y' });
    assert_eq!(action, TrapAction::Shutdown { failure: true });
}

#[test]
fn exit_gives_children_to_the_first_task() {
    let mut k = booted(256);
    assert_eq!(sys_fork(&mut k), Ok(1));
    assert_eq!(sys_yield(&mut k), 0);
    assert_eq!(k.run_next(), Some(1));
    assert_eq!(sys_fork(&mut k), Ok(2));
    assert_eq!(sys_fork(&mut k), Ok(3));
    assert_eq!(k.tasks[1].as_ref().unwrap().inner.children, vec![2, 3]);
    assert_eq!(sys_exit(&mut k, 5), ExitAction::Schedule);
    assert_eq!(k.tasks[0].as_ref().unwrap().inner.children, vec![1, 2, 3]);
    assert!(k.tasks[1].as_ref().unwrap().inner.children.is_empty());
    assert_eq!(k.tasks[2].as_ref().unwrap().inner.parent, Some(0));
    assert_eq!(k.tasks[3].as_ref().unwrap().inner.parent, Some(0));
    assert_eq!(k.tasks[1].as_ref().unwrap().inner.parent, Some(0));
    assert_eq!(k.run_next(), Some(0));
    assert_eq!(sys_waitpid(&mut k, -1, 0x1_0000), SysResult::Value(1));
    assert_eq!(k.tasks[0].as_ref().unwrap().inner.children, vec![2, 3]);
    assert_eq!(sys_waitpid(&mut k, -1, 0x1_0000), SysResult::Value(-2));
}

#[test]
fn first_task_exit_shuts_down() {
    let mut k = booted(256);
    assert_eq!(sys_exit(&mut k, 0), ExitAction::Shutdown { failure: false });
    assert_eq!(sys_exit(&mut k, 1), ExitAction::Shutdown { failure: true });
    assert_eq!(sys_exit(&mut k, -1), ExitAction::Shutdown { failure: true });
    assert_eq!(k.current_task(), Some(0));
    assert_eq!(status_of(&k, 0), TaskStatus::Running);
}

#[test]
fn pids_of_collected_children_are_used_again() {
    let mut k = booted(256);
    for pid in 1..4 {
        assert_eq!(sys_fork(&mut k), Ok(pid));
    }
    assert_eq!(sys_yield(&mut k), 0);
    for pid in 1..4usize {
        assert_eq!(k.run_next(), Some(pid));
        assert_eq!(sys_exit(&mut k, pid as i32), ExitAction::Schedule);
    }
    assert_eq!(k.run_next(), Some(0));
    assert_eq!(sys_waitpid(&mut k, 2, 0x1_0000), SysResult::Value(2));
    assert_eq!(sys_waitpid(&mut k, 1, 0x1_0000), SysResult::Value(1));
    assert_eq!(sys_fork(&mut k), Ok(1));
    assert_eq!(sys_fork(&mut k), Ok(2));
    assert_eq!(sys_fork(&mut k), Ok(4));
    assert_eq!(k.tasks.len(), 5);
    assert_eq!(k.tasks[0].as_ref().unwrap().inner.children, vec![3, 1, 2, 4]);
}

#[test]
fn fork_without_frames_stops_the_kernel() {
    let mut k = booted(40);
    assert_eq!(sys_fork(&mut k), Ok(1));
    assert_eq!(sys_fork(&mut k), Err(KernelFault::OutOfFrames));
    assert_eq!(k.tasks.len(), 2);
    assert_eq!(k.manager.len(), 1);
    assert_eq!(k.tasks[0].as_ref().unwrap().inner.children, vec![1]);
    let (action, _) = ecall(&mut k, 220, [0, 0, 0], machine());
    assert_eq!(action, TrapAction::Panic(KernelFault::OutOfFrames));
}

#[test]
fn frames_of_a_collected_child_come_back() {
    let mut k = booted(64);
    let mut before = 0u64;
    while k.frame_allocator.has_available(before + 1) {
        before += 1;
    }
    assert_eq!(sys_fork(&mut k), Ok(1));
    assert!(!k.frame_allocator.has_available(before));
    assert_eq!(sys_yield(&mut k), 0);
    assert_eq!(k.run_next(), Some(1));
    assert_eq!(sys_exit(&mut k, 0), ExitAction::Schedule);
    assert_eq!(k.run_next(), Some(0));
    assert!(!k.frame_allocator.has_available(before));
    assert_eq!(sys_waitpid(&mut k, 1, 0x1_0000), SysResult::Value(1));
    assert!(k.frame_allocator.has_available(before));
    assert!(!k.frame_allocator.has_available(before + 1));
}

#[test]
fn get_time_is_milliseconds() {
    assert_eq!(sys_get_time(0), 0);
    assert_eq!(sys_get_time(12_500_000), 1000);
    assert_eq!(sys_get_time(12_499), 0);
    assert_eq!(sys_get_time(12_500), 1);
    assert_eq!(sys_get_time(125_000), 10);
    assert_eq!(sys_get_time(u64::MAX), 1_475_739_525_896_764);
    let mut k = booted(256);
    let (action, _) = ecall(&mut k, 169, [0, 0, 0], Machine { mtime: 25_000_000, console_char: 0 });
    assert_eq!(action, TrapAction::Return);
    assert_eq!(a0_of(&k, 0), 2000);
    let out = syscall(&mut k, 172, [0, 0, 0], machine());
    assert_eq!(out.0, SysResult::Value(0));
}

#[test]
fn return_to_user_goes_through_the_trampoline() {
    let k = booted(256);
    let r = trap_return(&k, 0x8020_1000, 0x8020_1064);
    assert_eq!(r.stvec, TRAMPOLINE);
    assert_eq!(r.restore_va, TRAMPOLINE + 0x64);
    assert_eq!(r.trap_cx_ptr, TRAP_CONTEXT);
    assert_eq!(r.user_satp, k.current_user_token());
    assert_eq!(r.user_satp >> 60, 8);
    assert_eq!(rvos::trap::init(0x8020_0abc), 0x8020_0abc);
}

#[test]
fn address_spaces_are_found_by_token() {
    let mut k = booted(256);
    assert_eq!(sys_fork(&mut k), Ok(1));
    assert!(k.write_current(0x1_0700, &b"abc".to_vec()));
    let kernel_token = k.kernel_space.token();
    let parent_token = k.current_user_token();
    let child_token = k.tasks[1].as_ref().unwrap().inner.get_user_token();
    assert_ne!(parent_token, child_token);
    assert_ne!(parent_token, kernel_token);
    assert_ne!(child_token, kernel_token);
    for token in [kernel_token, parent_token, child_token] {
        assert_eq!(k.from_token(token).unwrap().token(), token);
        assert_eq!(k.space_by_token(token).unwrap().token(), token);
    }
    assert!(k.from_token(kernel_token + 1).is_none());
    assert!(k.from_token(0).is_none());
    let table = k.from_token(parent_token).unwrap();
    assert_eq!(
        table.translate(VirtPageNum(0x10)),
        k.tasks[0].as_ref().unwrap().inner.memory_set.translate(VirtPageNum(0x10))
    );
    assert_eq!(k.translated_byte_buffer(parent_token, 0x1_0700, 3), Some(b"abc".to_vec()));
    assert_eq!(k.translated_byte_buffer(child_token, 0x1_0700, 3), Some(vec![0, 0, 0]));
    assert_eq!(k.translated_byte_buffer(child_token, 0x1_0000, 4), Some(b"init".to_vec()));
    assert_eq!(k.translated_byte_buffer(kernel_token, 0x8020_0000, 1), None);
    assert_eq!(k.translated_byte_buffer(parent_token, 0x9_0000, 1), None);
    assert_eq!(k.translated_byte_buffer(12345, 0x1_0000, 1), None);
}

#[test]
fn zombie_keeps_its_page_table_root() {
    let mut k = booted(256);
    assert_eq!(sys_fork(&mut k), Ok(1));
    assert_eq!(sys_yield(&mut k), 0);
    assert_eq!(k.run_next(), Some(1));
    assert_eq!(sys_fork(&mut k), Ok(2));
    assert_eq!(sys_yield(&mut k), 0);
    assert_eq!(k.run_next(), Some(0));
    assert_eq!(sys_yield(&mut k), 0);
    assert_eq!(k.run_next(), Some(2));
    assert_eq!(sys_fork(&mut k), Ok(3));
    assert_eq!(sys_yield(&mut k), 0);
    assert_eq!(k.run_next(), Some(1));
    let token = k.current_user_token();
    assert_eq!(sys_exit(&mut k, 1), ExitAction::Schedule);
    let zombie = k.tasks[1].as_ref().unwrap();
    assert_eq!(zombie.inner.get_user_token(), token);
    assert_eq!(zombie.getpid(), 1);
    assert_eq!(zombie.inner.memory_set.translate(VirtPageNum(0x10)), None);
    assert!(zombie.inner.memory_set.translate(VirtPageNum(0x7ff_ffff)).is_some());
    assert_eq!(k.tasks[2].as_ref().unwrap().inner.parent, Some(0));
    assert_eq!(k.tasks[2].as_ref().unwrap().inner.children, vec![3]);
    assert_eq!(k.tasks[3].as_ref().unwrap().inner.parent, Some(2));
    assert_eq!(k.tasks[0].as_ref().unwrap().inner.children, vec![1, 2]);
}

#[test]
fn exec_gives_every_old_frame_back() {
    let mut k = booted(256);
    assert!(k.write_current(0x1_0400, &b"hello\0".to_vec()));
    let old: Vec<u64> = {
        let t = k.tasks[0].as_ref().unwrap();
        let tables = t.inner.memory_set.page_table();
        let mut frames: Vec<u64> = (0..tables.table_count()).map(|i| tables.table_ppn(i).0).collect();
        for v in [0x10u64, 0x11, 0x13, TRAP_CONTEXT_VPN] {
            frames.push(t.inner.memory_set.translate(VirtPageNum(v)).unwrap().ppn().0);
        }
        frames
    };
    assert_eq!(old.len(), 5 + 4);
    let mut before = 0u64;
    while k.frame_allocator.has_available(before + 1) {
        before += 1;
    }
    assert_eq!(sys_exec(&mut k, 0x1_0400), SysResult::Value(0));
    let t = k.tasks[0].as_ref().unwrap();
    let tables = t.inner.memory_set.page_table();
    let mut new: Vec<u64> = (0..tables.table_count()).map(|i| tables.table_ppn(i).0).collect();
    for v in [0x30u64, 0x32, TRAP_CONTEXT_VPN] {
        new.push(t.inner.memory_set.translate(VirtPageNum(v)).unwrap().ppn().0);
    }
    for f in &new {
        assert!(!old.contains(f));
    }
    assert_eq!(k.read_current(0x3_0000, 5), Some(b"Hello".to_vec()));
    assert_eq!(k.current_trap_cx().sepc, 0x3_0000);
    assert!(k.frame_allocator.has_available(before + 1));
    assert!(!k.frame_allocator.has_available(before + 2));
}

#[test]
fn frames_come_from_behind_the_kernel_image() {
    let k = booted(64);
    let first = (0x8080_0000u64 - 64 * 4096) / 4096;
    assert_eq!(k.kernel_space.token(), (8u64 << 60) | first);
    let t = k.tasks[0].as_ref().unwrap();
    let tables = t.inner.memory_set.page_table();
    for i in 0..tables.table_count() {
        let p = tables.table_ppn(i).0;
        assert!(first <= p && p < 0x80800);
    }
    for v in [0x10u64, 0x11, 0x13, TRAP_CONTEXT_VPN] {
        let p = t.inner.memory_set.translate(VirtPageNum(v)).unwrap().ppn().0;
        assert!(first <= p && p < 0x80800);
    }
}
