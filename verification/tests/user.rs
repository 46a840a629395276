use rvos::batch::{AppInfo, AppManager};
use rvos::sync::up::UPSafeCell;
use rvos::timer::{get_time_ms, set_next_trigger};
use rvos::user::syscall::{sys_exit, sys_get_time, sys_request, sys_write, sys_yield, SyscallRequest};
use rvos::user::{exec, exit, fork, getpid, read, wait, waitpid, yield_};
use rvos::user::{WaitState, WaitStep};

fn req(id: u64, args: [u64; 3]) -> SyscallRequest {
    SyscallRequest { id, args }
}

#[test]
fn user_calls_carry_number_and_arguments() {
    assert_eq!(sys_write(1, 0x1000, 5), req(64, [1, 0x1000, 5]));
    assert_eq!(sys_exit(0), req(93, [0, 0, 0]));
    assert_eq!(sys_exit(-1), req(93, [u64::MAX, 0, 0]));
    assert_eq!(sys_yield(), req(124, [0, 0, 0]));
    assert_eq!(sys_get_time(), req(169, [0, 0, 0]));
    assert_eq!(sys_request(7, [1, 2, 3]), req(7, [1, 2, 3]));
    assert_eq!(read(0, 0x2000, 1), req(63, [0, 0x2000, 1]));
    assert_eq!(rvos::user::write(1, 0x3000, 9), req(64, [1, 0x3000, 9]));
    assert_eq!(exit(-4), req(93, [(-4i64) as u64, 0, 0]));
    assert_eq!(yield_(), req(124, [0, 0, 0]));
    assert_eq!(rvos::user::get_time(), req(169, [0, 0, 0]));
    assert_eq!(getpid(), req(172, [0, 0, 0]));
    assert_eq!(fork(), req(220, [0, 0, 0]));
    assert_eq!(exec(0x4000), req(221, [0x4000, 0, 0]));
}

#[test]
fn wait_asks_yields_and_asks_again() {
    let ask = WaitStep::Call(req(260, [u64::MAX, 0x500, 0]));
    assert_eq!(wait(0x500, WaitState::Start), ask);
    assert_eq!(wait(0x500, WaitState::Waited(-2)), WaitStep::Call(req(124, [0, 0, 0])));
    assert_eq!(wait(0x500, WaitState::Yielded), ask);
    assert_eq!(wait(0x500, WaitState::Waited(3)), WaitStep::Done(3));
    assert_eq!(wait(0x500, WaitState::Waited(-1)), WaitStep::Done(-1));
    assert_eq!(waitpid(6, 0x700, WaitState::Start), WaitStep::Call(req(260, [6, 0x700, 0])));
    assert_eq!(waitpid(6, 0x700, WaitState::Waited(-2)), WaitStep::Call(req(124, [0, 0, 0])));
    assert_eq!(waitpid(6, 0x700, WaitState::Yielded), WaitStep::Call(req(260, [6, 0x700, 0])));
    assert_eq!(waitpid(6, 0x700, WaitState::Waited(6)), WaitStep::Done(6));
    assert_eq!(waitpid(6, 0x700, WaitState::Waited(0)), WaitStep::Done(0));
}

#[test]
fn timer_arithmetic() {
    assert_eq!(get_time_ms(0), 0);
    assert_eq!(get_time_ms(12_500_000), 1_000);
    assert_eq!(get_time_ms(12_500_001), 1_000);
    assert_eq!(get_time_ms(1_249), 0);
    assert_eq!(get_time_ms(1_250), 0);
    assert_eq!(get_time_ms(12_500), 1);
    assert_eq!(get_time_ms(u64::MAX), 1_475_739_525_896_764);
    assert_eq!(set_next_trigger(0), 125_000);
    assert_eq!(set_next_trigger(1_000_000), 1_125_000);
    assert_eq!(set_next_trigger(u64::MAX - 125_000), u64::MAX);
}

#[test]
fn exclusive_access_changes_the_value_in_place() {
    let mut cell = UPSafeCell::new(vec![1u8, 2]);
    cell.exclusive_access().push(3);
    *cell.exclusive_access() = {
        let mut v = cell.exclusive_access().clone();
        v.reverse();
        v
    };
    assert_eq!(cell.into_inner(), vec![3, 2, 1]);
}

#[test]
fn app_table() {
    assert!(AppManager::new(2, vec![10, 20]).is_none());
    assert!(AppManager::new(17, (0..18).collect()).is_none());
    assert!(AppManager::new(2, vec![10, 30, 20]).is_none());
    assert!(AppManager::new(0, vec![5]).is_some());
    let mut m = AppManager::new(3, vec![0x100, 0x180, 0x180, 0x400]).unwrap();
    assert_eq!(m.get_current_app(), 0);
    m.move_to_next_app();
    m.move_to_next_app();
    assert_eq!(m.get_current_app(), 2);
    assert_eq!(
        m.print_app_info(),
        vec![
            AppInfo { index: 0, start: 0x100, end: 0x180 },
            AppInfo { index: 1, start: 0x180, end: 0x180 },
            AppInfo { index: 2, start: 0x180, end: 0x400 },
        ]
    );
    assert_eq!(m.load_app(2), Some(AppInfo { index: 2, start: 0x180, end: 0x400 }));
    assert_eq!(m.load_app(3), None);
    m.move_to_next_app();
    assert_eq!(m.load_app(m.get_current_app()), None);
}
