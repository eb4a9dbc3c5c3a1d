use hyperion::process::{lang_start_internal, ExitCode, Pid, Tid};
use hyperion::vmm::IdCounter;

#[test]
fn exit_codes() {
    assert_eq!(ExitCode::success().to_i32(), 0);
    assert_eq!(ExitCode::failure().to_i32(), -1);
    assert_eq!(ExitCode::from_u8(200).to_i32(), 200);
    assert_eq!(ExitCode::default().to_i32(), 0);
}

#[test]
fn main_results_become_exit_codes() {
    assert_eq!(lang_start_internal(()), 0);
    assert_eq!(lang_start_internal(ExitCode::from_raw(-3)), -3);
}

#[test]
fn ids_of_processes_and_threads() {
    let mut ids = IdCounter::new(1);
    assert_eq!(Pid::next(&mut ids).num(), 1);
    assert_eq!(Tid::next(&mut ids).num(), 2);
    assert_eq!(Pid::new(9).num(), 9);
}

#[test]
fn results_of_main() {
    let ok: Result<ExitCode, ()> = Ok(ExitCode::from_raw(3));
    assert_eq!(lang_start_internal(ok), 3);
    let err: Result<(), &str> = Err("no");
    assert_eq!(lang_start_internal(err), -1);
}

#[test]
fn process_ids_start_at_one_and_count_up() {
    let mut pids = Pid::counter();
    let first = Pid::next(&mut pids);
    let second = Pid::next(&mut pids);
    assert_eq!(first.num(), 1);
    assert!(second > first);
}
