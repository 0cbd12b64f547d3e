use procmon::dispatch::{
    error_from_errno, priority_target, record_signal_outcome, send_signal_to_selected_process, signal_pid,
    stepped_nice, thread_signal_outcome, thread_signal_target, CommandError, ProcSignal,
};
use procmon::sampler::TaskStat;
use procmon::state::{AppState, Mode, ProcessRecord};

fn rec(pid: u32) -> ProcessRecord {
    ProcessRecord { pid, ppid: 1, cpu_centi: 0, memory: 0 }
}

fn nav_snapshot(s: &AppState) -> (usize, usize, usize, usize, bool, Option<Vec<u32>>, Vec<u32>) {
    (
        s.proc_view.offset,
        s.proc_view.selected,
        s.thread_view.offset,
        s.thread_view.selected,
        s.frozen,
        s.cached_pids.clone(),
        s.killed_pids.clone(),
    )
}

#[test]
fn terminate_of_exited_process_is_target_not_found() {
    let mut s = AppState::new(5, 5);
    s.ordered_pids(&vec![rec(4_000_000), rec(4_000_001)]);
    s.select_next(2);
    let before = nav_snapshot(&s);
    let live = vec![rec(4_000_000)];
    let r = send_signal_to_selected_process(&mut s, &live, ProcSignal::Terminate);
    assert_eq!(r, Err(CommandError::TargetNotFound));
    assert_eq!(nav_snapshot(&s), before);
}

#[test]
fn command_without_order_is_target_not_found() {
    let mut s = AppState::new(5, 5);
    let r = send_signal_to_selected_process(&mut s, &vec![rec(1)], ProcSignal::ForceKill);
    assert_eq!(r, Err(CommandError::TargetNotFound));
    assert!(s.killed_pids.is_empty());
}

#[test]
fn selection_past_order_is_target_not_found() {
    let mut s = AppState::new(5, 5);
    s.ordered_pids(&vec![rec(4_000_000), rec(4_000_001)]);
    s.select_next(2);
    s.ordered_pids(&vec![rec(4_000_000)]);
    let r = send_signal_to_selected_process(&mut s, &vec![rec(4_000_000)], ProcSignal::Suspend);
    assert_eq!(r, Err(CommandError::TargetNotFound));
}

#[test]
fn undeliverable_pids_are_never_signalled() {
    let mut s = AppState::new(5, 5);
    let live = vec![rec(0), rec(u32::MAX)];
    assert_eq!(signal_pid(&mut s, 0, &live, ProcSignal::Terminate), Err(CommandError::TargetNotFound));
    assert_eq!(
        signal_pid(&mut s, u32::MAX, &live, ProcSignal::Terminate),
        Err(CommandError::TargetNotFound)
    );
    assert!(s.killed_pids.is_empty());
}

#[test]
fn terminating_success_marks_killed() {
    let mut s = AppState::new(5, 5);
    assert_eq!(record_signal_outcome(&mut s, 42, ProcSignal::Terminate, Ok(())), Ok(()));
    assert_eq!(record_signal_outcome(&mut s, 43, ProcSignal::ForceKill, Ok(())), Ok(()));
    assert_eq!(record_signal_outcome(&mut s, 44, ProcSignal::Suspend, Ok(())), Ok(()));
    assert_eq!(record_signal_outcome(&mut s, 45, ProcSignal::Resume, Ok(())), Ok(()));
    assert_eq!(s.killed_pids, vec![42, 43]);
}

#[test]
fn failed_signal_maps_error_and_keeps_state() {
    let mut s = AppState::new(5, 5);
    assert_eq!(
        record_signal_outcome(&mut s, 42, ProcSignal::Terminate, Err(1)),
        Err(CommandError::PermissionDenied)
    );
    assert_eq!(
        record_signal_outcome(&mut s, 42, ProcSignal::Terminate, Err(3)),
        Err(CommandError::TargetNotFound)
    );
    assert_eq!(
        record_signal_outcome(&mut s, 42, ProcSignal::ForceKill, Err(22)),
        Err(CommandError::Os(22))
    );
    assert!(s.killed_pids.is_empty());
}

#[test]
fn errno_mapping() {
    assert_eq!(error_from_errno(1), CommandError::PermissionDenied);
    assert_eq!(error_from_errno(3), CommandError::TargetNotFound);
    assert_eq!(error_from_errno(13), CommandError::Os(13));
}

fn task(tid: u32) -> TaskStat {
    TaskStat { tid, name: String::from("worker"), state: 'S', priority: 20, cpu_ticks: 0 }
}

#[test]
fn thread_target_resolves_selected_row() {
    let mut s = AppState::new(5, 5);
    assert_eq!(thread_signal_target(&s), Err(CommandError::TargetNotFound));
    s.focus_threads(77);
    s.set_mode(Mode::Thread);
    s.set_thread_total(3);
    let rows = s.thread_rows(&vec![task(79), task(78), task(77)], 0, 100);
    assert_eq!(rows.iter().map(|t| t.tid).collect::<Vec<u32>>(), vec![77, 78, 79]);
    s.select_next(0);
    assert_eq!(thread_signal_target(&s), Ok((77, 78)));
    s.set_thread_total(1);
    assert_eq!(s.thread_view.selected, 0);
    assert_eq!(thread_signal_target(&s), Ok((77, 77)));
    s.set_thread_total(0);
    assert_eq!(thread_signal_target(&s), Err(CommandError::TargetNotFound));
}

#[test]
fn thread_outcome_mapping() {
    assert_eq!(thread_signal_outcome(0, 0), Ok(()));
    assert_eq!(thread_signal_outcome(-1, 3), Err(CommandError::TargetNotFound));
    assert_eq!(thread_signal_outcome(-1, 1), Err(CommandError::PermissionDenied));
    assert_eq!(thread_signal_outcome(-1, 22), Err(CommandError::Os(22)));
}

#[test]
fn nice_steps_are_clamped() {
    assert_eq!(stepped_nice(0, true), 1);
    assert_eq!(stepped_nice(0, false), -1);
    assert_eq!(stepped_nice(19, true), 19);
    assert_eq!(stepped_nice(-20, false), -20);
    assert_eq!(stepped_nice(18, true), 19);
    assert_eq!(stepped_nice(40, false), 19);
    assert_eq!(stepped_nice(i32::MIN, true), -20);
    assert_eq!(stepped_nice(i32::MAX, true), 19);
}

#[test]
fn focus_change_resets_thread_view_and_samples() {
    let mut s = AppState::new(5, 2);
    s.set_mode(Mode::Thread);
    let _ = s.thread_rows(&vec![task(5), task(6)], 0, 100);
    s.set_thread_total(5);
    s.select_next(0);
    s.select_next(0);
    assert!(!s.thread_samples.is_empty());
    s.focus_threads(900);
    assert_eq!(s.thread_process_pid, 900);
    assert_eq!((s.thread_view.offset, s.thread_view.selected), (0, 0));
    assert!(s.cached_threads.is_none());
    assert!(s.thread_samples.is_empty());
    assert_eq!(s.mode, Mode::Thread);
}

#[test]
fn priority_target_requires_a_live_selection() {
    let mut s = AppState::new(5, 5);
    assert_eq!(priority_target(&s, &vec![rec(1)]), Err(CommandError::TargetNotFound));
    s.ordered_pids(&vec![rec(40), rec(41)]);
    s.select_next(2);
    assert_eq!(priority_target(&s, &vec![rec(40), rec(41)]), Ok(41));
    assert_eq!(priority_target(&s, &vec![rec(40)]), Err(CommandError::TargetNotFound));
    s.ordered_pids(&vec![rec(0), rec(1)]);
    assert_eq!(priority_target(&s, &vec![rec(0), rec(1)]), Ok(1));
    s.select_previous();
    assert_eq!(priority_target(&s, &vec![rec(0), rec(1)]), Err(CommandError::TargetNotFound));
}
