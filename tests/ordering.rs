use procmon::order::{sort_keys, SortKey};
use procmon::sampler::{TaskStat, ThreadInfo};
use procmon::state::{
    selected_pid, sorted_pids, sorted_threads, AppState, Mode, ProcessRecord, SortMode,
};

fn rec(pid: u32, cpu_centi: u64, memory: u64) -> ProcessRecord {
    ProcessRecord { pid, ppid: 1, cpu_centi, memory }
}

fn row(tid: u32, cpu_centi: u64, priority: i64) -> ThreadInfo {
    ThreadInfo { tid, name: format!("t{}", tid), state: 'S', cpu_centi, priority }
}

fn task(tid: u32, cpu_ticks: u64, priority: i64) -> TaskStat {
    TaskStat { tid, name: format!("t{}", tid), state: 'R', priority, cpu_ticks }
}

fn snapshot() -> Vec<ProcessRecord> {
    vec![rec(30, 500, 100), rec(10, 2500, 50), rec(20, 500, 900), rec(40, 0, 900)]
}

#[test]
fn sort_keys_orders_by_rank_then_id_then_slot() {
    let keys = vec![
        SortKey { rank: 5, id: 2, slot: 0 },
        SortKey { rank: 1, id: 9, slot: 1 },
        SortKey { rank: 5, id: 1, slot: 2 },
        SortKey { rank: 5, id: 1, slot: 3 },
    ];
    let sorted = sort_keys(&keys);
    let slots: Vec<usize> = sorted.iter().map(|k| k.slot).collect();
    assert_eq!(slots, vec![1, 2, 3, 0]);
    assert!(sort_keys(&Vec::new()).is_empty());
}

#[test]
fn pids_by_cpu_descending_ties_by_pid() {
    assert_eq!(sorted_pids(&snapshot(), SortMode::Cpu), vec![10, 20, 30, 40]);
}

#[test]
fn pids_by_memory_descending_ties_by_pid() {
    assert_eq!(sorted_pids(&snapshot(), SortMode::Memory), vec![20, 40, 30, 10]);
}

#[test]
fn pids_by_pid_ascending() {
    assert_eq!(sorted_pids(&snapshot(), SortMode::Pid), vec![10, 20, 30, 40]);
    assert!(sorted_pids(&Vec::new(), SortMode::Cpu).is_empty());
}

#[test]
fn threads_by_each_mode() {
    let rows = vec![row(7, 100, 20), row(5, 900, 25), row(6, 100, -5)];
    let tids = |v: Vec<ThreadInfo>| v.iter().map(|t| t.tid).collect::<Vec<u32>>();
    assert_eq!(tids(sorted_threads(&rows, SortMode::Cpu)), vec![5, 6, 7]);
    assert_eq!(tids(sorted_threads(&rows, SortMode::Memory)), vec![6, 7, 5]);
    assert_eq!(tids(sorted_threads(&rows, SortMode::Pid)), vec![5, 6, 7]);
    let by_cpu = sorted_threads(&rows, SortMode::Cpu);
    assert_eq!(by_cpu[0].name, "t5");
    assert_eq!(by_cpu[0].cpu_centi, 900);
}

#[test]
fn thread_priority_extremes_sort_ascending() {
    let rows = vec![row(1, 0, i64::MAX), row(2, 0, i64::MIN), row(3, 0, 0), row(4, 0, -1)];
    let order: Vec<u32> = sorted_threads(&rows, SortMode::Memory).iter().map(|t| t.tid).collect();
    assert_eq!(order, vec![2, 4, 3, 1]);
}

#[test]
fn live_order_is_cached_and_followed() {
    let mut s = AppState::new(10, 10);
    let order = s.ordered_pids(&snapshot());
    assert_eq!(order, vec![10, 20, 30, 40]);
    assert_eq!(s.cached_pids, Some(vec![10, 20, 30, 40]));
    let changed = vec![rec(10, 0, 1), rec(50, 9000, 1)];
    assert_eq!(s.ordered_pids(&changed), vec![50, 10]);
}

#[test]
fn freeze_pins_order_and_unfreeze_restores_live_order() {
    let mut s = AppState::new(10, 10);
    let before = s.ordered_pids(&snapshot());
    s.toggle_freeze();
    let changed = vec![rec(10, 0, 1), rec(50, 9000, 1)];
    assert_eq!(s.ordered_pids(&changed), before);
    assert_eq!(s.ordered_pids(&Vec::new()), before);
    s.toggle_freeze();
    assert_eq!(s.ordered_pids(&snapshot()), before);
}

#[test]
fn sort_change_discards_pinned_order() {
    let mut s = AppState::new(10, 10);
    let before = s.ordered_pids(&snapshot());
    s.toggle_freeze();
    let changed = vec![rec(60, 1, 5), rec(10, 0, 7), rec(50, 9000, 1)];
    assert_eq!(s.ordered_pids(&changed), before);
    s.change_sort_mode(SortMode::Memory);
    assert!(s.cached_pids.is_none());
    let after = s.ordered_pids(&changed);
    assert_eq!(after, vec![10, 60, 50]);
    assert_ne!(after, before);
    assert!(s.frozen);
    assert_eq!(s.ordered_pids(&snapshot()), after);
}

#[test]
fn sort_change_keeps_offsets() {
    let mut s = AppState::new(2, 2);
    s.select_next(10);
    s.select_next(10);
    s.change_sort_mode(SortMode::Pid);
    assert_eq!(s.proc_sort_mode, SortMode::Pid);
    assert_eq!(s.proc_view.offset, 1);
    assert_eq!(s.proc_view.selected, 1);
}

#[test]
fn thread_sort_change_only_touches_thread_list() {
    let mut s = AppState::new(5, 5);
    s.ordered_pids(&snapshot());
    s.set_mode(Mode::Thread);
    let _ = s.thread_rows(&vec![task(3, 10, 0)], 0, 100);
    s.change_sort_mode(SortMode::Pid);
    assert_eq!(s.thread_sort_mode, SortMode::Pid);
    assert_eq!(s.proc_sort_mode, SortMode::Cpu);
    assert!(s.cached_threads.is_none());
    assert!(s.cached_pids.is_some());
}

#[test]
fn frozen_thread_rows_are_pinned_with_their_rates() {
    let mut s = AppState::new(5, 5);
    let first = s.thread_rows(&vec![task(3, 100, 0), task(4, 100, 0)], 0, 100);
    assert_eq!(first.len(), 2);
    let second = s.thread_rows(&vec![task(3, 150, 0), task(4, 110, 0)], 1_000_000, 100);
    assert_eq!(second.iter().map(|t| t.tid).collect::<Vec<u32>>(), vec![3, 4]);
    assert_eq!(second[0].cpu_centi, 5000);
    assert_eq!(second[1].cpu_centi, 1000);
    s.toggle_freeze();
    let pinned = s.thread_rows(&vec![task(4, 900, 0)], 2_000_000, 100);
    assert_eq!(pinned.len(), 2);
    assert_eq!(pinned[0].tid, 3);
    assert_eq!(pinned[0].cpu_centi, 5000);
    s.toggle_freeze();
    let live = s.thread_rows(&vec![task(4, 210, 0)], 2_000_000, 100);
    assert_eq!(live.len(), 1);
    assert_eq!(live[0].cpu_centi, 10000);
}

#[test]
fn selected_pid_resolves_or_falls_back() {
    let mut s = AppState::new(2, 2);
    assert_eq!(selected_pid(&s), 1);
    s.ordered_pids(&snapshot());
    s.select_next(4);
    s.select_next(4);
    assert_eq!(selected_pid(&s), 30);
    s.ordered_pids(&vec![rec(10, 0, 0)]);
    assert_eq!(selected_pid(&s), 1);
}

#[test]
fn visible_rows_follow_page_and_drop_exited() {
    let mut s = AppState::new(3, 3);
    let order = s.ordered_pids(&snapshot());
    s.select_next(4);
    s.select_next(4);
    s.select_next(4);
    assert_eq!(s.proc_view.offset, 1);
    s.killed_pids.push(30);
    let live = vec![rec(20, 500, 900), rec(30, 500, 100)];
    let rows = s.visible_process_rows(&order, &live);
    assert_eq!(rows.len(), 2);
    assert_eq!((rows[0].pid, rows[0].slot, rows[0].highlighted, rows[0].killed), (20, 0, false, false));
    assert_eq!((rows[1].pid, rows[1].slot, rows[1].highlighted, rows[1].killed), (30, 1, false, true));
    s.select_previous();
    s.select_previous();
    s.select_previous();
    let top = s.visible_process_rows(&order, &snapshot());
    assert_eq!(top.len(), 3);
    assert!(top[0].highlighted);
    s.set_mode(Mode::Thread);
    let unfocused = s.visible_process_rows(&order, &snapshot());
    assert!(!unfocused[0].highlighted);
}

#[test]
fn visible_thread_slots_cover_the_page() {
    let mut s = AppState::new(3, 2);
    s.set_mode(Mode::Thread);
    s.set_thread_total(5);
    s.select_next(0);
    s.select_next(0);
    let slots = s.visible_thread_slots(5);
    assert_eq!(slots.len(), 2);
    assert_eq!((slots[0].index, slots[0].highlighted), (1, false));
    assert_eq!((slots[1].index, slots[1].highlighted), (2, true));
    assert!(s.visible_thread_slots(0).is_empty());
}
