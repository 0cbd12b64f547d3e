use procmon::state::{AppState, Mode, SortMode};
use procmon::viewport::{NavStep, Viewport};

fn vp(offset: usize, selected: usize, page_size: usize) -> Viewport {
    Viewport { offset, selected, page_size }
}

#[test]
fn select_next_moves_inside_page() {
    let mut v = vp(0, 0, 3);
    v.select_next(10);
    assert_eq!(v, vp(0, 1, 3));
    v.select_next(10);
    assert_eq!(v, vp(0, 2, 3));
}

#[test]
fn select_next_scrolls_at_page_bottom() {
    let mut v = vp(0, 2, 3);
    v.select_next(10);
    assert_eq!(v, vp(1, 2, 3));
}

#[test]
fn select_next_stops_at_last_entry() {
    let mut v = vp(7, 2, 3);
    v.select_next(10);
    assert_eq!(v, vp(7, 2, 3));
    let mut short = vp(0, 1, 5);
    short.select_next(2);
    assert_eq!(short, vp(0, 1, 5));
}

#[test]
fn select_previous_moves_then_scrolls_then_stops() {
    let mut v = vp(2, 1, 3);
    v.select_previous();
    assert_eq!(v, vp(2, 0, 3));
    v.select_previous();
    assert_eq!(v, vp(1, 0, 3));
    v.select_previous();
    v.select_previous();
    assert_eq!(v, vp(0, 0, 3));
}

#[test]
fn page_down_clamps_to_last_full_page() {
    let mut v = vp(0, 0, 4);
    v.page_down(10);
    assert_eq!(v.offset, 4);
    v.page_down(10);
    assert_eq!(v.offset, 6);
    v.page_down(10);
    assert_eq!(v.offset, 6);
}

#[test]
fn page_down_on_short_list_stays_at_top() {
    let mut v = vp(0, 1, 10);
    v.page_down(3);
    assert_eq!(v.offset, 0);
}

#[test]
fn page_up_clamps_to_zero() {
    let mut v = vp(6, 2, 4);
    v.page_up();
    assert_eq!(v.offset, 2);
    v.page_up();
    assert_eq!(v.offset, 0);
}

#[test]
fn scroll_down_and_up() {
    let mut v = vp(0, 0, 4);
    v.scroll_down(5);
    assert_eq!(v.offset, 1);
    v.scroll_down(5);
    assert_eq!(v.offset, 1);
    v.scroll_up();
    v.scroll_up();
    assert_eq!(v.offset, 0);
}

#[test]
fn zero_page_size_does_not_panic() {
    let mut v = vp(0, 0, 0);
    v.select_next(3);
    v.page_down(3);
    v.page_up();
    v.select_previous();
    assert!(v.offset <= 3);
}

#[test]
fn navigation_sequence_stays_in_bounds() {
    let total: usize = 17;
    let mut v = vp(0, 0, 5);
    let steps = [
        NavStep::Next,
        NavStep::PageDown,
        NavStep::PageDown,
        NavStep::Next,
        NavStep::Next,
        NavStep::Next,
        NavStep::Next,
        NavStep::Next,
        NavStep::Next,
        NavStep::Next,
        NavStep::PageDown,
        NavStep::PageUp,
        NavStep::Previous,
        NavStep::PageUp,
        NavStep::PageUp,
        NavStep::Previous,
        NavStep::Previous,
        NavStep::Previous,
        NavStep::Previous,
        NavStep::Previous,
    ];
    for s in steps.iter() {
        v.step(*s, total);
        assert!(v.offset + v.selected < total);
        assert!(v.offset <= total - v.page_size);
        assert!(v.selected < v.page_size);
    }
    assert_eq!(v, vp(0, 0, 5));
}

#[test]
fn app_state_routes_navigation_to_active_list() {
    let mut s = AppState::new(3, 2);
    s.select_next(10);
    assert_eq!(s.proc_view, vp(0, 1, 3));
    assert_eq!(s.thread_view, vp(0, 0, 2));
    s.set_mode(Mode::Thread);
    s.set_thread_total(5);
    s.select_next(10);
    s.select_next(10);
    assert_eq!(s.thread_view, vp(1, 1, 2));
    s.page_down(10);
    assert_eq!(s.thread_view.offset, 3);
    s.page_up();
    assert_eq!(s.thread_view.offset, 1);
    s.select_previous();
    assert_eq!(s.thread_view, vp(1, 0, 2));
    assert_eq!(s.proc_view, vp(0, 1, 3));
}

#[test]
fn app_state_new_defaults() {
    let s = AppState::new(15, 12);
    assert_eq!(s.mode, Mode::Proc);
    assert_eq!(s.proc_sort_mode, SortMode::Cpu);
    assert_eq!(s.thread_sort_mode, SortMode::Cpu);
    assert!(!s.frozen);
    assert!(s.cached_pids.is_none());
    assert!(s.cached_threads.is_none());
    assert!(s.killed_pids.is_empty());
    assert_eq!(s.thread_process_pid, 1);
    assert_eq!(s.latest_thread_count, 1);
    assert_eq!(s.proc_view.page_size, 15);
    assert_eq!(s.thread_view.page_size, 12);
}

#[test]
fn toggles_flip_flags() {
    let mut s = AppState::new(5, 5);
    s.toggle_freeze();
    assert!(s.frozen);
    s.toggle_freeze();
    assert!(!s.frozen);
    s.toggle_help();
    assert!(s.show_help);
}

#[test]
fn page_sizes_are_replaced() {
    let mut s = AppState::new(5, 5);
    s.select_next(10);
    s.set_page_sizes(20, 7, 10);
    assert_eq!(s.proc_view, vp(0, 1, 20));
    assert_eq!(s.thread_view, vp(0, 0, 7));
}

#[test]
fn shrinking_the_page_pulls_selection_back() {
    let mut s = AppState::new(15, 5);
    for _ in 0..10 {
        s.select_next(100);
    }
    assert_eq!(s.proc_view, vp(0, 10, 15));
    s.set_page_sizes(5, 5, 100);
    assert_eq!(s.proc_view, vp(0, 4, 5));
}

#[test]
fn resize_pulls_offset_back_to_last_full_page() {
    let mut v = vp(90, 3, 10);
    v.resize(20, 100);
    assert_eq!(v, vp(80, 3, 20));
    let mut short = vp(6, 2, 4);
    short.resize(4, 7);
    assert_eq!(short, vp(3, 2, 4));
    let mut tiny = vp(0, 4, 10);
    tiny.resize(10, 3);
    assert_eq!(tiny, vp(0, 2, 10));
}

#[test]
fn zero_rows_become_one() {
    let mut v = vp(2, 3, 8);
    v.resize(0, 20);
    assert_eq!(v, vp(2, 0, 1));
    let mut empty = vp(0, 0, 3);
    empty.resize(3, 0);
    assert_eq!(empty, vp(0, 0, 3));
}

#[test]
fn fewer_threads_pull_the_thread_selection_back() {
    let mut s = AppState::new(5, 4);
    s.set_mode(Mode::Thread);
    s.set_thread_total(10);
    s.page_down(0);
    s.select_next(0);
    s.select_next(0);
    assert_eq!(s.thread_view, vp(4, 2, 4));
    s.set_thread_total(5);
    assert_eq!(s.thread_view, vp(1, 2, 4));
    s.set_thread_total(2);
    assert_eq!(s.thread_view, vp(0, 1, 4));
}
