use procmon::tree::{clamp_tree_offset, wrap_next, wrap_previous, ProcessTree, TreeEntry};

fn entry(pid: u32, ppid: u32, name: &str) -> TreeEntry {
    TreeEntry::new(String::from(name), pid, ppid)
}

// 1 init ─┬─ 10 shell ── 12 editor
//         └─ 11 daemon
// 50 orphan (parent 49 absent) ── 51 child
fn sample() -> ProcessTree {
    ProcessTree::build(vec![
        entry(10, 1, "shell"),
        entry(1, 0, "init"),
        entry(50, 49, "orphan"),
        entry(12, 10, "editor"),
        entry(11, 1, "daemon"),
        entry(51, 50, "child"),
    ])
}

#[test]
fn children_mirror_parent_pids() {
    let t = sample();
    assert_eq!(t.len(), 6);
    assert_eq!(t.get_children(1), &vec![0, 4]);
    assert_eq!(t.get_children(0), &vec![3]);
    assert_eq!(t.get_children(2), &vec![5]);
    assert_eq!(t.get_numchildren(3), 0);
    assert_eq!(t.get_numchildren(1), 2);
    for p in 0..t.len() {
        for c in t.get_children(p) {
            assert_eq!(t.get_ppid(*c), t.get_pid(p));
        }
    }
    assert_eq!(t.get_name(3), "editor");
}

#[test]
fn roots_form_a_forest() {
    let t = sample();
    assert_eq!(t.roots(), vec![1, 2]);
    assert_eq!(t.find_root(), Some(1));
}

#[test]
fn empty_snapshot_has_no_root() {
    let t = ProcessTree::build(Vec::new());
    assert_eq!(t.find_root(), None);
    assert!(t.roots().is_empty());
    assert!(t.forest_order().is_empty());
}

#[test]
fn self_parented_entry_is_its_own_child_and_no_root() {
    let t = ProcessTree::build(vec![entry(0, 0, "idle"), entry(1, 0, "init")]);
    assert_eq!(t.get_children(0), &vec![0, 1]);
    assert!(t.roots().is_empty());
    assert!(t.forest_order().is_empty());
    assert_eq!(t.flatten(0), vec![(0, 0), (0, 1), (1, 1)]);
    let alone = ProcessTree::build(vec![entry(5, 5, "self")]);
    assert_eq!(alone.get_children(0), &vec![0]);
    assert!(alone.roots().is_empty());
}

#[test]
fn flatten_is_preorder_with_depths() {
    let t = sample();
    assert_eq!(t.flatten(1), vec![(1, 0), (0, 1), (3, 2), (4, 1)]);
    assert_eq!(t.flatten(0), vec![(0, 0), (3, 1)]);
}

#[test]
fn forest_order_covers_every_tree() {
    let t = sample();
    assert_eq!(t.forest_order(), vec![(1, 0), (0, 1), (3, 2), (4, 1), (2, 0), (5, 1)]);
}

#[test]
fn cyclic_parents_stay_out_of_the_forest() {
    let t = ProcessTree::build(vec![entry(5, 6, "a"), entry(6, 5, "b"), entry(1, 0, "init")]);
    assert_eq!(t.roots(), vec![2]);
    assert_eq!(t.forest_order(), vec![(2, 0)]);
}

#[test]
fn marking_and_lines() {
    let mut t = sample();
    assert!(!t.get_selected(4));
    t.set_selected(4, true);
    t.set_selected(3, true);
    t.set_selected(3, false);
    assert!(t.get_selected(4));
    assert_eq!(t.marked_pids(), vec![11]);
    let order = t.flatten(1);
    let lines = t.tree_lines(&order, 10);
    let summary: Vec<(u32, usize, bool)> = lines.iter().map(|l| (l.pid, l.depth, l.highlighted)).collect();
    assert_eq!(summary, vec![(1, 0, false), (10, 1, true), (12, 2, false), (11, 1, true)]);
}

#[test]
fn cursor_wraps_both_ways() {
    assert_eq!(wrap_next(0, 3), 1);
    assert_eq!(wrap_next(2, 3), 0);
    assert_eq!(wrap_previous(0, 3), 2);
    assert_eq!(wrap_previous(2, 3), 1);
    assert_eq!(wrap_next(0, 0), 0);
    assert_eq!(wrap_previous(0, 0), 0);
}

#[test]
fn tree_offset_is_clamped() {
    assert_eq!(clamp_tree_offset(10, 30, 25), 5);
    assert_eq!(clamp_tree_offset(3, 30, 25), 3);
    assert_eq!(clamp_tree_offset(7, 4, 25), 0);
}
