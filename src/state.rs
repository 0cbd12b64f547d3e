//! The navigation state machine shared by the process list and the thread list.

use crate::order::{SortKey, keys_sorted, sort_keys, sorted_keys, lemma_sorted_keys};
use crate::sampler::{
    ThreadInfo, ThreadSample, TaskStat, sample_threads, sampled_rows, samples_after, reset_samples,
};
use crate::viewport::Viewport;
use std::collections::HashMap;
use vstd::prelude::*;

verus! {

/// Which list receives navigation and commands.
#[derive(Clone, Copy, Debug, PartialEq, Eq, Structural)]
pub enum Mode {
    Proc,
    Thread,
}

/// Sort order of a list. For processes: CPU descending, memory descending,
/// pid ascending. For threads: CPU descending, scheduling priority
/// ascending (`Memory` stands for priority there), tid ascending. Equal
/// primary values are ordered by ascending id.
#[derive(Clone, Copy, Debug, PartialEq, Eq, Structural)]
pub enum SortMode {
    Cpu,
    Memory,
    Pid,
}

/// One process of a snapshot: its id, its parent's id, its CPU rate in
/// hundredths of a percent and its resident memory in bytes.
#[derive(Clone, Copy, Debug, PartialEq, Eq, Structural)]
pub struct ProcessRecord {
    pub pid: u32,
    pub ppid: u32,
    pub cpu_centi: u64,
    pub memory: u64,
}

/// One visible row of the process list: the process, its row within the
/// page, whether it is highlighted as the selection, and whether a
/// terminating signal was sent to it.
#[derive(Clone, Copy, Debug, PartialEq, Eq, Structural)]
pub struct ProcessRow {
    pub pid: u32,
    pub slot: usize,
    pub highlighted: bool,
    pub killed: bool,
}

/// One visible row of the thread list: its index in the ordered rows and
/// whether it is highlighted as the selection.
#[derive(Clone, Copy, Debug, PartialEq, Eq, Structural)]
pub struct PageSlot {
    pub index: usize,
    pub highlighted: bool,
}

/// `u64::MAX - v`: ranks larger values first.
pub open spec fn descending(v: u64) -> u64 {
    (u64::MAX - v) as u64
}

/// `v + 2^63`: ranks signed values in ascending order.
pub open spec fn ascending_signed(v: i64) -> u64 {
    (v + 0x8000_0000_0000_0000int) as u64
}

pub open spec fn process_key(r: ProcessRecord, mode: SortMode, slot: int) -> SortKey {
    SortKey {
        rank: match mode {
            SortMode::Cpu => descending(r.cpu_centi),
            SortMode::Memory => descending(r.memory),
            SortMode::Pid => 0,
        },
        id: r.pid,
        slot: slot as usize,
    }
}

pub open spec fn process_keys(recs: Seq<ProcessRecord>, mode: SortMode) -> Seq<SortKey> {
    Seq::new(recs.len(), |i: int| process_key(recs[i], mode, i))
}

/// The pids of a snapshot in the order of `mode`: the ids of the snapshot's
/// keys arranged in ascending key order (a sorted permutation of the keys).
pub open spec fn fresh_pid_order(recs: Seq<ProcessRecord>, mode: SortMode) -> Seq<u32> {
    sorted_keys(process_keys(recs, mode)).map_values(|k: SortKey| k.id)
}

pub open spec fn thread_key(t: ThreadInfo, mode: SortMode, slot: int) -> SortKey {
    SortKey {
        rank: match mode {
            SortMode::Cpu => descending(t.cpu_centi),
            SortMode::Memory => ascending_signed(t.priority),
            SortMode::Pid => 0,
        },
        id: t.tid,
        slot: slot as usize,
    }
}

pub open spec fn thread_keys(rows: Seq<ThreadInfo>, mode: SortMode) -> Seq<SortKey> {
    Seq::new(rows.len(), |i: int| thread_key(rows[i], mode, i))
}

/// Thread rows in the order of `mode`: the rows the keys point to, with the
/// keys arranged in ascending key order (a sorted permutation of the keys).
pub open spec fn fresh_thread_order(rows: Seq<ThreadInfo>, mode: SortMode) -> Seq<ThreadInfo> {
    sorted_keys(thread_keys(rows, mode)).map_values(|k: SortKey| rows[k.slot as int])
}

fn rank_descending(v: u64) -> (r: u64)
    ensures
        r == descending(v),
{
    u64::MAX - v
}

fn rank_ascending_signed(v: i64) -> (r: u64)
    ensures
        r == ascending_signed(v),
{
    if v < 0 {
        (v - i64::MIN) as u64
    } else {
        v as u64 + 0x8000_0000_0000_0000u64
    }
}

/// Every key of `sorted_keys(s)` is a key of `s`.
proof fn lemma_sorted_member(s: Seq<SortKey>, i: int)
    requires
        0 <= i < sorted_keys(s).len(),
    ensures
        s.contains(sorted_keys(s)[i]),
{
    broadcast use vstd::seq_lib::group_to_multiset_ensures;

    lemma_sorted_keys(s);
    let t = sorted_keys(s);
    assert(t.contains(t[i]));
    assert(t.to_multiset().count(t[i]) > 0);
}

/// The pids of `recs` in the order of `mode`.
pub fn sorted_pids(recs: &Vec<ProcessRecord>, mode: SortMode) -> (r: Vec<u32>)
    ensures
        r@ == fresh_pid_order(recs@, mode),
        keys_sorted(sorted_keys(process_keys(recs@, mode))),
        sorted_keys(process_keys(recs@, mode)).to_multiset() == process_keys(recs@, mode).to_multiset(),
{
    let mut keys: Vec<SortKey> = Vec::new();
    let n = recs.len();
    let mut i: usize = 0;
    while i < n
        invariant
            n == recs.len(),
            i <= n,
            keys@ == process_keys(recs@, mode).subrange(0, i as int),
        decreases n - i,
    {
        let rec = recs[i];
        let rank = match mode {
            SortMode::Cpu => rank_descending(rec.cpu_centi),
            SortMode::Memory => rank_descending(rec.memory),
            SortMode::Pid => 0,
        };
        keys.push(SortKey { rank, id: rec.pid, slot: i });
        proof {
            assert(keys@ =~= process_keys(recs@, mode).subrange(0, i as int + 1));
        }
        i = i + 1;
    }
    proof {
        assert(keys@ =~= process_keys(recs@, mode));
    }
    let sorted = sort_keys(&keys);
    proof {
        lemma_sorted_keys(keys@);
    }
    let mut out: Vec<u32> = Vec::new();
    let mut j: usize = 0;
    while j < sorted.len()
        invariant
            j <= sorted.len(),
            sorted@ == sorted_keys(process_keys(recs@, mode)),
            out@ == sorted@.map_values(|k: SortKey| k.id).subrange(0, j as int),
        decreases sorted.len() - j,
    {
        out.push(sorted[j].id);
        proof {
            assert(out@ =~= sorted@.map_values(|k: SortKey| k.id).subrange(0, j as int + 1));
        }
        j = j + 1;
    }
    proof {
        assert(out@ =~= sorted@.map_values(|k: SortKey| k.id));
    }
    out
}

/// `rows` in the order of `mode`.
pub fn sorted_threads(rows: &Vec<ThreadInfo>, mode: SortMode) -> (r: Vec<ThreadInfo>)
    ensures
        r@ == fresh_thread_order(rows@, mode),
        keys_sorted(sorted_keys(thread_keys(rows@, mode))),
        sorted_keys(thread_keys(rows@, mode)).to_multiset() == thread_keys(rows@, mode).to_multiset(),
{
    let mut keys: Vec<SortKey> = Vec::new();
    let n = rows.len();
    let mut i: usize = 0;
    while i < n
        invariant
            n == rows.len(),
            i <= n,
            keys@ == thread_keys(rows@, mode).subrange(0, i as int),
        decreases n - i,
    {
        let rank = match mode {
            SortMode::Cpu => rank_descending(rows[i].cpu_centi),
            SortMode::Memory => rank_ascending_signed(rows[i].priority),
            SortMode::Pid => 0,
        };
        keys.push(SortKey { rank, id: rows[i].tid, slot: i });
        proof {
            assert(keys@ =~= thread_keys(rows@, mode).subrange(0, i as int + 1));
        }
        i = i + 1;
    }
    proof {
        assert(keys@ =~= thread_keys(rows@, mode));
    }
    let sorted = sort_keys(&keys);
    proof {
        lemma_sorted_keys(keys@);
    }
    let mut out: Vec<ThreadInfo> = Vec::new();
    let mut j: usize = 0;
    while j < sorted.len()
        invariant
            j <= sorted.len(),
            n == rows.len(),
            keys@ == thread_keys(rows@, mode),
            sorted@ == sorted_keys(keys@),
            out@ == sorted@.map_values(|k: SortKey| rows@[k.slot as int]).subrange(0, j as int),
        decreases sorted.len() - j,
    {
        proof {
            lemma_sorted_member(keys@, j as int);
            let w = choose|w: int| 0 <= w < keys@.len() && keys@[w] == sorted@[j as int];
            assert(keys@[w] == thread_key(rows@[w], mode, w));
            assert(keys@[w].slot == w);
        }
        let slot = sorted[j].slot;
        out.push(rows[slot].duplicate());
        proof {
            assert(out@ =~= sorted@.map_values(|k: SortKey| rows@[k.slot as int]).subrange(
                0,
                j as int + 1,
            ));
        }
        j = j + 1;
    }
    proof {
        assert(out@ =~= sorted@.map_values(|k: SortKey| rows@[k.slot as int]));
    }
    out
}

/// The whole navigation state: which list is active, one viewport and sort
/// mode per list, the freeze flag with the pinned copies it keeps, the
/// pids that were sent a terminating signal, the process whose threads are
/// shown, the thread samples kept for it, and the latest thread count.
pub struct AppState {
    pub mode: Mode,
    pub proc_view: Viewport,
    pub thread_view: Viewport,
    pub proc_sort_mode: SortMode,
    pub thread_sort_mode: SortMode,
    pub frozen: bool,
    pub cached_pids: Option<Vec<u32>>,
    pub cached_threads: Option<Vec<ThreadInfo>>,
    pub show_help: bool,
    pub killed_pids: Vec<u32>,
    pub thread_process_pid: u32,
    pub thread_samples: HashMap<u32, ThreadSample>,
    pub latest_thread_count: usize,
}

/// The pid of init, present on every system: the process whose threads are
/// shown before another is chosen, and the fallback target of a selection
/// that does not resolve.
pub const INIT_PID: u32 = 1;

impl AppState {
    /// Process list active, both lists at the top and sorted by CPU, live
    /// (not frozen), nothing pinned, nothing killed, no samples.
    pub fn new(proc_show_count: usize, thread_show_count: usize) -> (r: AppState)
        ensures
            r.mode == Mode::Proc,
            r.proc_view == (Viewport { offset: 0, selected: 0, page_size: proc_show_count }),
            r.thread_view == (Viewport { offset: 0, selected: 0, page_size: thread_show_count }),
            r.proc_sort_mode == SortMode::Cpu,
            r.thread_sort_mode == SortMode::Cpu,
            !r.frozen,
            r.cached_pids is None,
            r.cached_threads is None,
            !r.show_help,
            r.killed_pids@ == Seq::<u32>::empty(),
            r.thread_process_pid == INIT_PID,
            r.thread_samples@ == Map::<u32, ThreadSample>::empty(),
            r.latest_thread_count == 1,
    {
        AppState {
            mode: Mode::Proc,
            proc_view: Viewport::new(proc_show_count),
            thread_view: Viewport::new(thread_show_count),
            proc_sort_mode: SortMode::Cpu,
            thread_sort_mode: SortMode::Cpu,
            frozen: false,
            cached_pids: None,
            cached_threads: None,
            show_help: false,
            killed_pids: Vec::new(),
            thread_process_pid: INIT_PID,
            thread_samples: HashMap::new(),
            latest_thread_count: 1,
        }
    }

    /// The number of entries of the active list, given that of the process list.
    pub open spec fn active_total(self, total_processes: usize) -> usize {
        match self.mode {
            Mode::Proc => total_processes,
            Mode::Thread => self.latest_thread_count,
        }
    }

    /// Scrolls the process list one entry down.
    pub fn scroll_down(&mut self, total_processes: usize)
        ensures
            *final(self) == (AppState {
                proc_view: old(self).proc_view.scroll_down_spec(total_processes as nat),
                ..*old(self)
            }),
    {
        self.proc_view.scroll_down(total_processes);
    }

    /// Scrolls the process list one entry up.
    pub fn scroll_up(&mut self)
        ensures
            *final(self) == (AppState { proc_view: old(self).proc_view.scroll_up_spec(), ..*old(self) }),
    {
        self.proc_view.scroll_up();
    }

    /// Pages the active list down.
    pub fn page_down(&mut self, total_processes: usize)
        ensures
            old(self).mode == Mode::Proc ==> *final(self) == (AppState {
                proc_view: old(self).proc_view.page_down_spec(total_processes as nat),
                ..*old(self)
            }),
            old(self).mode == Mode::Thread ==> *final(self) == (AppState {
                thread_view: old(self).thread_view.page_down_spec(old(self).latest_thread_count as nat),
                ..*old(self)
            }),
    {
        match self.mode {
            Mode::Proc => self.proc_view.page_down(total_processes),
            Mode::Thread => {
                let total = self.latest_thread_count;
                self.thread_view.page_down(total);
            },
        }
    }

    /// Pages the active list up.
    pub fn page_up(&mut self)
        ensures
            old(self).mode == Mode::Proc ==> *final(self) == (AppState {
                proc_view: old(self).proc_view.page_up_spec(),
                ..*old(self)
            }),
            old(self).mode == Mode::Thread ==> *final(self) == (AppState {
                thread_view: old(self).thread_view.page_up_spec(),
                ..*old(self)
            }),
    {
        match self.mode {
            Mode::Proc => self.proc_view.page_up(),
            Mode::Thread => self.thread_view.page_up(),
        }
    }

    /// Moves the selection of the active list one entry down.
    pub fn select_next(&mut self, total_processes: usize)
        ensures
            old(self).mode == Mode::Proc ==> *final(self) == (AppState {
                proc_view: old(self).proc_view.next_spec(total_processes as nat),
                ..*old(self)
            }),
            old(self).mode == Mode::Thread ==> *final(self) == (AppState {
                thread_view: old(self).thread_view.next_spec(old(self).latest_thread_count as nat),
                ..*old(self)
            }),
    {
        match self.mode {
            Mode::Proc => self.proc_view.select_next(total_processes),
            Mode::Thread => {
                let total = self.latest_thread_count;
                self.thread_view.select_next(total);
            },
        }
    }

    /// Moves the selection of the active list one entry up.
    pub fn select_previous(&mut self)
        ensures
            old(self).mode == Mode::Proc ==> *final(self) == (AppState {
                proc_view: old(self).proc_view.previous_spec(),
                ..*old(self)
            }),
            old(self).mode == Mode::Thread ==> *final(self) == (AppState {
                thread_view: old(self).thread_view.previous_spec(),
                ..*old(self)
            }),
    {
        match self.mode {
            Mode::Proc => self.proc_view.select_previous(),
            Mode::Thread => self.thread_view.select_previous(),
        }
    }

    pub open spec fn toggle_freeze_spec(self) -> AppState {
        AppState { frozen: !self.frozen, ..self }
    }

    /// Flips between a live and a frozen view; nothing else changes.
    pub fn toggle_freeze(&mut self)
        ensures
            *final(self) == old(self).toggle_freeze_spec(),
    {
        self.frozen = !self.frozen;
    }

    pub open spec fn change_sort_mode_spec(self, sortmode: SortMode) -> AppState {
        match self.mode {
            Mode::Proc => AppState { proc_sort_mode: sortmode, cached_pids: None, ..self },
            Mode::Thread => AppState { thread_sort_mode: sortmode, cached_threads: None, ..self },
        }
    }

    /// Sets the sort mode of the active list and discards its pinned copy;
    /// offsets and selection stay as they are.
    pub fn change_sort_mode(&mut self, sortmode: SortMode)
        ensures
            *final(self) == old(self).change_sort_mode_spec(sortmode),
    {
        match self.mode {
            Mode::Proc => {
                self.proc_sort_mode = sortmode;
                self.cached_pids = None;
            },
            Mode::Thread => {
                self.thread_sort_mode = sortmode;
                self.cached_threads = None;
            },
        }
    }

    /// Shows or hides the help panel.
    pub fn toggle_help(&mut self)
        ensures
            *final(self) == (AppState { show_help: !old(self).show_help, ..*old(self) }),
    {
        self.show_help = !self.show_help;
    }

    /// Makes `mode`'s list the one that receives navigation and commands.
    pub fn set_mode(&mut self, mode: Mode)
        ensures
            *final(self) == (AppState { mode, ..*old(self) }),
    {
        self.mode = mode;
    }

    /// Sets the number of visible rows of each list (at least one), given
    /// how many processes the process list holds; offsets and selections
    /// are pulled back within the bounds of their lists.
    pub fn set_page_sizes(&mut self, proc_rows: usize, thread_rows: usize, total_processes: usize)
        ensures
            *final(self) == (AppState {
                proc_view: old(self).proc_view.resize_spec(proc_rows, total_processes as nat),
                thread_view: old(self).thread_view.resize_spec(thread_rows, old(self).latest_thread_count as nat),
                ..*old(self)
            }),
            final(self).proc_view.within(total_processes as nat),
            final(self).thread_view.within(final(self).latest_thread_count as nat),
    {
        self.proc_view.resize(proc_rows, total_processes);
        let threads = self.latest_thread_count;
        self.thread_view.resize(thread_rows, threads);
    }

    /// Records how many threads the focused process has now; the thread
    /// list's offset and selection are pulled back within that count.
    pub fn set_thread_total(&mut self, count: usize)
        ensures
            *final(self) == (AppState {
                latest_thread_count: count,
                thread_view: old(self).thread_view.resize_spec(old(self).thread_view.page_size, count as nat),
                ..*old(self)
            }),
            final(self).thread_view.within(count as nat),
    {
        self.latest_thread_count = count;
        let page = self.thread_view.page_size;
        self.thread_view.resize(page, count);
    }

    /// Shows the threads of `pid` from now on: the thread list goes back to
    /// its top, its pinned rows are dropped, and every sample kept for the
    /// previous process is forgotten.
    pub fn focus_threads(&mut self, pid: u32)
        ensures
            final(self).thread_process_pid == pid,
            final(self).thread_view == (Viewport { offset: 0, selected: 0, ..old(self).thread_view }),
            final(self).cached_threads is None,
            final(self).thread_samples@ == Map::<u32, ThreadSample>::empty(),
            final(self).mode == old(self).mode,
            final(self).proc_view == old(self).proc_view,
            final(self).proc_sort_mode == old(self).proc_sort_mode,
            final(self).thread_sort_mode == old(self).thread_sort_mode,
            final(self).frozen == old(self).frozen,
            final(self).cached_pids == old(self).cached_pids,
            final(self).show_help == old(self).show_help,
            final(self).killed_pids == old(self).killed_pids,
            final(self).latest_thread_count == old(self).latest_thread_count,
    {
        self.thread_process_pid = pid;
        self.thread_view.offset = 0;
        self.thread_view.selected = 0;
        self.cached_threads = None;
        reset_samples(&mut self.thread_samples);
    }

    /// The process order is pinned: frozen, with an order kept.
    pub open spec fn pids_pinned(self) -> bool {
        self.frozen && self.cached_pids is Some
    }

    /// The process order shown for snapshot `snap`.
    pub open spec fn shown_pids(self, snap: Seq<ProcessRecord>) -> Seq<u32> {
        if self.pids_pinned() {
            self.cached_pids->Some_0@
        } else {
            fresh_pid_order(snap, self.proc_sort_mode)
        }
    }

    /// `next` is `self` after showing `order` for `snap`: a pinned state is
    /// left as it is; otherwise the order shown becomes the kept one.
    pub open spec fn pid_order_step(self, snap: Seq<ProcessRecord>, next: AppState, order: Seq<u32>) -> bool {
        &&& order == self.shown_pids(snap)
        &&& self.pids_pinned() ==> next == self
        &&& !self.pids_pinned() ==> {
            &&& next == (AppState { cached_pids: next.cached_pids, ..self })
            &&& next.cached_pids is Some
            &&& next.cached_pids->Some_0@ == order
        }
    }

    /// The pids of the process list in display order: the pinned order
    /// while frozen, else `snapshot` sorted by the process sort mode, which
    /// is then kept as the order to pin.
    pub fn ordered_pids(&mut self, snapshot: &Vec<ProcessRecord>) -> (r: Vec<u32>)
        ensures
            old(self).pid_order_step(snapshot@, *final(self), r@),
    {
        if self.frozen {
            if let Some(pids) = &self.cached_pids {
                return pids.clone();
            }
        }
        let pids = sorted_pids(snapshot, self.proc_sort_mode);
        self.cached_pids = Some(pids.clone());
        pids
    }

    /// The thread rows are pinned: frozen, with rows kept.
    pub open spec fn threads_pinned(self) -> bool {
        self.frozen && self.cached_threads is Some
    }

    /// `next` is `self` after showing thread `rows` for `tasks` read at
    /// `now_us`: a pinned state is left as it is and shows its kept rows;
    /// otherwise the tasks are sampled, sorted by the thread sort mode, and
    /// the rows shown become the kept ones.
    pub open spec fn thread_rows_step(
        self,
        tasks: Seq<TaskStat>,
        now_us: u64,
        ticks_per_second: u64,
        next: AppState,
        rows: Seq<ThreadInfo>,
    ) -> bool {
        &&& self.threads_pinned() ==> next == self && rows == self.cached_threads->Some_0@
        &&& !self.threads_pinned() ==> {
            &&& rows == fresh_thread_order(
                sampled_rows(self.thread_samples@, tasks, now_us, ticks_per_second),
                self.thread_sort_mode,
            )
            &&& next == (AppState {
                cached_threads: next.cached_threads,
                thread_samples: next.thread_samples,
                ..self
            })
            &&& next.thread_samples@ == samples_after(self.thread_samples@, tasks, now_us)
            &&& next.cached_threads is Some
            &&& next.cached_threads->Some_0@ == rows
        }
    }

    /// The rows of the thread list in display order.
    pub fn thread_rows(&mut self, tasks: &Vec<TaskStat>, now_us: u64, ticks_per_second: u64) -> (r: Vec<ThreadInfo>)
        ensures
            old(self).thread_rows_step(tasks@, now_us, ticks_per_second, *final(self), r@),
    {
        if self.frozen {
            if let Some(rows) = &self.cached_threads {
                return copy_rows(rows);
            }
        }
        let sampled = sample_threads(&mut self.thread_samples, tasks, now_us, ticks_per_second);
        let rows = sorted_threads(&sampled, self.thread_sort_mode);
        self.cached_threads = Some(copy_rows(&rows));
        rows
    }
}

/// An equal copy of `rows`.
pub fn copy_rows(rows: &Vec<ThreadInfo>) -> (r: Vec<ThreadInfo>)
    ensures
        r@ == rows@,
{
    let mut out: Vec<ThreadInfo> = Vec::new();
    let mut i: usize = 0;
    while i < rows.len()
        invariant
            i <= rows.len(),
            out@ == rows@.subrange(0, i as int),
        decreases rows.len() - i,
    {
        out.push(rows[i].duplicate());
        proof {
            assert(out@ =~= rows@.subrange(0, i as int + 1));
        }
        i = i + 1;
    }
    proof {
        assert(out@ =~= rows@);
    }
    out
}

/// The number of rows a page shows of a list of `len` entries.
pub open spec fn page_len(v: Viewport, len: nat) -> nat {
    if v.offset >= len {
        0
    } else if len - v.offset < v.page_size {
        (len - v.offset) as nat
    } else {
        v.page_size as nat
    }
}

/// Some record of `live` has pid `pid`.
pub open spec fn is_live(live: Seq<ProcessRecord>, pid: u32) -> bool {
    exists|j: int| 0 <= j < live.len() && (#[trigger] live[j]).pid == pid
}

/// The rows shown for the first `k` entries of the page of `order`: an
/// entry whose process is not in `live` is left out.
pub open spec fn process_rows_upto(s: AppState, order: Seq<u32>, live: Seq<ProcessRecord>, k: nat) -> Seq<
    ProcessRow,
>
    decreases k,
{
    if k == 0 {
        Seq::empty()
    } else {
        let prev = process_rows_upto(s, order, live, (k - 1) as nat);
        let pid = order[s.proc_view.offset + k - 1];
        if is_live(live, pid) {
            prev.push(
                ProcessRow {
                    pid,
                    slot: (k - 1) as usize,
                    highlighted: k - 1 == s.proc_view.selected && s.mode == Mode::Proc,
                    killed: s.killed_pids@.contains(pid),
                },
            )
        } else {
            prev
        }
    }
}

/// The pid at the selection of the process order kept, or `1` when there
/// is none.
pub open spec fn selected_pid_spec(state: AppState) -> u32 {
    match state.cached_pids {
        Some(pids) => if state.proc_view.offset + state.proc_view.selected < pids@.len() {
            pids@[state.proc_view.offset + state.proc_view.selected]
        } else {
            INIT_PID
        },
        None => INIT_PID,
    }
}

/// The pid at the selection of the process order kept; when the selection
/// does not resolve, pid `1` as a safe fallback.
pub fn selected_pid(state: &AppState) -> (r: u32)
    ensures
        r == selected_pid_spec(*state),
{
    if let Some(pids) = &state.cached_pids {
        let offset = state.proc_view.offset;
        let selected = state.proc_view.selected;
        if offset < pids.len() && selected < pids.len() - offset {
            return pids[offset + selected];
        }
    }
    INIT_PID
}

/// Whether `v` holds `x`.
pub fn holds_pid(v: &Vec<u32>, x: u32) -> (r: bool)
    ensures
        r == v@.contains(x),
{
    let mut i: usize = 0;
    while i < v.len()
        invariant
            i <= v.len(),
            forall|j: int| 0 <= j < i ==> v@[j] != x,
        decreases v.len() - i,
    {
        if v[i] == x {
            return true;
        }
        i = i + 1;
    }
    false
}

/// Whether some record of `live` has pid `pid`.
pub fn live_has(live: &Vec<ProcessRecord>, pid: u32) -> (r: bool)
    ensures
        r == is_live(live@, pid),
{
    let mut i: usize = 0;
    while i < live.len()
        invariant
            i <= live.len(),
            forall|j: int| 0 <= j < i ==> (#[trigger] live@[j]).pid != pid,
        decreases live.len() - i,
    {
        if live[i].pid == pid {
            return true;
        }
        i = i + 1;
    }
    false
}

impl AppState {
    /// The rows of the visible page of the process list for `order`: one per
    /// entry of the page whose process is still in `live`, the selected row
    /// highlighted when the process list is active, and killed processes
    /// marked.
    pub fn visible_process_rows(&self, order: &Vec<u32>, live: &Vec<ProcessRecord>) -> (r: Vec<ProcessRow>)
        ensures
            r@ == process_rows_upto(*self, order@, live@, page_len(self.proc_view, order@.len())),
    {
        let offset = self.proc_view.offset;
        let count: usize = if offset >= order.len() {
            0
        } else if order.len() - offset < self.proc_view.page_size {
            order.len() - offset
        } else {
            self.proc_view.page_size
        };
        let n = order.len();
        let mut out: Vec<ProcessRow> = Vec::new();
        let mut k: usize = 0;
        while k < count
            invariant
                n == order.len(),
                k <= count,
                count == page_len(self.proc_view, order@.len()),
                offset == self.proc_view.offset,
                count > 0 ==> offset + count <= order@.len(),
                out@ == process_rows_upto(*self, order@, live@, k as nat),
            decreases count - k,
        {
            let pid = order[offset + k];
            if live_has(live, pid) {
                let killed = holds_pid(&self.killed_pids, pid);
                let highlighted = k == self.proc_view.selected && self.mode == Mode::Proc;
                out.push(ProcessRow { pid, slot: k, highlighted, killed });
            }
            k = k + 1;
        }
        out
    }

    /// The visible page of a thread list of `count` rows: the index of each
    /// visible row, the selected one highlighted when the thread list is
    /// active.
    pub fn visible_thread_slots(&self, count: usize) -> (r: Vec<PageSlot>)
        ensures
            r@.len() == page_len(self.thread_view, count as nat),
            forall|k: int|
                0 <= k < r@.len() ==> #[trigger] r@[k] == (PageSlot {
                    index: (self.thread_view.offset + k) as usize,
                    highlighted: k == self.thread_view.selected && self.mode == Mode::Thread,
                }),
    {
        let offset = self.thread_view.offset;
        let shown: usize = if offset >= count {
            0
        } else if count - offset < self.thread_view.page_size {
            count - offset
        } else {
            self.thread_view.page_size
        };
        let mut out: Vec<PageSlot> = Vec::new();
        let mut k: usize = 0;
        while k < shown
            invariant
                k <= shown,
                shown == page_len(self.thread_view, count as nat),
                offset == self.thread_view.offset,
                shown > 0 ==> offset + shown <= count,
                out@.len() == k,
                forall|i: int|
                    0 <= i < k ==> #[trigger] out@[i] == (PageSlot {
                        index: (offset + i) as usize,
                        highlighted: i == self.thread_view.selected && self.mode == Mode::Thread,
                    }),
            decreases shown - k,
        {
            let highlighted = k == self.thread_view.selected && self.mode == Mode::Thread;
            out.push(PageSlot { index: offset + k, highlighted });
            k = k + 1;
        }
        out
    }
}

/// Freeze round trip for the process list: after a live tick, freezing
/// pins the order just shown whatever the live snapshot becomes, and
/// unfreezing (with no sort-mode change in between) shows the same order
/// for the same snapshot again, from the very state the live tick left.
pub proof fn lemma_freeze_round_trip(
    s0: AppState,
    snap: Seq<ProcessRecord>,
    s1: AppState,
    o1: Seq<u32>,
    snap_frozen: Seq<ProcessRecord>,
    s3: AppState,
    o2: Seq<u32>,
    s5: AppState,
    o3: Seq<u32>,
)
    requires
        !s0.frozen,
        s0.pid_order_step(snap, s1, o1),
        s1.toggle_freeze_spec().pid_order_step(snap_frozen, s3, o2),
        s3.toggle_freeze_spec().pid_order_step(snap, s5, o3),
    ensures
        o2 == o1,
        s3.toggle_freeze_spec() == s1,
        o3 == o1,
{
}

/// Freeze round trip for the thread list: while frozen the rows shown are
/// exactly those of the last live tick, whatever the tasks read, and
/// unfreezing gives back the very state that tick left.
pub proof fn lemma_thread_freeze_round_trip(
    s0: AppState,
    tasks: Seq<TaskStat>,
    now_us: u64,
    ticks_per_second: u64,
    s1: AppState,
    rows1: Seq<ThreadInfo>,
    tasks_frozen: Seq<TaskStat>,
    now_frozen: u64,
    s3: AppState,
    rows2: Seq<ThreadInfo>,
)
    requires
        !s0.frozen,
        s0.thread_rows_step(tasks, now_us, ticks_per_second, s1, rows1),
        s1.toggle_freeze_spec().thread_rows_step(tasks_frozen, now_frozen, ticks_per_second, s3, rows2),
    ensures
        rows2 == rows1,
        s3.toggle_freeze_spec() == s1,
{
}

/// Changing the sort mode of the process list discards its pinned order:
/// the next order shown is the live snapshot sorted by the new mode, even
/// while frozen.
pub proof fn lemma_sort_change_unpins(
    s: AppState,
    sortmode: SortMode,
    snap: Seq<ProcessRecord>,
    s2: AppState,
    order: Seq<u32>,
)
    requires
        s.mode == Mode::Proc,
        s.change_sort_mode_spec(sortmode).pid_order_step(snap, s2, order),
    ensures
        order == fresh_pid_order(snap, sortmode),
        s2.cached_pids is Some && s2.cached_pids->Some_0@ == order,
{
}

/// Changing the sort mode of the thread list discards its pinned rows: the
/// next rows shown are sampled from the tasks read and sorted by the new
/// mode, even while frozen.
pub proof fn lemma_thread_sort_change_unpins(
    s: AppState,
    sortmode: SortMode,
    tasks: Seq<TaskStat>,
    now_us: u64,
    ticks_per_second: u64,
    s2: AppState,
    rows: Seq<ThreadInfo>,
)
    requires
        s.mode == Mode::Thread,
        s.change_sort_mode_spec(sortmode).thread_rows_step(tasks, now_us, ticks_per_second, s2, rows),
    ensures
        rows == fresh_thread_order(sampled_rows(s.thread_samples@, tasks, now_us, ticks_per_second), sortmode),
{
}

} // verus!
