//! Per-thread CPU rate estimation from cumulative tick counters.

use std::collections::HashMap;
use vstd::prelude::*;

verus! {

broadcast use vstd::std_specs::hash::group_hash_axioms;

/// Microseconds in one second.
pub const MICROS_PER_SEC: u64 = 1_000_000;

/// Hundredths of a percent in a whole: CPU rates are kept in hundredths of
/// a percent, so one fully busy core is `10_000`.
pub const CENTI_PERCENT: u64 = 10_000;

/// What was last observed of one thread: its cumulative CPU ticks (user and
/// system) and when, in microseconds of a monotonic clock.
#[derive(Clone, Copy, Debug, PartialEq, Eq, Structural)]
pub struct ThreadSample {
    pub last_cpu_time: u64,
    pub last_seen_us: u64,
}

/// One thread as read from the operating system in the current tick.
#[derive(Debug)]
pub struct TaskStat {
    pub tid: u32,
    pub name: String,
    pub state: char,
    pub priority: i64,
    pub cpu_ticks: u64,
}

/// One row of the thread list, with its CPU rate in hundredths of a percent.
#[derive(Debug)]
pub struct ThreadInfo {
    pub tid: u32,
    pub name: String,
    pub state: char,
    pub cpu_centi: u64,
    pub priority: i64,
}

impl ThreadInfo {
    /// An equal copy of this row.
    pub fn duplicate(&self) -> (r: ThreadInfo)
        ensures
            r == *self,
    {
        ThreadInfo {
            tid: self.tid,
            name: self.name.clone(),
            state: self.state,
            cpu_centi: self.cpu_centi,
            priority: self.priority,
        }
    }
}

/// CPU rate in hundredths of a percent between a sample and a new reading:
/// `100 * ((ticks - prev_ticks) / ticks_per_second) / elapsed_seconds`,
/// rounded down and capped at `u64::MAX`. It is zero when the counter did
/// not grow (a reused thread id may show a smaller counter), when no time
/// passed, or when the tick rate is unknown.
pub open spec fn cpu_centi_spec(prev: ThreadSample, ticks: u64, now_us: u64, ticks_per_second: u64) -> nat {
    if ticks <= prev.last_cpu_time || now_us <= prev.last_seen_us || ticks_per_second == 0 {
        0
    } else {
        let q = ((ticks - prev.last_cpu_time) * CENTI_PERCENT * MICROS_PER_SEC) / (ticks_per_second * (
        now_us - prev.last_seen_us)) as int;
        if q > u64::MAX { u64::MAX as nat } else { q as nat }
    }
}

/// The CPU rate of a thread in hundredths of a percent, from its previous
/// sample and its counter now.
pub fn cpu_percent_centi(prev: ThreadSample, ticks: u64, now_us: u64, ticks_per_second: u64) -> (r: u64)
    ensures
        r == cpu_centi_spec(prev, ticks, now_us, ticks_per_second),
        ticks <= prev.last_cpu_time ==> r == 0,
{
    if ticks <= prev.last_cpu_time || now_us <= prev.last_seen_us || ticks_per_second == 0 {
        return 0;
    }
    let delta = (ticks - prev.last_cpu_time) as u128;
    let elapsed = (now_us - prev.last_seen_us) as u128;
    let tps = ticks_per_second as u128;
    let scale = (CENTI_PERCENT as u128) * (MICROS_PER_SEC as u128);
    assert(delta * scale <= u64::MAX * 10_000_000_000) by (nonlinear_arith)
        requires
            delta <= u64::MAX,
            scale == 10_000_000_000,
    ;
    assert(tps * elapsed <= u64::MAX * u64::MAX) by (nonlinear_arith)
        requires
            tps <= u64::MAX,
            elapsed <= u64::MAX,
    ;
    assert(tps * elapsed > 0) by (nonlinear_arith)
        requires
            tps > 0,
            elapsed > 0,
    ;
    let num = delta * scale;
    let den = tps * elapsed;
    let q = num / den;
    if q > u64::MAX as u128 {
        u64::MAX
    } else {
        q as u64
    }
}

/// The row of task `t` given the samples `m` kept so far.
pub open spec fn row_of(m: Map<u32, ThreadSample>, t: TaskStat, now_us: u64, ticks_per_second: u64) -> ThreadInfo {
    ThreadInfo {
        tid: t.tid,
        name: t.name,
        state: t.state,
        cpu_centi: if m.contains_key(t.tid) {
            cpu_centi_spec(m[t.tid], t.cpu_ticks, now_us, ticks_per_second) as u64
        } else {
            0
        },
        priority: t.priority,
    }
}

/// The samples kept after observing `ts` in order at time `now_us`.
pub open spec fn samples_after(m: Map<u32, ThreadSample>, ts: Seq<TaskStat>, now_us: u64) -> Map<
    u32,
    ThreadSample,
>
    decreases ts.len(),
{
    if ts.len() == 0 {
        m
    } else {
        samples_after(m, ts.drop_last(), now_us).insert(
            ts.last().tid,
            ThreadSample { last_cpu_time: ts.last().cpu_ticks, last_seen_us: now_us },
        )
    }
}

/// The rows computed for `ts` in order, each against the samples as they
/// stand when its task is reached.
pub open spec fn sampled_rows(m: Map<u32, ThreadSample>, ts: Seq<TaskStat>, now_us: u64, ticks_per_second: u64) -> Seq<
    ThreadInfo,
>
    decreases ts.len(),
{
    if ts.len() == 0 {
        Seq::empty()
    } else {
        sampled_rows(m, ts.drop_last(), now_us, ticks_per_second).push(
            row_of(samples_after(m, ts.drop_last(), now_us), ts.last(), now_us, ticks_per_second),
        )
    }
}

/// Computes the CPU rate of each task against its previous sample, then
/// records the task's counter and `now_us` as its new sample. A task with no
/// previous sample gets a rate of zero.
pub fn sample_threads(
    samples: &mut HashMap<u32, ThreadSample>,
    tasks: &Vec<TaskStat>,
    now_us: u64,
    ticks_per_second: u64,
) -> (r: Vec<ThreadInfo>)
    ensures
        r@ == sampled_rows(old(samples)@, tasks@, now_us, ticks_per_second),
        final(samples)@ == samples_after(old(samples)@, tasks@, now_us),
{
    let ghost m0 = samples@;
    let mut out: Vec<ThreadInfo> = Vec::new();
    let n = tasks.len();
    let mut i: usize = 0;
    while i < n
        invariant
            n == tasks.len(),
            i <= n,
            out@ == sampled_rows(m0, tasks@.subrange(0, i as int), now_us, ticks_per_second),
            samples@ == samples_after(m0, tasks@.subrange(0, i as int), now_us),
        decreases n - i,
    {
        let t = &tasks[i];
        let cpu = match samples.get(&t.tid) {
            Some(prev) => cpu_percent_centi(*prev, t.cpu_ticks, now_us, ticks_per_second),
            None => 0,
        };
        out.push(
            ThreadInfo {
                tid: t.tid,
                name: t.name.clone(),
                state: t.state,
                cpu_centi: cpu,
                priority: t.priority,
            },
        );
        samples.insert(t.tid, ThreadSample { last_cpu_time: t.cpu_ticks, last_seen_us: now_us });
        proof {
            let pre = tasks@.subrange(0, i as int + 1);
            assert(pre.drop_last() =~= tasks@.subrange(0, i as int));
            assert(pre.last() == tasks@[i as int]);
        }
        i = i + 1;
    }
    proof {
        assert(tasks@.subrange(0, n as int) =~= tasks@);
    }
    out
}

/// Forgets every sample, as is due when the focused process changes.
pub fn reset_samples(samples: &mut HashMap<u32, ThreadSample>)
    ensures
        final(samples)@ == Map::<u32, ThreadSample>::empty(),
{
    samples.clear();
}

} // verus!
