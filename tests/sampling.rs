use procmon::sampler::{
    cpu_percent_centi, reset_samples, sample_threads, TaskStat, ThreadSample,
};
use procmon::units::{clock_parts, human_unit, uptime_parts};
use std::collections::HashMap;

fn task(tid: u32, cpu_ticks: u64) -> TaskStat {
    TaskStat { tid, name: format!("w{}", tid), state: 'R', priority: 20, cpu_ticks }
}

#[test]
fn half_a_core_over_one_second_is_fifty_percent() {
    let prev = ThreadSample { last_cpu_time: 1000, last_seen_us: 5_000_000 };
    let centi = cpu_percent_centi(prev, 1050, 6_000_000, 100);
    assert_eq!(centi, 5000);
    assert_eq!(centi as f64 / 100.0, 50.0);
}

#[test]
fn shrinking_counter_gives_zero_not_negative() {
    let prev = ThreadSample { last_cpu_time: 1000, last_seen_us: 0 };
    assert_eq!(cpu_percent_centi(prev, 400, 1_000_000, 100), 0);
    assert_eq!(cpu_percent_centi(prev, 1000, 1_000_000, 100), 0);
}

#[test]
fn no_elapsed_time_or_tick_rate_gives_zero() {
    let prev = ThreadSample { last_cpu_time: 0, last_seen_us: 1_000_000 };
    assert_eq!(cpu_percent_centi(prev, 50, 1_000_000, 100), 0);
    assert_eq!(cpu_percent_centi(prev, 50, 900_000, 100), 0);
    assert_eq!(cpu_percent_centi(prev, 50, 2_000_000, 0), 0);
}

#[test]
fn rate_is_rounded_down_and_capped() {
    let prev = ThreadSample { last_cpu_time: 0, last_seen_us: 0 };
    assert_eq!(cpu_percent_centi(prev, 1, 3_000_000, 100), 33);
    assert_eq!(cpu_percent_centi(prev, 250, 500_000, 100), 50000);
    assert_eq!(cpu_percent_centi(prev, u64::MAX, 1, 1), u64::MAX);
}

#[test]
fn consecutive_samples_of_one_thread() {
    let mut samples: HashMap<u32, ThreadSample> = HashMap::new();
    let first = sample_threads(&mut samples, &vec![task(9, 200)], 0, 100);
    assert_eq!(first.len(), 1);
    assert_eq!(first[0].cpu_centi, 0);
    assert_eq!(first[0].name, "w9");
    let second = sample_threads(&mut samples, &vec![task(9, 250)], 1_000_000, 100);
    assert_eq!(second[0].cpu_centi, 5000);
    let reused = sample_threads(&mut samples, &vec![task(9, 3)], 2_000_000, 100);
    assert_eq!(reused[0].cpu_centi, 0);
    assert_eq!(samples.get(&9), Some(&ThreadSample { last_cpu_time: 3, last_seen_us: 2_000_000 }));
}

#[test]
fn reset_forgets_every_sample() {
    let mut samples: HashMap<u32, ThreadSample> = HashMap::new();
    let _ = sample_threads(&mut samples, &vec![task(1, 10), task(2, 20)], 0, 100);
    assert_eq!(samples.len(), 2);
    reset_samples(&mut samples);
    assert!(samples.is_empty());
    let fresh = sample_threads(&mut samples, &vec![task(1, 60)], 1_000_000, 100);
    assert_eq!(fresh[0].cpu_centi, 0);
}

#[test]
fn byte_units() {
    assert_eq!(human_unit(0), 0);
    assert_eq!(human_unit(1023), 0);
    assert_eq!(human_unit(1024), 1);
    assert_eq!(human_unit(5 * 1024 * 1024), 2);
    assert_eq!(human_unit(1 << 40), 4);
    assert_eq!(human_unit((1 << 50) - 1), 4);
    assert_eq!(human_unit(1 << 50), 5);
    assert_eq!(human_unit(u64::MAX), 5);
}

#[test]
fn uptime_split() {
    let p = uptime_parts(2 * 86400 + 3 * 3600 + 4 * 60 + 5);
    assert_eq!((p.days, p.hours, p.minutes, p.seconds), (2, 3, 4, 5));
    let q = uptime_parts(59);
    assert_eq!((q.days, q.hours, q.minutes, q.seconds), (0, 0, 0, 59));
}

#[test]
fn clock_split_keeps_hours_unwrapped() {
    let p = clock_parts(((30 * 60 + 15) * 60 + 9) * 1000 + 999);
    assert_eq!((p.days, p.hours, p.minutes, p.seconds), (0, 30, 15, 9));
}
