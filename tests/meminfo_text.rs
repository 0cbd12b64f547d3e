use procmon::meminfo::{parse_meminfo, MemInfo};

fn parse(text: &str) -> MemInfo {
    parse_meminfo(&text.as_bytes().to_vec())
}

#[test]
fn reads_the_gauge_counters() {
    let text = "MemTotal:       16318436 kB\n\
MemFree:         1204764 kB\n\
MemAvailable:    9231044 kB\n\
Buffers:          585204 kB\n\
Cached:          7468072 kB\n\
SwapCached:         1024 kB\n\
Active:          6960504 kB\n\
Shmem:            702772 kB\n\
SReclaimable:     620544 kB\n\
SUnreclaim:       160528 kB\n";
    let m = parse(text);
    assert_eq!(
        m,
        MemInfo {
            total_kb: 16318436,
            free_kb: 1204764,
            available_kb: 9231044,
            cached_kb: 7468072,
            sreclaimable_kb: 620544,
            shmem_kb: 702772,
        }
    );
}

#[test]
fn missing_counters_stay_zero() {
    let m = parse("MemTotal: 100 kB");
    assert_eq!(m.total_kb, 100);
    assert_eq!(m.free_kb, 0);
    assert_eq!(m.cached_kb, 0);
    assert_eq!(parse(""), parse("\n\n"));
}

#[test]
fn malformed_values_read_as_zero() {
    assert_eq!(parse("MemTotal: abc kB\n").total_kb, 0);
    assert_eq!(parse("MemTotal:\n").total_kb, 0);
    assert_eq!(parse("MemTotal: 99999999999999999999999 kB\n").total_kb, 0);
    assert_eq!(parse("MemTotal:123 kB\n").total_kb, 0);
    assert_eq!(parse("MemTotal: 18446744073709551615 kB\n").total_kb, u64::MAX);
}

#[test]
fn later_line_wins_and_swap_cache_is_ignored() {
    let m = parse("Cached: 5 kB\nCached: 7 kB SwapCached\nMemFree:\t3 kB\r\nMemFree: 4 kB");
    assert_eq!(m.cached_kb, 5);
    assert_eq!(m.free_kb, 4);
}
