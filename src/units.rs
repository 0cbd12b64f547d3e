//! Splitting byte counts and durations into display units.

use vstd::prelude::*;

verus! {

/// `1024^k`.
pub open spec fn kib_pow(k: nat) -> nat
    decreases k,
{
    if k == 0 {
        1
    } else {
        1024 * kib_pow((k - 1) as nat)
    }
}

/// The largest unit index among B, KB, MB, GB, TB and PB.
pub const LARGEST_UNIT: usize = 5;

/// The index of the unit a byte count is shown in (0 for B up to 5 for
/// PB): the largest unit that the count reaches, at most PB.
pub fn human_unit(bytes: u64) -> (r: usize)
    ensures
        r <= LARGEST_UNIT,
        r == 0 || kib_pow(r as nat) <= bytes,
        r == LARGEST_UNIT || bytes < kib_pow(r as nat + 1),
{
    proof {
        reveal_with_fuel(kib_pow, 7);
    }
    if bytes < 1024 {
        0
    } else if bytes < 1_048_576 {
        1
    } else if bytes < 1_073_741_824 {
        2
    } else if bytes < 1_099_511_627_776 {
        3
    } else if bytes < 1_125_899_906_842_624 {
        4
    } else {
        5
    }
}

/// A duration split into whole days, hours, minutes and seconds.
#[derive(Clone, Copy, Debug, PartialEq, Eq, Structural)]
pub struct DurationParts {
    pub days: u64,
    pub hours: u64,
    pub minutes: u64,
    pub seconds: u64,
}

/// Splits `seconds` into days, hours within the day, minutes within the
/// hour and seconds within the minute.
pub fn uptime_parts(seconds: u64) -> (r: DurationParts)
    ensures
        r.days == seconds / 86400,
        r.hours == (seconds % 86400) / 3600,
        r.minutes == (seconds % 3600) / 60,
        r.seconds == seconds % 60,
        r.hours < 24 && r.minutes < 60 && r.seconds < 60,
        r.days * 86400 + r.hours * 3600 + r.minutes * 60 + r.seconds == seconds,
{
    let r = DurationParts {
        days: seconds / 86400,
        hours: (seconds % 86400) / 3600,
        minutes: (seconds % 3600) / 60,
        seconds: seconds % 60,
    };
    assert(r.days * 86400 + r.hours * 3600 + r.minutes * 60 + r.seconds == seconds) by (nonlinear_arith)
        requires
            r.days == seconds / 86400,
            r.hours == (seconds % 86400) / 3600,
            r.minutes == (seconds % 3600) / 60,
            r.seconds == seconds % 60,
    ;
    r
}

/// Splits a CPU time in milliseconds into hours (not wrapped into days),
/// minutes within the hour and seconds within the minute.
pub fn clock_parts(ms: u64) -> (r: DurationParts)
    ensures
        r.days == 0,
        r.hours == ms / 1000 / 60 / 60,
        r.minutes == (ms / 1000 / 60) % 60,
        r.seconds == (ms / 1000) % 60,
{
    let secs = ms / 1000;
    let mins = secs / 60;
    DurationParts { days: 0, hours: mins / 60, minutes: mins % 60, seconds: secs % 60 }
}

} // verus!
