//! Reading the memory counters out of the text of `/proc/meminfo`.

use vstd::prelude::*;

verus! {

/// The counters used for the memory gauges, in kB as the file gives them.
#[derive(Clone, Copy, Debug, PartialEq, Eq, Structural)]
pub struct MemInfo {
    pub total_kb: u64,
    pub free_kb: u64,
    pub available_kb: u64,
    pub cached_kb: u64,
    pub sreclaimable_kb: u64,
    pub shmem_kb: u64,
}

/// The line prefixes that name each counter, in the order they are tried.
#[derive(Clone, Copy, Debug, PartialEq, Eq, Structural)]
pub enum MemKey {
    Total,
    Free,
    Available,
    Cached,
    SReclaimable,
    Shmem,
}

/// The ASCII bytes of `MemTotal:`, `MemFree:`, `MemAvailable:`, `Cached:`,
/// `SReclaimable:` and `Shmem:`.
pub open spec fn key_bytes(k: MemKey) -> Seq<u8> {
    match k {
        MemKey::Total => seq![77u8, 101u8, 109u8, 84u8, 111u8, 116u8, 97u8, 108u8, 58u8],
        MemKey::Free => seq![77u8, 101u8, 109u8, 70u8, 114u8, 101u8, 101u8, 58u8],
        MemKey::Available => seq![77u8, 101u8, 109u8, 65u8, 118u8, 97u8, 105u8, 108u8, 97u8, 98u8, 108u8, 101u8, 58u8],
        MemKey::Cached => seq![67u8, 97u8, 99u8, 104u8, 101u8, 100u8, 58u8],
        MemKey::SReclaimable => seq![
            83u8,
            82u8,
            101u8,
            99u8,
            108u8,
            97u8,
            105u8,
            109u8,
            97u8,
            98u8,
            108u8,
            101u8,
            58u8,
        ],
        MemKey::Shmem => seq![83u8, 104u8, 109u8, 101u8, 109u8, 58u8],
    }
}

/// The ASCII bytes of `SwapCached`, whose presence excludes a `Cached:` line.
pub open spec fn swap_cached_bytes() -> Seq<u8> {
    seq![83u8, 119u8, 97u8, 112u8, 67u8, 97u8, 99u8, 104u8, 101u8, 100u8]
}

fn key_text(k: MemKey) -> (r: Vec<u8>)
    ensures
        r@ == key_bytes(k),
{
    let r = match k {
        MemKey::Total => vec![77u8, 101u8, 109u8, 84u8, 111u8, 116u8, 97u8, 108u8, 58u8],
        MemKey::Free => vec![77u8, 101u8, 109u8, 70u8, 114u8, 101u8, 101u8, 58u8],
        MemKey::Available => vec![77u8, 101u8, 109u8, 65u8, 118u8, 97u8, 105u8, 108u8, 97u8, 98u8, 108u8, 101u8, 58u8],
        MemKey::Cached => vec![67u8, 97u8, 99u8, 104u8, 101u8, 100u8, 58u8],
        MemKey::SReclaimable => vec![
            83u8,
            82u8,
            101u8,
            99u8,
            108u8,
            97u8,
            105u8,
            109u8,
            97u8,
            98u8,
            108u8,
            101u8,
            58u8,
        ],
        MemKey::Shmem => vec![83u8, 104u8, 109u8, 101u8, 109u8, 58u8],
    };
    proof {
        assert(r@ =~= key_bytes(k));
    }
    r
}

fn swap_cached_text() -> (r: Vec<u8>)
    ensures
        r@ == swap_cached_bytes(),
{
    let r = vec![83u8, 119u8, 97u8, 112u8, 67u8, 97u8, 99u8, 104u8, 101u8, 100u8];
    proof {
        assert(r@ =~= swap_cached_bytes());
    }
    r
}

/// ASCII whitespace: space, tab, line feed, vertical tab, form feed, carriage return.
pub open spec fn is_space(b: u8) -> bool {
    b == 32 || (9 <= b && b <= 13)
}

pub open spec fn is_digit(b: u8) -> bool {
    48 <= b && b <= 57
}

/// The first position at or after `i` that is not whitespace, or `s.len()`.
pub open spec fn skip_space(s: Seq<u8>, i: int) -> int
    decreases s.len() - i,
{
    if i >= s.len() || i < 0 {
        s.len() as int
    } else if is_space(s[i]) {
        skip_space(s, i + 1)
    } else {
        i
    }
}

/// The first position at or after `i` that is whitespace, or `s.len()`.
pub open spec fn token_end(s: Seq<u8>, i: int) -> int
    decreases s.len() - i,
{
    if i >= s.len() || i < 0 {
        s.len() as int
    } else if is_space(s[i]) {
        i
    } else {
        token_end(s, i + 1)
    }
}

/// The second whitespace-separated token of a line (empty when there is none).
pub open spec fn second_token(line: Seq<u8>) -> Seq<u8> {
    let s1 = skip_space(line, 0);
    let e1 = token_end(line, s1);
    let s2 = skip_space(line, e1);
    line.subrange(s2, token_end(line, s2))
}

/// The number that decimal digits `s` spell.
pub open spec fn digits_value(s: Seq<u8>) -> nat
    decreases s.len(),
{
    if s.len() == 0 {
        0
    } else {
        digits_value(s.drop_last()) * 10 + (s.last() - 48) as nat
    }
}

/// The counter value of a line: its second token read as a decimal number
/// of kB, or 0 when that token is missing, is not all digits, or does not
/// fit in 64 bits.
pub open spec fn line_value(line: Seq<u8>) -> u64 {
    let t = second_token(line);
    if t.len() > 0 && (forall|k: int| 0 <= k < t.len() ==> is_digit(#[trigger] t[k])) && digits_value(t)
        <= u64::MAX {
        digits_value(t) as u64
    } else {
        0
    }
}

pub open spec fn has_prefix(line: Seq<u8>, key: Seq<u8>) -> bool {
    key.len() <= line.len() && line.subrange(0, key.len() as int) == key
}

pub open spec fn has_infix(line: Seq<u8>, pat: Seq<u8>) -> bool {
    exists|i: int| 0 <= i && i + pat.len() <= line.len() && #[trigger] line.subrange(i, i + pat.len()) == pat
}

/// The counter a line sets, if any: the first key the line starts with (a
/// `Cached:` line only when it does not mention the swap cache).
pub open spec fn line_key(line: Seq<u8>) -> Option<MemKey> {
    if has_prefix(line, key_bytes(MemKey::Total)) {
        Some(MemKey::Total)
    } else if has_prefix(line, key_bytes(MemKey::Free)) {
        Some(MemKey::Free)
    } else if has_prefix(line, key_bytes(MemKey::Available)) {
        Some(MemKey::Available)
    } else if has_prefix(line, key_bytes(MemKey::Cached)) && !has_infix(line, swap_cached_bytes()) {
        Some(MemKey::Cached)
    } else if has_prefix(line, key_bytes(MemKey::SReclaimable)) {
        Some(MemKey::SReclaimable)
    } else if has_prefix(line, key_bytes(MemKey::Shmem)) {
        Some(MemKey::Shmem)
    } else {
        None
    }
}

pub open spec fn with_value(m: MemInfo, k: MemKey, v: u64) -> MemInfo {
    match k {
        MemKey::Total => MemInfo { total_kb: v, ..m },
        MemKey::Free => MemInfo { free_kb: v, ..m },
        MemKey::Available => MemInfo { available_kb: v, ..m },
        MemKey::Cached => MemInfo { cached_kb: v, ..m },
        MemKey::SReclaimable => MemInfo { sreclaimable_kb: v, ..m },
        MemKey::Shmem => MemInfo { shmem_kb: v, ..m },
    }
}

pub open spec fn apply_line(m: MemInfo, line: Seq<u8>) -> MemInfo {
    match line_key(line) {
        Some(k) => with_value(m, k, line_value(line)),
        None => m,
    }
}

/// The end of the line that starts at `i`: the next line feed, or `s.len()`.
pub open spec fn line_end(s: Seq<u8>, i: int) -> int
    decreases s.len() - i,
{
    if i >= s.len() || i < 0 {
        s.len() as int
    } else if s[i] == 10 {
        i
    } else {
        line_end(s, i + 1)
    }
}

/// The counters after reading the lines of `text` from position `start`
/// on, in order, each line that names a counter setting it.
pub open spec fn scan_lines(text: Seq<u8>, start: int, m: MemInfo) -> MemInfo
    decreases text.len() - start,
{
    if start >= text.len() || start < 0 {
        m
    } else {
        let e = line_end(text, start);
        if e < start {
            m
        } else if e >= text.len() {
            apply_line(m, text.subrange(start, text.len() as int))
        } else {
            scan_lines(text, e + 1, apply_line(m, text.subrange(start, e)))
        }
    }
}

pub open spec fn zero_meminfo() -> MemInfo {
    MemInfo { total_kb: 0, free_kb: 0, available_kb: 0, cached_kb: 0, sreclaimable_kb: 0, shmem_kb: 0 }
}

proof fn lemma_line_end(s: Seq<u8>, i: int)
    requires
        0 <= i <= s.len(),
    ensures
        i <= line_end(s, i) <= s.len(),
    decreases s.len() - i,
{
    if i < s.len() && s[i] != 10 {
        lemma_line_end(s, i + 1);
    }
}

/// Whether `text[start..end]` begins with `key`.
fn range_has_prefix(text: &Vec<u8>, start: usize, end: usize, key: &Vec<u8>) -> (r: bool)
    requires
        start <= end <= text@.len(),
    ensures
        r == has_prefix(text@.subrange(start as int, end as int), key@),
{
    let ghost line = text@.subrange(start as int, end as int);
    if key.len() > end - start {
        return false;
    }
    let mut k: usize = 0;
    while k < key.len()
        invariant
            start <= end <= text@.len(),
            key@.len() <= end - start,
            line == text@.subrange(start as int, end as int),
            k <= key@.len(),
            forall|j: int| 0 <= j < k ==> line[j] == key@[j],
        decreases key.len() - k,
    {
        assert(line[k as int] == text@[start + k]);
        if text[start + k] != key[k] {
            assert(line.subrange(0, key@.len() as int)[k as int] != key@[k as int]);
            return false;
        }
        k = k + 1;
    }
    assert(line.subrange(0, key@.len() as int) =~= key@);
    true
}

/// Whether `pat` occurs in `text[start..end]`.
fn range_has_infix(text: &Vec<u8>, start: usize, end: usize, pat: &Vec<u8>) -> (r: bool)
    requires
        start <= end <= text@.len(),
    ensures
        r == has_infix(text@.subrange(start as int, end as int), pat@),
{
    let ghost line = text@.subrange(start as int, end as int);
    if pat.len() == 0 {
        assert(line.subrange(0, 0 + pat@.len() as int) =~= pat@);
        return true;
    }
    if pat.len() > end - start {
        return false;
    }
    let stop = end - start - pat.len() + 1;
    let mut i: usize = 0;
    while i < stop
        invariant
            start <= end <= text@.len(),
            1 <= pat@.len() <= end - start,
            stop == end - start - pat@.len() + 1,
            line == text@.subrange(start as int, end as int),
            i <= stop,
            forall|j: int| 0 <= j < i ==> #[trigger] line.subrange(j, j + pat@.len()) != pat@,
        decreases stop - i,
    {
        let found = range_has_prefix(text, start + i, end, pat);
        proof {
            let sub = text@.subrange(start + i, end as int);
            assert(sub.subrange(0, pat@.len() as int) =~= line.subrange(i as int, i + pat@.len()));
        }
        if found {
            return true;
        }
        i = i + 1;
    }
    false
}

/// The counter value of the line `text[start..end]`.
fn range_line_value(text: &Vec<u8>, start: usize, end: usize) -> (r: u64)
    requires
        start <= end <= text@.len(),
    ensures
        r == line_value(text@.subrange(start as int, end as int)),
{
    let ghost line = text@.subrange(start as int, end as int);
    let len = end - start;
    let mut s1: usize = 0;
    while s1 < len && (text[start + s1] == 32 || (9 <= text[start + s1] && text[start + s1] <= 13))
        invariant
            len == line.len(),
            line == text@.subrange(start as int, end as int),
            start <= end <= text@.len(),
            s1 <= len,
            skip_space(line, 0) == skip_space(line, s1 as int),
        decreases len - s1,
    {
        s1 = s1 + 1;
    }
    let mut e1: usize = s1;
    while e1 < len && !(text[start + e1] == 32 || (9 <= text[start + e1] && text[start + e1] <= 13))
        invariant
            len == line.len(),
            line == text@.subrange(start as int, end as int),
            start <= end <= text@.len(),
            s1 <= e1 <= len,
            skip_space(line, 0) == s1,
            token_end(line, s1 as int) == token_end(line, e1 as int),
        decreases len - e1,
    {
        e1 = e1 + 1;
    }
    let mut s2: usize = e1;
    while s2 < len && (text[start + s2] == 32 || (9 <= text[start + s2] && text[start + s2] <= 13))
        invariant
            len == line.len(),
            line == text@.subrange(start as int, end as int),
            start <= end <= text@.len(),
            e1 <= s2 <= len,
            token_end(line, skip_space(line, 0)) == e1,
            skip_space(line, e1 as int) == skip_space(line, s2 as int),
        decreases len - s2,
    {
        s2 = s2 + 1;
    }
    let mut e2: usize = s2;
    let mut value: u64 = 0;
    let mut valid = true;
    let ghost tok_start = s2 as int;
    while e2 < len && !(text[start + e2] == 32 || (9 <= text[start + e2] && text[start + e2] <= 13))
        invariant
            len == line.len(),
            line == text@.subrange(start as int, end as int),
            start <= end <= text@.len(),
            tok_start == s2,
            s2 <= e2 <= len,
            second_token(line) == line.subrange(s2 as int, token_end(line, e2 as int)),
            token_end(line, s2 as int) == token_end(line, e2 as int),
            valid ==> (forall|k: int| s2 <= k < e2 ==> is_digit(#[trigger] line[k])) && value
                == digits_value(line.subrange(s2 as int, e2 as int)),
            !valid ==> !((forall|k: int| s2 <= k < e2 ==> is_digit(#[trigger] line[k])) && digits_value(
                line.subrange(s2 as int, e2 as int),
            ) <= u64::MAX),
        decreases len - e2,
    {
        let b = text[start + e2];
        proof {
            let pre = line.subrange(s2 as int, e2 as int + 1);
            assert(pre.drop_last() =~= line.subrange(s2 as int, e2 as int));
            assert(pre.last() == b);
            assert(line[e2 as int] == b);
            lemma_digits_grow(line.subrange(s2 as int, e2 as int + 1));
        }
        if valid {
            if b < 48 || b > 57 {
                assert(!is_digit(line[e2 as int]));
                valid = false;
            } else {
                match value.checked_mul(10) {
                    Some(v10) => match v10.checked_add((b - 48) as u64) {
                        Some(v) => {
                            value = v;
                        },
                        None => {
                            valid = false;
                        },
                    },
                    None => {
                        valid = false;
                    },
                }
            }
        } else {
            proof {
                if (forall|k: int| s2 <= k < e2 + 1 ==> is_digit(#[trigger] line[k])) {
                    assert forall|k: int| s2 <= k < e2 implies is_digit(#[trigger] line[k]) by {
                    }
                }
            }
        }
        e2 = e2 + 1;
    }
    proof {
        let t = second_token(line);
        assert(t =~= line.subrange(s2 as int, e2 as int));
        if valid {
            assert forall|k: int| 0 <= k < t.len() implies is_digit(#[trigger] t[k]) by {
                assert(t[k] == line[s2 + k]);
            }
        } else {
            if (forall|k: int| 0 <= k < t.len() ==> is_digit(#[trigger] t[k])) {
                assert forall|k: int| s2 <= k < e2 implies is_digit(#[trigger] line[k]) by {
                    assert(t[k - s2] == line[k]);
                }
            }
        }
    }
    if valid && e2 > s2 {
        value
    } else {
        0
    }
}

/// Appending a digit multiplies the value by ten and adds the digit.
proof fn lemma_digits_grow(s: Seq<u8>)
    requires
        s.len() > 0,
    ensures
        digits_value(s) == digits_value(s.drop_last()) * 10 + (s.last() - 48) as nat,
        digits_value(s.drop_last()) <= digits_value(s) || s.last() < 48,
{
}

/// The counter a line sets.
fn range_line_key(text: &Vec<u8>, start: usize, end: usize) -> (r: Option<MemKey>)
    requires
        start <= end <= text@.len(),
    ensures
        r == line_key(text@.subrange(start as int, end as int)),
{
    if range_has_prefix(text, start, end, &key_text(MemKey::Total)) {
        Some(MemKey::Total)
    } else if range_has_prefix(text, start, end, &key_text(MemKey::Free)) {
        Some(MemKey::Free)
    } else if range_has_prefix(text, start, end, &key_text(MemKey::Available)) {
        Some(MemKey::Available)
    } else if range_has_prefix(text, start, end, &key_text(MemKey::Cached)) && !range_has_infix(
        text,
        start,
        end,
        &swap_cached_text(),
    ) {
        Some(MemKey::Cached)
    } else if range_has_prefix(text, start, end, &key_text(MemKey::SReclaimable)) {
        Some(MemKey::SReclaimable)
    } else if range_has_prefix(text, start, end, &key_text(MemKey::Shmem)) {
        Some(MemKey::Shmem)
    } else {
        None
    }
}

/// Reads the memory counters from the text of `/proc/meminfo`: for each
/// line, in order, that starts with a counter's name, the counter takes the
/// line's second token as a decimal number (0 when it is not one); a later
/// line for the same counter wins, and a counter with no line stays 0.
pub fn parse_meminfo(text: &Vec<u8>) -> (r: MemInfo)
    ensures
        r == scan_lines(text@, 0, zero_meminfo()),
{
    let mut m = MemInfo { total_kb: 0, free_kb: 0, available_kb: 0, cached_kb: 0, sreclaimable_kb: 0, shmem_kb: 0 };
    let n = text.len();
    let mut start: usize = 0;
    while start < n
        invariant
            n == text@.len(),
            start <= n,
            scan_lines(text@, 0, zero_meminfo()) == scan_lines(text@, start as int, m),
        decreases n - start,
    {
        let mut e: usize = start;
        while e < n && text[e] != 10
            invariant
                n == text@.len(),
                start <= e <= n,
                line_end(text@, start as int) == line_end(text@, e as int),
            decreases n - e,
        {
            e = e + 1;
        }
        let ghost before = m;
        proof {
            lemma_line_end(text@, start as int);
        }
        match range_line_key(text, start, e) {
            Some(k) => {
                let v = range_line_value(text, start, e);
                m = match k {
                    MemKey::Total => MemInfo { total_kb: v, ..m },
                    MemKey::Free => MemInfo { free_kb: v, ..m },
                    MemKey::Available => MemInfo { available_kb: v, ..m },
                    MemKey::Cached => MemInfo { cached_kb: v, ..m },
                    MemKey::SReclaimable => MemInfo { sreclaimable_kb: v, ..m },
                    MemKey::Shmem => MemInfo { shmem_kb: v, ..m },
                };
            },
            None => {},
        }
        proof {
            let line = text@.subrange(start as int, e as int);
            assert(e == line_end(text@, start as int));
            assert(m == apply_line(before, line));
            if e == n {
                assert(scan_lines(text@, start as int, before) == m);
                assert(scan_lines(text@, n as int, m) == m);
            } else {
                assert(scan_lines(text@, start as int, before) == scan_lines(text@, e + 1, m));
            }
        }
        start = if e < n { e + 1 } else { n };
    }
    m
}

} // verus!
