//! Total order used by every sorted list view, and a verified insertion sort.

use vstd::prelude::*;

verus! {

/// What a list entry is sorted by: `rank` first, then `id`, then the
/// entry's position `slot` in the unsorted input. Every sort mode is
/// expressed as a rank for which ascending order is the wanted order.
#[derive(Clone, Copy, Debug, PartialEq, Eq, Structural)]
pub struct SortKey {
    pub rank: u64,
    pub id: u32,
    pub slot: usize,
}

/// Strict lexicographic order on (rank, id, slot).
pub open spec fn key_lt(a: SortKey, b: SortKey) -> bool {
    ||| a.rank < b.rank
    ||| a.rank == b.rank && a.id < b.id
    ||| a.rank == b.rank && a.id == b.id && a.slot < b.slot
}

/// No key of `s` comes after a key placed later in `s`.
pub open spec fn keys_sorted(s: Seq<SortKey>) -> bool {
    forall|i: int, j: int| 0 <= i < j < s.len() ==> !key_lt(#[trigger] s[j], #[trigger] s[i])
}

/// The first position of `s` whose key comes after `x`, or `s.len()`.
pub open spec fn insert_pos(s: Seq<SortKey>, x: SortKey) -> nat
    decreases s.len(),
{
    if s.len() == 0 {
        0
    } else if key_lt(x, s[0]) {
        0
    } else {
        1 + insert_pos(s.drop_first(), x)
    }
}

/// The keys of `s` in ascending order: each key in turn is placed before the
/// first key already placed that comes after it.
pub open spec fn sorted_keys(s: Seq<SortKey>) -> Seq<SortKey>
    decreases s.len(),
{
    if s.len() == 0 {
        s
    } else {
        let t = sorted_keys(s.drop_last());
        t.insert(insert_pos(t, s.last()) as int, s.last())
    }
}

/// `insert_pos` is the first index whose key comes after `x`.
proof fn lemma_insert_pos_first(s: Seq<SortKey>, x: SortKey, p: int)
    requires
        0 <= p <= s.len(),
        forall|j: int| 0 <= j < p ==> !key_lt(x, #[trigger] s[j]),
        p < s.len() ==> key_lt(x, s[p]),
    ensures
        insert_pos(s, x) == p,
    decreases p,
{
    if p > 0 {
        assert(!key_lt(x, s[0]));
        let t = s.drop_first();
        assert forall|j: int| 0 <= j < p - 1 implies !key_lt(x, #[trigger] t[j]) by {
            assert(t[j] == s[j + 1]);
        }
        if p < s.len() {
            assert(t[p - 1] == s[p]);
        }
        lemma_insert_pos_first(t, x, p - 1);
    }
}

proof fn lemma_insert_pos_facts(s: Seq<SortKey>, x: SortKey)
    ensures
        insert_pos(s, x) <= s.len(),
        forall|j: int| 0 <= j < insert_pos(s, x) ==> !key_lt(x, #[trigger] s[j]),
        insert_pos(s, x) < s.len() ==> key_lt(x, s[insert_pos(s, x) as int]),
    decreases s.len(),
{
    if s.len() > 0 && !key_lt(x, s[0]) {
        let t = s.drop_first();
        lemma_insert_pos_facts(t, x);
        assert forall|j: int| 0 <= j < insert_pos(s, x) implies !key_lt(x, #[trigger] s[j]) by {
            if j > 0 {
                assert(s[j] == t[j - 1]);
            }
        }
        if insert_pos(s, x) < s.len() {
            assert(s[insert_pos(s, x) as int] == t[insert_pos(t, x) as int]);
        }
    }
}

/// `sorted_keys` puts its input in ascending key order and keeps every key.
pub proof fn lemma_sorted_keys(s: Seq<SortKey>)
    ensures
        keys_sorted(sorted_keys(s)),
        sorted_keys(s).to_multiset() =~= s.to_multiset(),
        sorted_keys(s).len() == s.len(),
    decreases s.len(),
{
    broadcast use vstd::seq_lib::group_to_multiset_ensures;

    if s.len() > 0 {
        let init = s.drop_last();
        let x = s.last();
        let t = sorted_keys(init);
        lemma_sorted_keys(init);
        lemma_insert_pos_facts(t, x);
        let p = insert_pos(t, x) as int;
        let u = t.insert(p, x);
        assert forall|i: int, j: int| 0 <= i < j < u.len() implies !key_lt(
            #[trigger] u[j],
            #[trigger] u[i],
        ) by {
            if j < p {
                assert(u[i] == t[i] && u[j] == t[j]);
            } else if j == p {
                assert(u[i] == t[i]);
            } else if i == p {
                assert(u[j] == t[j - 1]);
                if j - 1 > p {
                    assert(!key_lt(t[j - 1], t[p]));
                }
            } else if i < p {
                assert(u[i] == t[i] && u[j] == t[j - 1]);
            } else {
                assert(u[i] == t[i - 1] && u[j] == t[j - 1]);
            }
        }
        assert(s =~= init.push(x));
        t.insert_ensures(p, x);
        assert(u.to_multiset() =~= t.to_multiset().insert(x));
    }
}

/// Sorts `keys` into ascending key order.
pub fn sort_keys(keys: &Vec<SortKey>) -> (r: Vec<SortKey>)
    ensures
        r@ == sorted_keys(keys@),
        keys_sorted(r@),
        r@.to_multiset() == keys@.to_multiset(),
{
    let mut out: Vec<SortKey> = Vec::new();
    let n = keys.len();
    let mut i: usize = 0;
    while i < n
        invariant
            n == keys.len(),
            i <= n,
            out@ == sorted_keys(keys@.subrange(0, i as int)),
        decreases n - i,
    {
        let x = keys[i];
        let mut p: usize = 0;
        while p < out.len() && !(x.rank < out[p].rank || (x.rank == out[p].rank && (x.id < out[p].id
            || (x.id == out[p].id && x.slot < out[p].slot))))
            invariant
                p <= out.len(),
                forall|j: int| 0 <= j < p ==> !key_lt(x, #[trigger] out@[j]),
            decreases out.len() - p,
        {
            p = p + 1;
        }
        proof {
            lemma_insert_pos_first(out@, x, p as int);
            let pre = keys@.subrange(0, i as int + 1);
            assert(pre.drop_last() =~= keys@.subrange(0, i as int));
            assert(pre.last() == x);
        }
        out.insert(p, x);
        i = i + 1;
    }
    proof {
        assert(keys@.subrange(0, n as int) =~= keys@);
        lemma_sorted_keys(keys@);
    }
    out
}

} // verus!
