//! Stable sorting by string keys: the order insertion sort produces, where
//! equal keys keep their input order.
use vstd::prelude::*;

use crate::text::{lemma_lt_total, lemma_lt_trans, seq_le, seq_lt};

verus! {

/// Where insertion sort puts a new key: before the first greater one.
pub open spec fn insert_pos(o: Seq<int>, ids: Seq<Seq<char>>, key: Seq<char>) -> int
    decreases o.len(),
{
    if o.len() == 0 {
        0
    } else if seq_lt(key, ids[o[0]]) {
        0
    } else {
        1 + insert_pos(o.drop_first(), ids, key)
    }
}

/// The indices of the first `n` keys in stable sorted order: equal keys keep
/// their input order.
pub open spec fn stable_order(ids: Seq<Seq<char>>, n: nat) -> Seq<int>
    decreases n,
{
    if n == 0 {
        Seq::<int>::empty()
    } else {
        let o = stable_order(ids, (n - 1) as nat);
        o.insert(insert_pos(o, ids, ids[n - 1]), n - 1)
    }
}

/// Keys in non-decreasing order.
pub open spec fn sorted_le(s: Seq<Seq<char>>) -> bool {
    forall|a: int, b: int| 0 <= a < b < s.len() ==> seq_le(#[trigger] s[a], #[trigger] s[b])
}

pub proof fn lemma_insert_pos_range(o: Seq<int>, ids: Seq<Seq<char>>, key: Seq<char>)
    ensures
        0 <= insert_pos(o, ids, key) <= o.len(),
    decreases o.len(),
{
    if o.len() > 0 {
        lemma_insert_pos_range(o.drop_first(), ids, key);
    }
}

pub proof fn lemma_stable_order_range(ids: Seq<Seq<char>>, n: nat)
    ensures
        stable_order(ids, n).len() == n,
        forall|k: int| 0 <= k < n ==> 0 <= #[trigger] stable_order(ids, n)[k] < n,
    decreases n,
{
    if n > 0 {
        let o = stable_order(ids, (n - 1) as nat);
        lemma_stable_order_range(ids, (n - 1) as nat);
        lemma_insert_pos_range(o, ids, ids[n - 1]);
        let p = insert_pos(o, ids, ids[n - 1]);
        assert forall|k: int| 0 <= k < n implies 0 <= #[trigger] stable_order(ids, n)[k] < n by {
            if k < p {
                assert(stable_order(ids, n)[k] == o[k]);
            } else if k > p {
                assert(stable_order(ids, n)[k] == o[k - 1]);
            }
        }
    }
}

pub proof fn lemma_insert_keeps_sorted(keys: Seq<Seq<char>>, p: int, key: Seq<char>)
    requires
        sorted_le(keys),
        0 <= p <= keys.len(),
        forall|q: int| 0 <= q < p ==> !seq_lt(key, #[trigger] keys[q]),
        p < keys.len() ==> seq_lt(key, keys[p]),
    ensures
        sorted_le(keys.insert(p, key)),
{
    let s = keys.insert(p, key);
    assert forall|a: int, b: int| 0 <= a < b < s.len() implies seq_le(
        #[trigger] s[a],
        #[trigger] s[b],
    ) by {
        if b < p {
            assert(s[a] == keys[a] && s[b] == keys[b]);
        } else if b == p {
            assert(s[a] == keys[a]);
            lemma_lt_total(keys[a], key);
        } else if a == p {
            assert(s[b] == keys[b - 1]);
            if b - 1 > p {
                assert(seq_le(keys[p], keys[b - 1]));
                if seq_lt(keys[p], keys[b - 1]) {
                    lemma_lt_trans(key, keys[p], keys[b - 1]);
                }
            }
        } else if a < p {
            assert(s[a] == keys[a] && s[b] == keys[b - 1]);
            if a < b - 1 {
                assert(seq_le(keys[a], keys[b - 1]));
            }
        } else {
            assert(s[a] == keys[a - 1] && s[b] == keys[b - 1]);
            assert(seq_le(keys[a - 1], keys[b - 1]));
        }
    }
}

/// Where insertion sort by the strict order `lt` puts a new key: before the
/// first key greater than it.
pub open spec fn insert_pos_by<K>(o: Seq<int>, keys: Seq<K>, key: K, lt: spec_fn(K, K) -> bool) -> int
    decreases o.len(),
{
    if o.len() == 0 {
        0
    } else if lt(key, keys[o[0]]) {
        0
    } else {
        1 + insert_pos_by(o.drop_first(), keys, key, lt)
    }
}

/// The indices of the first `n` keys in stable sorted order by `lt`.
pub open spec fn stable_order_by<K>(keys: Seq<K>, n: nat, lt: spec_fn(K, K) -> bool) -> Seq<int>
    decreases n,
{
    if n == 0 {
        Seq::<int>::empty()
    } else {
        let o = stable_order_by(keys, (n - 1) as nat, lt);
        o.insert(insert_pos_by(o, keys, keys[n - 1], lt), n - 1)
    }
}

pub proof fn lemma_insert_pos_by_range<K>(o: Seq<int>, keys: Seq<K>, key: K, lt: spec_fn(K, K) -> bool)
    ensures
        0 <= insert_pos_by(o, keys, key, lt) <= o.len(),
    decreases o.len(),
{
    if o.len() > 0 {
        lemma_insert_pos_by_range(o.drop_first(), keys, key, lt);
    }
}

pub proof fn lemma_stable_order_by_range<K>(keys: Seq<K>, n: nat, lt: spec_fn(K, K) -> bool)
    ensures
        stable_order_by(keys, n, lt).len() == n,
        forall|k: int| 0 <= k < n ==> 0 <= #[trigger] stable_order_by(keys, n, lt)[k] < n,
    decreases n,
{
    if n > 0 {
        let o = stable_order_by(keys, (n - 1) as nat, lt);
        lemma_stable_order_by_range(keys, (n - 1) as nat, lt);
        lemma_insert_pos_by_range(o, keys, keys[n - 1], lt);
        let p = insert_pos_by(o, keys, keys[n - 1], lt);
        assert forall|k: int| 0 <= k < n implies 0 <= #[trigger] stable_order_by(keys, n, lt)[k] < n by {
            if k < p {
                assert(stable_order_by(keys, n, lt)[k] == o[k]);
            } else if k > p {
                assert(stable_order_by(keys, n, lt)[k] == o[k - 1]);
            }
        }
    }
}

} // verus!
