//! Multi-step transaction flows discovered from an API's create operations.
use vstd::prelude::*;

use crate::api_engine::openapi::{ApiGraph, ApiOperation};
use crate::sorting::{
    insert_pos, lemma_insert_keeps_sorted, lemma_stable_order_range, sorted_le, stable_order,
};
use crate::text::{contains, has_sub, owned, seq_lt, str_eq, str_lt};

verus! {

#[derive(Debug, Clone, PartialEq, Eq)]
pub struct TransactionStep {
    pub method: String,
    pub path: String,
}

#[derive(Debug, Clone, PartialEq, Eq)]
pub struct TransactionFlow {
    pub name: String,
    pub steps: Vec<TransactionStep>,
}

/// The create (`POST`) operations of a list, as (method, path), in order.
pub open spec fn create_steps(ops: Seq<ApiOperation>) -> Seq<(Seq<char>, Seq<char>)>
    decreases ops.len(),
{
    if ops.len() == 0 {
        Seq::empty()
    } else {
        let o = ops.last();
        create_steps(ops.drop_last()) + if o.method@ == "POST"@ {
            seq![(o.method@, o.path@)]
        } else {
            Seq::empty()
        }
    }
}

/// The rank of a path in a purchase: customers, then orders, then payments,
/// then anything else.
pub open spec fn rank_of(path: Seq<char>) -> char {
    if has_sub(path, "customer"@) {
        '0'
    } else if has_sub(path, "order"@) {
        '1'
    } else if has_sub(path, "payment"@) {
        '2'
    } else {
        '3'
    }
}

/// The sort key of a step: its rank, then its path.
pub open spec fn priority_key(path: Seq<char>) -> Seq<char> {
    seq![rank_of(path)] + path
}

pub open spec fn step_keys(steps: Seq<(Seq<char>, Seq<char>)>) -> Seq<Seq<char>> {
    steps.map_values(|s: (Seq<char>, Seq<char>)| priority_key(s.1))
}

pub open spec fn step_view(s: TransactionStep) -> (Seq<char>, Seq<char>) {
    (s.method@, s.path@)
}

/// One "Purchase Flow" of the create operations, stably sorted by rank and
/// then path, when there are at least two of them; else no flow.
pub open spec fn flows_spec(r: Seq<TransactionFlow>, ops: Seq<ApiOperation>) -> bool {
    let steps = create_steps(ops);
    if steps.len() < 2 {
        r.len() == 0
    } else {
        &&& r.len() == 1
        &&& r[0].name@ == "Purchase Flow"@
        &&& r[0].steps@.len() == steps.len()
        &&& forall|k: int|
            0 <= k < steps.len() ==> step_view(#[trigger] r[0].steps@[k]) == steps[stable_order(
                step_keys(steps),
                steps.len(),
            )[k]]
    }
}

/// The rank of a path (see `rank_of`): the first part of its sort key.
fn priority(path: &str) -> (r: char)
    ensures
        r == rank_of(path@),
{
    proof {
        reveal_strlit("customer");
        reveal_strlit("order");
        reveal_strlit("payment");
    }
    if contains(path, "customer") {
        '0'
    } else if contains(path, "order") {
        '1'
    } else if contains(path, "payment") {
        '2'
    } else {
        '3'
    }
}

/// Whether a step with key (`rank_a`, `a`) sorts strictly before one with
/// key (`rank_b`, `b`).
fn key_lt(rank_a: char, a: &str, rank_b: char, b: &str) -> (r: bool)
    ensures
        r == seq_lt(seq![rank_a] + a@, seq![rank_b] + b@),
{
    let ghost x = seq![rank_a] + a@;
    let ghost y = seq![rank_b] + b@;
    assert(x.drop_first() =~= a@);
    assert(y.drop_first() =~= b@);
    if rank_a < rank_b {
        true
    } else if rank_a == rank_b {
        str_lt(a, b)
    } else {
        false
    }
}

/// The purchase flow of an API (see `flows_spec`).
pub fn discover_transaction_flows(graph: &ApiGraph) -> (r: Vec<TransactionFlow>)
    ensures
        flows_spec(r@, graph.operations@),
{
    let ops = &graph.operations;
    let mut posts: Vec<TransactionStep> = Vec::new();
    let mut i: usize = 0;
    while i < ops.len()
        invariant
            i <= ops.len(),
            ops == &graph.operations,
            posts@.map_values(|s: TransactionStep| step_view(s)) == create_steps(
                ops@.subrange(0, i as int),
            ),
        decreases ops.len() - i,
    {
        let ghost t = ops@.subrange(0, i + 1);
        assert(t.drop_last() =~= ops@.subrange(0, i as int));
        assert(t.last() == ops@[i as int]);
        let ghost before = posts@;
        proof {
            reveal_strlit("POST");
        }
        if str_eq(ops[i].method.as_str(), "POST") {
            let s = TransactionStep { method: ops[i].method.clone(), path: ops[i].path.clone() };
            posts.push(s);
            assert(posts@.map_values(|s: TransactionStep| step_view(s)) =~= before.map_values(
                |s: TransactionStep| step_view(s),
            ).push(step_view(s)));
        } else {
            assert(create_steps(t) =~= create_steps(ops@.subrange(0, i as int)));
        }
        i += 1;
    }
    assert(ops@.subrange(0, ops@.len() as int) =~= ops@);
    let ghost steps = create_steps(ops@);
    let ghost keys = step_keys(steps);
    if posts.len() < 2 {
        return Vec::new();
    }
    // stable insertion sort by (rank, path)
    let mut sorted: Vec<TransactionStep> = Vec::new();
    let mut ranks: Vec<char> = Vec::new();
    let mut j: usize = 0;
    while j < posts.len()
        invariant
            j <= posts.len(),
            posts@.map_values(|s: TransactionStep| step_view(s)) == steps,
            keys == step_keys(steps),
            sorted@.len() == j,
            ranks@.len() == j,
            forall|k: int| 0 <= k < j ==> 0 <= #[trigger] stable_order(keys, j as nat)[k] < j,
            stable_order(keys, j as nat).len() == j,
            forall|k: int|
                0 <= k < j ==> step_view(#[trigger] sorted@[k]) == steps[stable_order(
                    keys,
                    j as nat,
                )[k]] && ranks@[k] == rank_of(sorted@[k].path@),
            sorted_le(sorted@.map_values(|s: TransactionStep| priority_key(s.path@))),
        decreases posts.len() - j,
    {
        let ghost o = stable_order(keys, j as nat);
        let ghost key = keys[j as int];
        let p = &posts[j];
        assert(step_view(*p) == steps[j as int]);
        let rp = priority(p.path.as_str());
        assert(key == seq![rp] + p.path@);
        let ghost sk = sorted@.map_values(|s: TransactionStep| priority_key(s.path@));
        assert forall|k: int| 0 <= k < j implies #[trigger] sk[k] == keys[o[k]] by {
            assert(step_view(sorted@[k]) == steps[o[k]]);
        }
        let mut q: usize = 0;
        assert(o.skip(0) =~= o);
        while q < sorted.len() && !key_lt(rp, p.path.as_str(), ranks[q], sorted[q].path.as_str())
            invariant
                q <= sorted.len(),
                sorted@.len() == o.len(),
                ranks@.len() == o.len(),
                key == seq![rp] + p.path@,
                sk == sorted@.map_values(|s: TransactionStep| priority_key(s.path@)),
                forall|k: int| 0 <= k < sorted@.len() ==> ranks@[k] == rank_of(#[trigger] sorted@[k].path@),
                forall|k: int| 0 <= k < sorted@.len() ==> #[trigger] sk[k] == keys[o[k]],
                insert_pos(o, keys, key) == q + insert_pos(o.skip(q as int), keys, key),
                forall|m: int| 0 <= m < q ==> !seq_lt(key, #[trigger] sk[m]),
            decreases sorted.len() - q,
        {
            let ghost rest = o.skip(q as int);
            assert(rest[0] == o[q as int]);
            assert(sk[q as int] == seq![ranks@[q as int]] + sorted@[q as int].path@);
            assert(rest.drop_first() =~= o.skip(q + 1));
            q += 1;
        }
        proof {
            if q < sorted.len() {
                assert(sk[q as int] == seq![ranks@[q as int]] + sorted@[q as int].path@);
                assert(o.skip(q as int)[0] == o[q as int]);
            } else {
                assert(o.skip(q as int) =~= Seq::<int>::empty());
            }
            lemma_insert_keeps_sorted(sk, q as int, key);
        }
        let ghost old_sorted = sorted@;
        let ghost old_ranks = ranks@;
        let s = TransactionStep { method: p.method.clone(), path: p.path.clone() };
        sorted.insert(q, s);
        ranks.insert(q, rp);
        proof {
            let n = (j + 1) as nat;
            let o2 = stable_order(keys, n);
            assert(o2 == o.insert(q as int, j as int));
            lemma_stable_order_range(keys, n);
            assert(sorted@.map_values(|s: TransactionStep| priority_key(s.path@)) =~= sk.insert(
                q as int,
                key,
            ));
            assert forall|k: int| 0 <= k < j + 1 implies step_view(#[trigger] sorted@[k])
                == steps[o2[k]] && ranks@[k] == rank_of(sorted@[k].path@) by {
                if k < q {
                    assert(sorted@[k] == old_sorted[k] && o2[k] == o[k] && ranks@[k] == old_ranks[k]);
                } else if k == q {
                    assert(sorted@[k] == s && o2[k] == j);
                } else {
                    assert(sorted@[k] == old_sorted[k - 1] && o2[k] == o[k - 1] && ranks@[k] == old_ranks[k - 1]);
                }
            }
        }
        j += 1;
    }
    let mut flows: Vec<TransactionFlow> = Vec::new();
    flows.push(TransactionFlow { name: owned("Purchase Flow"), steps: sorted });
    flows
}

} // verus!
