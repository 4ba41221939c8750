//! Sorted sets of strings: a strictly increasing list of strings, the form in
//! which the library reports every collected set of names.
use vstd::prelude::*;

use crate::text::{chars_lt, chars_of, lemma_lt_asym, lemma_lt_irreflexive, lemma_lt_total, lemma_lt_trans, seq_lt, str_eq, strictly_sorted, strs};

verus! {

/// The strictly increasing list whose elements are exactly `s` (for a finite `s`).
pub open spec fn sorted_strs(s: Set<Seq<char>>) -> Seq<Seq<char>> {
    choose|q: Seq<Seq<char>>| strictly_sorted(q) && q.to_set() == s
}

proof fn lemma_sorted_first_is_min(q: Seq<Seq<char>>, x: Seq<char>)
    requires
        strictly_sorted(q),
        q.contains(x),
        q.len() > 0,
    ensures
        q[0] == x || seq_lt(q[0], x),
{
    let k = choose|k: int| 0 <= k < q.len() && q[k] == x;
    if k > 0 {
        assert(seq_lt(q[0], q[k]));
    }
}

/// A strictly increasing list is determined by its set of elements.
pub proof fn lemma_sorted_unique(a: Seq<Seq<char>>, b: Seq<Seq<char>>)
    requires
        strictly_sorted(a),
        strictly_sorted(b),
        a.to_set() == b.to_set(),
    ensures
        a == b,
    decreases a.len(),
{
    if a.len() == 0 {
        if b.len() > 0 {
            assert(b.to_set().contains(b[0]));
            assert(!a.to_set().contains(b[0]));
        }
        assert(a =~= b);
    } else {
        assert(a.to_set().contains(a[0]));
        assert(b.to_set().contains(a[0]));
        assert(b.len() > 0);
        assert(b.to_set().contains(b[0]));
        assert(a.to_set().contains(b[0]));
        lemma_sorted_first_is_min(a, b[0]);
        lemma_sorted_first_is_min(b, a[0]);
        if a[0] != b[0] {
            lemma_lt_asym(a[0], b[0]);
        }
        let a1 = a.drop_first();
        let b1 = b.drop_first();
        assert(strictly_sorted(a1)) by {
            assert forall|i: int, j: int| 0 <= i < j < a1.len() implies seq_lt(
                #[trigger] a1[i],
                #[trigger] a1[j],
            ) by {
                assert(seq_lt(a[i + 1], a[j + 1]));
            }
        }
        assert(strictly_sorted(b1)) by {
            assert forall|i: int, j: int| 0 <= i < j < b1.len() implies seq_lt(
                #[trigger] b1[i],
                #[trigger] b1[j],
            ) by {
                assert(seq_lt(b[i + 1], b[j + 1]));
            }
        }
        assert(a1.to_set() =~= b1.to_set()) by {
            assert forall|x: Seq<char>| a1.to_set().contains(x) implies b1.to_set().contains(
                x,
            ) by {
                let k = choose|k: int| 0 <= k < a1.len() && a1[k] == x;
                assert(seq_lt(a[0], a[k + 1]));
                assert(a.to_set().contains(x));
                assert(b.to_set().contains(x));
                let m = choose|m: int| 0 <= m < b.len() && b[m] == x;
                if m == 0 {
                    lemma_lt_irreflexive(x);
                }
                assert(b1[m - 1] == x);
            }
            assert forall|x: Seq<char>| b1.to_set().contains(x) implies a1.to_set().contains(
                x,
            ) by {
                let k = choose|k: int| 0 <= k < b1.len() && b1[k] == x;
                assert(seq_lt(b[0], b[k + 1]));
                assert(b.to_set().contains(x));
                assert(a.to_set().contains(x));
                let m = choose|m: int| 0 <= m < a.len() && a[m] == x;
                if m == 0 {
                    lemma_lt_irreflexive(x);
                }
                assert(a1[m - 1] == x);
            }
        }
        lemma_sorted_unique(a1, b1);
        assert(a =~= seq![a[0]] + a1);
        assert(b =~= seq![b[0]] + b1);
    }
}

/// Any strictly increasing list with elements `s` is `sorted_strs(s)`.
pub proof fn lemma_sorted_strs(q: Seq<Seq<char>>, s: Set<Seq<char>>)
    requires
        strictly_sorted(q),
        q.to_set() == s,
    ensures
        sorted_strs(s) == q,
{
    let p = sorted_strs(s);
    assert(strictly_sorted(p) && p.to_set() == s);
    lemma_sorted_unique(p, q);
}

proof fn lemma_max_exists(s: Set<Seq<char>>) -> (m: Seq<char>)
    requires
        s.finite(),
        s.len() > 0,
    ensures
        s.contains(m),
        forall|y: Seq<char>| #[trigger] s.contains(y) ==> y == m || seq_lt(y, m),
    decreases s.len(),
{
    let x = s.choose();
    let r = s.remove(x);
    if r.len() == 0 {
        assert forall|y: Seq<char>| #[trigger] s.contains(y) implies y == x || seq_lt(y, x) by {
            if y != x {
                assert(r.contains(y));
            }
        }
        x
    } else {
        let m1 = lemma_max_exists(r);
        lemma_lt_total(m1, x);
        if seq_lt(m1, x) {
            assert forall|y: Seq<char>| #[trigger] s.contains(y) implies y == x || seq_lt(y, x) by {
                if y != x {
                    assert(r.contains(y));
                    if y != m1 {
                        lemma_lt_trans(y, m1, x);
                    }
                }
            }
            x
        } else {
            assert forall|y: Seq<char>| #[trigger] s.contains(y) implies y == m1 || seq_lt(y, m1) by {
                if y != x {
                    assert(r.contains(y));
                }
            }
            m1
        }
    }
}

/// A finite set of strings has its sorted list: `sorted_strs(s)` is
/// strictly increasing and holds exactly the elements of `s`.
pub proof fn lemma_sorted_strs_of(s: Set<Seq<char>>)
    requires
        s.finite(),
    ensures
        strictly_sorted(sorted_strs(s)),
        sorted_strs(s).to_set() == s,
    decreases s.len(),
{
    if s.len() == 0 {
        let q = Seq::<Seq<char>>::empty();
        assert(q.to_set() =~= s);
        lemma_sorted_strs(q, s);
    } else {
        let m = lemma_max_exists(s);
        let r = s.remove(m);
        lemma_sorted_strs_of(r);
        let q1 = sorted_strs(r);
        let q = q1.push(m);
        assert forall|i: int, j: int| 0 <= i < j < q.len() implies seq_lt(#[trigger] q[i], #[trigger] q[j]) by {
            if j < q1.len() {
                assert(q[i] == q1[i] && q[j] == q1[j]);
            } else {
                assert(q1.to_set().contains(q1[i]));
                assert(r.contains(q[i]));
            }
        }
        assert forall|y: Seq<char>| #[trigger] q.to_set().contains(y) <==> s.contains(y) by {
            if s.contains(y) {
                if y == m {
                    assert(q[q1.len() as int] == y);
                    assert(q.contains(y));
                } else {
                    assert(r.contains(y));
                    assert(q1.to_set().contains(y));
                    assert(q1.contains(y));
                    let k = choose|k: int| 0 <= k < q1.len() && q1[k] == y;
                    assert(q[k] == y);
                    assert(q.contains(y));
                }
            }
            if q.to_set().contains(y) {
                assert(q.contains(y));
                let k = choose|k: int| 0 <= k < q.len() && q[k] == y;
                if k < q1.len() {
                    assert(q1[k] == y);
                    assert(q1.contains(y));
                    assert(q1.to_set().contains(y));
                    assert(r.contains(y));
                }
            }
        }
        assert(q.to_set() =~= s);
        lemma_sorted_strs(q, s);
    }
}

/// Inserts `x` into a sorted set of strings (no change when present).
pub fn insert_sorted(v: &mut Vec<String>, x: String)
    requires
        strictly_sorted(strs(old(v)@)),
    ensures
        strictly_sorted(strs(final(v)@)),
        strs(final(v)@).to_set() == strs(old(v)@).to_set().insert(x@),
{
    let ghost old_s = strs(v@);
    let xv = chars_of(x.as_str());
    let mut i: usize = 0;
    while i < v.len()
        invariant
            strs(v@) == old_s,
            strictly_sorted(old_s),
            xv@ == x@,
            i <= v.len(),
            forall|j: int| 0 <= j < i ==> seq_lt(#[trigger] old_s[j], x@),
        ensures
            strs(v@) == old_s,
            i <= v.len(),
            forall|j: int| 0 <= j < i ==> seq_lt(#[trigger] old_s[j], x@),
            i < v.len() ==> !seq_lt(old_s[i as int], x@),
        decreases v.len() - i,
    {
        let cv = chars_of(v[i].as_str());
        assert(old_s[i as int] == v@[i as int]@);
        if !chars_lt(&cv, &xv) {
            break;
        }
        i += 1;
    }
    // all before `i` are smaller; `v[i]` (if any) is not smaller
    if i < v.len() {
        let cv = chars_of(v[i].as_str());
        assert(old_s[i as int] == v@[i as int]@);
        if !chars_lt(&xv, &cv) {
            // equal: already present
            proof {
                lemma_lt_total(x@, old_s[i as int]);
                assert(old_s[i as int] == x@);
                assert(old_s.to_set().insert(x@) =~= old_s.to_set());
            }
            return;
        }
    }
    let ghost pos = i as int;
    v.insert(i, x);
    proof {
        let ns = strs(v@);
        assert(ns =~= old_s.subrange(0, pos).push(x@) + old_s.subrange(pos, old_s.len() as int));
        assert forall|a: int, b: int| 0 <= a < b < ns.len() implies seq_lt(
            #[trigger] ns[a],
            #[trigger] ns[b],
        ) by {
            if a < pos && b < pos {
                assert(seq_lt(old_s[a], old_s[b]));
            } else if a < pos && b == pos {
            } else if a < pos && b > pos {
                assert(seq_lt(old_s[a], x@));
                assert(b - 1 >= pos);
                if b - 1 > pos {
                    assert(seq_lt(old_s[pos], old_s[b - 1]));
                    assert(seq_lt(x@, old_s[pos]));
                    lemma_lt_trans(x@, old_s[pos], old_s[b - 1]);
                }
                lemma_lt_trans(old_s[a], x@, old_s[b - 1]);
            } else if a == pos {
                assert(seq_lt(x@, old_s[pos]));
                if b - 1 > pos {
                    assert(seq_lt(old_s[pos], old_s[b - 1]));
                    lemma_lt_trans(x@, old_s[pos], old_s[b - 1]);
                }
            } else {
                assert(seq_lt(old_s[a - 1], old_s[b - 1]));
            }
        }
        assert forall|y: Seq<char>| ns.to_set().contains(y) == old_s.to_set().insert(
            x@,
        ).contains(y) by {
            if ns.to_set().contains(y) {
                let k = choose|k: int| 0 <= k < ns.len() && ns[k] == y;
                if k < pos {
                    assert(old_s[k] == y);
                } else if k > pos {
                    assert(old_s[k - 1] == y);
                }
            }
            if old_s.to_set().contains(y) {
                let k = choose|k: int| 0 <= k < old_s.len() && old_s[k] == y;
                if k < pos {
                    assert(ns[k] == y);
                } else {
                    assert(ns[k + 1] == y);
                }
            }
            if y == x@ {
                assert(ns[pos] == y);
            }
        }
        assert(ns.to_set() =~= old_s.to_set().insert(x@));
    }
}

/// Whether a list of strings holds `x`.
pub fn contains_string(v: &Vec<String>, x: &str) -> (r: bool)
    ensures
        r == strs(v@).contains(x@),
{
    let mut i: usize = 0;
    while i < v.len()
        invariant
            i <= v.len(),
            forall|j: int| 0 <= j < i ==> v@[j]@ != x@,
        decreases v.len() - i,
    {
        if str_eq(v[i].as_str(), x) {
            assert(strs(v@)[i as int] == x@);
            return true;
        }
        i += 1;
    }
    assert forall|j: int| 0 <= j < strs(v@).len() implies strs(v@)[j] != x@ by {
        assert(strs(v@)[j] == v@[j]@);
    }
    false
}

/// Adds every string of `items` to a sorted set of strings.
pub fn insert_all(v: &mut Vec<String>, items: &Vec<String>)
    requires
        strictly_sorted(strs(old(v)@)),
    ensures
        strictly_sorted(strs(final(v)@)),
        strs(final(v)@).to_set() == strs(old(v)@).to_set().union(strs(items@).to_set()),
{
    let ghost start = strs(v@).to_set();
    let mut i: usize = 0;
    while i < items.len()
        invariant
            i <= items.len(),
            strictly_sorted(strs(v@)),
            strs(v@).to_set() == start.union(strs(items@).subrange(0, i as int).to_set()),
        decreases items.len() - i,
    {
        let ghost pre = strs(items@).subrange(0, i as int);
        let ghost post = strs(items@).subrange(0, i + 1);
        assert(post =~= pre.push(items@[i as int]@));
        proof {
            pre.lemma_push_to_set_commute(items@[i as int]@);
        }
        insert_sorted(v, items[i].clone());
        assert(strs(v@).to_set() =~= start.union(post.to_set()));
        i += 1;
    }
    assert(strs(items@).subrange(0, items@.len() as int) =~= strs(items@));
}

} // verus!
