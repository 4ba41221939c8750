//! Rename detection: which removed entity is an added one under a new name.
//! The removed and the added names (lowercased, in sorted order) are paired
//! greedily: each removed entity takes the first added entity not taken yet
//! whose name differs beyond ASCII case and whose structural signature is
//! alike enough: more than seven tenths of the distinct field signatures
//! shared, and at least the threshold (in thousandths).
use vstd::prelude::*;

use crate::model_evolution::delta::ChangeKind;
use crate::application_model::EntityShape;
use crate::model_evolution::identity::{
    match_of, overlap, signature_overlap, structural_signature, structural_signature_of, IdentityMatcher, MatchResult,
};
use crate::model_evolution::model::{EntityModel, ModelShape};
use crate::model_evolution::semantic_diff::{
    entity_keys, entity_keys_exec, last_ix, lemma_last_ix, not_in_keys, sorted_keys,
};
use crate::model_evolution::surface_diff::{
    diff_models, law_model_has_no_changes_from_itself, lemma_nothing_missing, lemma_sorted_keys_of, missing_ix,
    missing_positions, model_changes_are,
};
use crate::strset::lemma_sorted_strs_of;
use crate::text::{cat3, dec_seq, dec_string_wide, eq_ic, eq_ignore_case, lemma_lt_irreflexive, seq_lt, strictly_sorted, strs};

verus! {

/// Whether `shared` of `all` distinct parts is a rename's similarity: more
/// than seven tenths, and at least `threshold` thousandths.
pub open spec fn similar_enough(shared: nat, all: nat, threshold: u32) -> bool {
    10 * shared > 7 * all && 1000 * shared >= threshold * all
}

/// How much the structural signatures of two entities share (see `overlap`).
pub open spec fn entity_overlap(a: EntityModel, b: EntityModel) -> (nat, nat) {
    overlap(structural_signature_of(a.fields@), structural_signature_of(b.fields@))
}

/// Whether `b` may be `a` under a new name: the names differ beyond ASCII
/// case and the structures are similar enough.
pub open spec fn rename_fits(a: EntityModel, b: EntityModel, threshold: u32) -> bool {
    !eq_ic(a.name@, b.name@) && similar_enough(entity_overlap(a, b).0, entity_overlap(a, b).1, threshold)
}

/// `100 * shared / all` rounded to the nearest integer, halves to even.
pub open spec fn percent(shared: nat, all: nat) -> nat {
    let x: int = (100 * shared) as int;
    let q: int = x / (all as int);
    let r: int = x % (all as int);
    if 2 * r > all || (2 * r == all && q % 2 == 1) {
        (q + 1) as nat
    } else {
        q as nat
    }
}

/// The reason given for a rename: the structural similarity in percent.
pub open spec fn rename_reason(a: EntityModel, b: EntityModel) -> Seq<char> {
    "structural similarity: "@ + dec_seq(percent(entity_overlap(a, b).0, entity_overlap(a, b).1)) + "%"@
}

/// The first index `j < n` of `add`, not in `taken`, whose entity of `to`
/// may be `a` renamed.
pub open spec fn first_fit(
    a: EntityModel,
    to: Seq<EntityModel>,
    add: Seq<int>,
    taken: Set<int>,
    threshold: u32,
    n: nat,
) -> Option<int>
    decreases n,
{
    if n == 0 {
        None
    } else {
        let j = n - 1;
        match first_fit(a, to, add, taken, threshold, (n - 1) as nat) {
            Some(k) => Some(k),
            None => if !taken.contains(j) && rename_fits(a, to[add[j]], threshold) {
                Some(j)
            } else {
                None
            },
        }
    }
}

/// The renames found walking the removed positions `rem` of `from` in
/// order, each paired with its first fit among the added positions `add`
/// of `to` not taken by an earlier one; and the indices of `add` taken.
pub open spec fn rename_walk(
    from: Seq<EntityModel>,
    to: Seq<EntityModel>,
    rem: Seq<int>,
    add: Seq<int>,
    threshold: u32,
) -> (Seq<(int, int, Seq<char>)>, Set<int>)
    decreases rem.len(),
{
    if rem.len() == 0 {
        (Seq::empty(), Set::empty())
    } else {
        let prev = rename_walk(from, to, rem.drop_last(), add, threshold);
        let a = from[rem.last()];
        match first_fit(a, to, add, prev.1, threshold, add.len()) {
            Some(j) => (
                prev.0.push((rem.last(), add[j], rename_reason(a, to[add[j]]))),
                prev.1.insert(j),
            ),
            None => prev,
        }
    }
}

/// The renames from one entity list to another: positions in `from` and in
/// `to`, with the reason. The removed names (lowercased keys of `from` that
/// `to` lacks) and the added ones are taken in sorted order, the last entity
/// of equal keys standing for the key.
pub open spec fn rename_pairs(from: Seq<EntityModel>, to: Seq<EntityModel>, threshold: u32) -> Seq<
    (int, int, Seq<char>),
> {
    let fk = entity_keys(from);
    let tk = entity_keys(to);
    rename_walk(from, to, missing_ix(fk, tk), missing_ix(tk, fk), threshold).0
}

pub open spec fn pair_views(r: Seq<(usize, usize, String)>) -> Seq<(int, int, Seq<char>)> {
    r.map_values(|p: (usize, usize, String)| (p.0 as int, p.1 as int, p.2@))
}

pub open spec fn ints(v: Seq<usize>) -> Seq<int> {
    v.map_values(|x: usize| x as int)
}

pub open spec fn taken_set(v: Seq<bool>) -> Set<int> {
    Set::new(|j: int| 0 <= j < v.len() && v[j])
}

pub open spec fn opt_int(o: Option<usize>) -> Option<int> {
    match o {
        Some(j) => Some(j as int),
        None => None,
    }
}

proof fn lemma_first_fit_found(
    a: EntityModel,
    to: Seq<EntityModel>,
    add: Seq<int>,
    taken: Set<int>,
    threshold: u32,
    n: nat,
)
    ensures
        first_fit(a, to, add, taken, threshold, n) matches Some(j) ==> 0 <= j < n && !taken.contains(j)
            && rename_fits(a, to[add[j]], threshold),
    decreases n,
{
    if n > 0 {
        lemma_first_fit_found(a, to, add, taken, threshold, (n - 1) as nat);
    }
}

proof fn lemma_first_fit_stays(
    a: EntityModel,
    to: Seq<EntityModel>,
    add: Seq<int>,
    taken: Set<int>,
    threshold: u32,
    m: nat,
    n: nat,
)
    requires
        m <= n,
        first_fit(a, to, add, taken, threshold, m) is Some,
    ensures
        first_fit(a, to, add, taken, threshold, n) == first_fit(a, to, add, taken, threshold, m),
    decreases n - m,
{
    if m < n {
        lemma_first_fit_stays(a, to, add, taken, threshold, m, (n - 1) as nat);
    }
}

/// An entity list's entity as the identity matcher sees it.
pub open spec fn shape_of(e: EntityModel) -> EntityShape {
    EntityShape { name: e.name, fields: e.fields }
}

/// A rename is what an identity matcher with no renames recorded judges a
/// high or moderate structural match of the two entities, with a share of
/// field signatures at or above the threshold.
pub proof fn law_renames_are_structural_matches(m: IdentityMatcher, a: EntityModel, b: EntityModel, threshold: u32)
    requires
        m.renames() == Map::<Seq<char>, Seq<char>>::empty(),
    ensures
        rename_fits(a, b, threshold) <==> ((match_of(m, shape_of(a), shape_of(b)) is HighStructuralSimilarity
            || match_of(m, shape_of(a), shape_of(b)) is ModerateStructuralSimilarity) && 1000 * entity_overlap(
            a,
            b,
        ).0 >= threshold * entity_overlap(a, b).1),
{
}

// ---------------------------------------------------------------------------
// What the detected renames are
// ---------------------------------------------------------------------------

/// A detected rename `p` of entity lists `from` and `to`: positions in
/// both; the old entity's lowercased name only in `from`, the new one's
/// only in `to`; the new entity may be the old one renamed; and the reason.
pub open spec fn rename_ok(from: Seq<EntityModel>, to: Seq<EntityModel>, threshold: u32, p: (int, int, Seq<char>)) -> bool {
    &&& 0 <= p.0 < from.len()
    &&& 0 <= p.1 < to.len()
    &&& !entity_keys(to).contains(entity_keys(from)[p.0])
    &&& !entity_keys(from).contains(entity_keys(to)[p.1])
    &&& rename_fits(from[p.0], to[p.1], threshold)
    &&& p.2 == rename_reason(from[p.0], to[p.1])
}

proof fn lemma_filter_sorted(s: Seq<Seq<char>>, p: spec_fn(Seq<char>) -> bool)
    requires
        strictly_sorted(s),
    ensures
        strictly_sorted(s.filter(p)),
        forall|i: int| 0 <= i < s.filter(p).len() ==> s.contains(#[trigger] s.filter(p)[i]) && p(s.filter(p)[i]),
    decreases s.len(),
{
    reveal(Seq::filter);
    if s.len() > 0 {
        let t = s.drop_last();
        assert forall|i: int, j: int| 0 <= i < j < t.len() implies seq_lt(#[trigger] t[i], #[trigger] t[j]) by {
            assert(t[i] == s[i] && t[j] == s[j]);
        }
        lemma_filter_sorted(t, p);
        let ft = t.filter(p);
        let f = s.filter(p);
        assert forall|i: int| 0 <= i < ft.len() implies s.contains(#[trigger] ft[i]) && seq_lt(ft[i], s.last()) by {
            let k = choose|k: int| 0 <= k < t.len() && t[k] == ft[i];
            assert(s[k] == ft[i]);
            assert(seq_lt(s[k], s[s.len() - 1]));
        }
        if p(s.last()) {
            assert(f == ft.push(s.last()));
            assert forall|i: int, j: int| 0 <= i < j < f.len() implies seq_lt(#[trigger] f[i], #[trigger] f[j]) by {
                if j == f.len() - 1 {
                    assert(f[i] == ft[i]);
                } else {
                    assert(f[i] == ft[i] && f[j] == ft[j]);
                }
            }
            assert forall|i: int| 0 <= i < f.len() implies s.contains(#[trigger] f[i]) && p(f[i]) by {
                if i < f.len() - 1 {
                    assert(f[i] == ft[i]);
                } else {
                    assert(s[s.len() - 1] == f[i]);
                }
            }
        } else {
            assert(f == ft);
        }
    }
}

proof fn lemma_missing_ix(a: Seq<Seq<char>>, b: Seq<Seq<char>>)
    ensures
        forall|i: int|
            0 <= i < missing_ix(a, b).len() ==> 0 <= #[trigger] missing_ix(a, b)[i] < a.len() && !b.contains(
                a[missing_ix(a, b)[i]],
            ),
        forall|i: int, j: int|
            0 <= i < j < missing_ix(a, b).len() ==> #[trigger] missing_ix(a, b)[i] != #[trigger] missing_ix(a, b)[j],
{
    let sk = sorted_keys(a);
    vstd::seq_lib::seq_to_set_is_finite(a);
    lemma_sorted_strs_of(a.to_set());
    lemma_sorted_keys_of(a);
    let sm = sk.filter(not_in_keys(b));
    lemma_filter_sorted(sk, not_in_keys(b));
    let m = missing_ix(a, b);
    assert forall|i: int| 0 <= i < m.len() implies 0 <= #[trigger] m[i] < a.len() && !b.contains(a[m[i]]) && a[m[i]]
        == sm[i] by {
        assert(sk.contains(sm[i]));
        let k = choose|k: int| 0 <= k < sk.len() && sk[k] == sm[i];
        assert(a.contains(sk[k]));
        lemma_last_ix(a, sm[i]);
        assert(m[i] == last_ix(a, sm[i]));
    }
    assert forall|i: int, j: int| 0 <= i < j < m.len() implies #[trigger] m[i] != #[trigger] m[j] by {
        assert(a[m[i]] == sm[i] && a[m[j]] == sm[j]);
        assert(seq_lt(sm[i], sm[j]));
        lemma_lt_irreflexive(sm[i]);
    }
}

proof fn lemma_walk(from: Seq<EntityModel>, to: Seq<EntityModel>, rem: Seq<int>, add: Seq<int>, threshold: u32)
    ensures
        ({
            let w = rename_walk(from, to, rem, add, threshold);
            &&& forall|i: int|
                0 <= i < w.0.len() ==> rem.contains(#[trigger] w.0[i].0) && (exists|j: int|
                    #![trigger add[j]]
                    w.1.contains(j) && 0 <= j < add.len() && add[j] == w.0[i].1) && rename_fits(
                    from[w.0[i].0],
                    to[w.0[i].1],
                    threshold,
                ) && w.0[i].2 == rename_reason(from[w.0[i].0], to[w.0[i].1])
            &&& forall|i: int, j: int| 0 <= i < j < w.0.len() && (forall|x: int, y: int| 0 <= x < y < add.len() ==> #[trigger] add[x] != #[trigger] add[y]) ==> #[trigger] w.0[i].1 != #[trigger] w.0[j].1
        }),
    decreases rem.len(),
{
    if rem.len() > 0 {
        lemma_walk(from, to, rem.drop_last(), add, threshold);
        let prev = rename_walk(from, to, rem.drop_last(), add, threshold);
        let w = rename_walk(from, to, rem, add, threshold);
        let a = from[rem.last()];
        lemma_first_fit_found(a, to, add, prev.1, threshold, add.len());
        assert forall|i: int| 0 <= i < prev.0.len() implies rem.contains(#[trigger] prev.0[i].0) by {
            let x = choose|x: int| 0 <= x < rem.drop_last().len() && rem.drop_last()[x] == prev.0[i].0;
            assert(rem[x] == prev.0[i].0);
        }
        match first_fit(a, to, add, prev.1, threshold, add.len()) {
            Some(j) => {
                assert(w.0 == prev.0.push((rem.last(), add[j], rename_reason(a, to[add[j]]))));
                assert(w.1 == prev.1.insert(j));
                assert(rem[rem.len() - 1] == rem.last());
                assert forall|i: int| 0 <= i < w.0.len() implies rem.contains(#[trigger] w.0[i].0) && (exists|k: int|
                    #![trigger add[k]]
                    w.1.contains(k) && 0 <= k < add.len() && add[k] == w.0[i].1) && rename_fits(
                    from[w.0[i].0],
                    to[w.0[i].1],
                    threshold,
                ) && w.0[i].2 == rename_reason(from[w.0[i].0], to[w.0[i].1]) by {
                    if i < prev.0.len() {
                        assert(w.0[i] == prev.0[i]);
                        assert(rem.drop_last().contains(prev.0[i].0));
                        let k = choose|k: int| #![trigger add[k]] prev.1.contains(k) && 0 <= k < add.len() && add[k] == prev.0[i].1;
                        assert(w.1.contains(k) && add[k] == w.0[i].1);
                    } else {
                        assert(w.1.contains(j) && add[j] == w.0[i].1);
                    }
                }
                assert forall|i: int, k: int| 0 <= i < k < w.0.len() && (forall|x: int, y: int| 0 <= x < y < add.len() ==> #[trigger] add[x] != #[trigger] add[y]) implies #[trigger] w.0[i].1 != #[trigger] w.0[k].1 by {
                    if k < prev.0.len() {
                        assert(w.0[i] == prev.0[i] && w.0[k] == prev.0[k]);
                    } else {
                        assert(w.0[i] == prev.0[i]);
                        assert(rem.drop_last().contains(prev.0[i].0));
                        let q = choose|q: int| #![trigger add[q]] prev.1.contains(q) && 0 <= q < add.len() && add[q] == prev.0[i].1;
                        assert(q != j);
                        if q < j {
                            assert(add[q] != add[j]);
                        } else {
                            assert(add[j] != add[q]);
                        }
                    }
                }
            },
            None => {
                assert(w == prev);
            },
        }
    }
}

/// Each detected rename pairs an entity whose lowercased name only the old
/// list has with one whose lowercased name only the new list has, which
/// may be the first renamed (see `rename_fits`), with the similarity as the
/// reason; and no entity of the new list is taken by two renames.
pub proof fn law_detected_renames_pair_removed_with_added(
    from: Seq<EntityModel>,
    to: Seq<EntityModel>,
    threshold: u32,
)
    ensures
        forall|i: int|
            0 <= i < rename_pairs(from, to, threshold).len() ==> rename_ok(
                from,
                to,
                threshold,
                #[trigger] rename_pairs(from, to, threshold)[i],
            ),
        forall|i: int, j: int|
            0 <= i < j < rename_pairs(from, to, threshold).len() ==> (#[trigger] rename_pairs(
                from,
                to,
                threshold,
            )[i]).1 != (#[trigger] rename_pairs(from, to, threshold)[j]).1,
{
    let fk = entity_keys(from);
    let tk = entity_keys(to);
    let rem = missing_ix(fk, tk);
    let add = missing_ix(tk, fk);
    lemma_missing_ix(fk, tk);
    lemma_missing_ix(tk, fk);
    lemma_walk(from, to, rem, add, threshold);
    let w = rename_walk(from, to, rem, add, threshold);
    assert forall|x: int, y: int| 0 <= x < y < add.len() implies #[trigger] add[x] != #[trigger] add[y] by {}
    assert forall|i: int| 0 <= i < w.0.len() implies rename_ok(from, to, threshold, #[trigger] w.0[i]) by {
        let x = choose|x: int| 0 <= x < rem.len() && rem[x] == w.0[i].0;
        let j = choose|j: int| #![trigger add[j]] w.1.contains(j) && 0 <= j < add.len() && add[j] == w.0[i].1;
        assert(0 <= rem[x] < fk.len());
        assert(0 <= add[j] < tk.len());
    }
}

/// A model diffed with itself has no changes: no rename is detected, at
/// any threshold, and nothing else differs.
pub proof fn law_semantic_diff_of_a_model_with_itself_is_empty(
    m: ModelShape,
    threshold: u32,
    renamed: Seq<(usize, usize, String)>,
    changes: Seq<ChangeKind>,
)
    requires
        pair_views(renamed) == rename_pairs(m.entities@, m.entities@, threshold),
        model_changes_are(m, m, renamed, changes),
    ensures
        changes.len() == 0,
{
    let k = entity_keys(m.entities@);
    lemma_nothing_missing(k);
    assert(rename_pairs(m.entities@, m.entities@, threshold).len() == 0);
    assert(renamed.len() == pair_views(renamed).len());
    assert(renamed =~= Seq::<(usize, usize, String)>::empty());
    law_model_has_no_changes_from_itself(m, changes);
}

/// `100 * shared / all`, rounded (see `percent`).
fn percent_of(shared: u128, all: u128) -> (r: u128)
    requires
        all >= 1,
        shared <= u64::MAX,
        all <= 2 * (u64::MAX as int),
    ensures
        r as nat == percent(shared as nat, all as nat),
{
    let x: u128 = 100 * shared;
    let q: u128 = x / all;
    let m: u128 = x % all;
    if 2 * m > all || (2 * m == all && q % 2 == 1) {
        q + 1
    } else {
        q
    }
}

/// The first index of `add`, not taken, whose entity may be `a` renamed
/// (see `first_fit`).
fn first_fitting(
    a: &EntityModel,
    sig_a: &String,
    to: &Vec<EntityModel>,
    add: &Vec<usize>,
    taken: &Vec<bool>,
    threshold: u32,
) -> (r: Option<usize>)
    requires
        sig_a@ == structural_signature_of(a.fields@),
        taken@.len() == add@.len(),
        forall|j: int| 0 <= j < add@.len() ==> (#[trigger] add@[j] as int) < to@.len(),
    ensures
        opt_int(r) == first_fit(*a, to@, ints(add@), taken_set(taken@), threshold, add@.len()),
{
    let ghost av = ints(add@);
    let ghost ts = taken_set(taken@);
    let mut j: usize = 0;
    while j < add.len()
        invariant
            j <= add@.len(),
            av == ints(add@),
            ts == taken_set(taken@),
            sig_a@ == structural_signature_of(a.fields@),
            taken@.len() == add@.len(),
            forall|k: int| 0 <= k < add@.len() ==> (#[trigger] add@[k] as int) < to@.len(),
            first_fit(*a, to@, av, ts, threshold, j as nat) is None,
        decreases add@.len() - j,
    {
        assert(av[j as int] == add@[j as int] as int);
        assert(ts.contains(j as int) == taken@[j as int]);
        if !taken[j] {
            let b = &to[add[j]];
            if !eq_ignore_case(a.name.as_str(), b.name.as_str()) {
                let sig_b = structural_signature(&b.fields);
                let (shared, all) = signature_overlap(sig_a.as_str(), sig_b.as_str());
                assert((threshold as u128) * all <= (u32::MAX as u128) * (2 * (u64::MAX as u128))) by (nonlinear_arith)
                    requires
                        all <= 2 * (u64::MAX as u128),
                ;
                if 10 * shared > 7 * all && 1000 * shared >= (threshold as u128) * all {
                    proof {
                        assert(first_fit(*a, to@, av, ts, threshold, (j + 1) as nat) == Some(j as int));
                        lemma_first_fit_stays(*a, to@, av, ts, threshold, (j + 1) as nat, add@.len());
                    }
                    return Some(j);
                }
            }
        }
        j += 1;
    }
    None
}

/// The renames from one entity list to another (see `rename_pairs`): for
/// each, the positions in `from` and in `to` and the reason, "structural
/// similarity: N%".
pub fn detect_renames(from: &Vec<EntityModel>, to: &Vec<EntityModel>, threshold_thousandths: u32) -> (r: Vec<
    (usize, usize, String),
>)
    ensures
        pair_views(r@) == rename_pairs(from@, to@, threshold_thousandths),
        forall|i: int| 0 <= i < r@.len() ==> (#[trigger] r@[i]).0 < from@.len() && r@[i].1 < to@.len(),
{
    let fk = entity_keys_exec(from);
    let tk = entity_keys_exec(to);
    let rem = missing_positions(&fk, &tk);
    let add = missing_positions(&tk, &fk);
    let ghost remv = missing_ix(strs(fk@), strs(tk@));
    let ghost addv = missing_ix(strs(tk@), strs(fk@));
    assert(ints(rem@) =~= remv);
    assert(ints(add@) =~= addv);
    assert(fk@.len() == from@.len() && tk@.len() == to@.len()) by {
        assert(strs(fk@).len() == fk@.len());
        assert(strs(tk@).len() == tk@.len());
    }
    let mut taken: Vec<bool> = Vec::new();
    let mut k: usize = 0;
    while k < add.len()
        invariant
            k <= add@.len(),
            taken@.len() == k,
            forall|j: int| 0 <= j < k ==> !(#[trigger] taken@[j]),
        decreases add@.len() - k,
    {
        taken.push(false);
        k += 1;
    }
    assert(taken_set(taken@) =~= Set::<int>::empty());
    let mut r: Vec<(usize, usize, String)> = Vec::new();
    let mut i: usize = 0;
    assert(remv.subrange(0, 0) =~= Seq::<int>::empty());
    assert(pair_views(r@) =~= Seq::<(int, int, Seq<char>)>::empty());
    while i < rem.len()
        invariant
            i <= rem@.len(),
            taken@.len() == add@.len(),
            ints(rem@) == remv,
            ints(add@) == addv,
            remv == missing_ix(entity_keys(from@), entity_keys(to@)),
            addv == missing_ix(entity_keys(to@), entity_keys(from@)),
            forall|j: int| 0 <= j < rem@.len() ==> (#[trigger] rem@[j]) < from@.len(),
            forall|j: int| 0 <= j < add@.len() ==> (#[trigger] add@[j] as int) < to@.len(),
            pair_views(r@) == rename_walk(from@, to@, remv.subrange(0, i as int), addv, threshold_thousandths).0,
            taken_set(taken@) == rename_walk(from@, to@, remv.subrange(0, i as int), addv, threshold_thousandths).1,
            forall|q: int| 0 <= q < r@.len() ==> (#[trigger] r@[q]).0 < from@.len() && r@[q].1 < to@.len(),
        decreases rem@.len() - i,
    {
        let ghost sub = remv.subrange(0, i + 1);
        let ghost prev = rename_walk(from@, to@, remv.subrange(0, i as int), addv, threshold_thousandths);
        assert(sub.drop_last() =~= remv.subrange(0, i as int));
        assert(sub.last() == rem@[i as int] as int);
        let a = &from[rem[i]];
        let sig_a = structural_signature(&a.fields);
        let found = first_fitting(a, &sig_a, to, &add, &taken, threshold_thousandths);
        proof {
            lemma_first_fit_found(*a, to@, addv, prev.1, threshold_thousandths, addv.len());
        }
        let ghost before = r@;
        match found {
            Some(j) => {
                let b = &to[add[j]];
                let sig_b = structural_signature(&b.fields);
                let (shared, all) = signature_overlap(sig_a.as_str(), sig_b.as_str());
                let pct = percent_of(shared, all);
                let digits = dec_string_wide(pct);
                let reason = cat3("structural similarity: ", digits.as_str(), "%");
                r.push((rem[i], add[j], reason));
                let ghost old_taken = taken@;
                taken.set(j, true);
                assert(taken_set(taken@) =~= taken_set(old_taken).insert(j as int));
                assert(pair_views(r@) =~= pair_views(before).push(
                    (rem@[i as int] as int, add@[j as int] as int, rename_reason(*a, to@[add@[j as int] as int])),
                ));
            },
            None => {},
        }
        i += 1;
    }
    assert(remv.subrange(0, rem@.len() as int) =~= remv);
    r
}

/// The changes from one model to another, with the renames that
/// `detect_renames` finds among its entities (see `model_changes_are`).
pub fn semantic_diff(from: &ModelShape, to: &ModelShape, threshold_thousandths: u32) -> (r: Vec<ChangeKind>)
    ensures
        exists|renamed: Seq<(usize, usize, String)>|
            #[trigger] pair_views(renamed) == rename_pairs(from.entities@, to.entities@, threshold_thousandths)
                && model_changes_are(*from, *to, renamed, r@),
{
    let renamed = detect_renames(&from.entities, &to.entities, threshold_thousandths);
    let r = diff_models(from, to, &renamed);
    assert(pair_views(renamed@) == rename_pairs(from.entities@, to.entities@, threshold_thousandths));
    r
}

} // verus!
