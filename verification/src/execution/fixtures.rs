//! Fixed response statuses for endpoints, keyed by upper-case method and
//! path.
use vstd::prelude::*;

use crate::text::{cat3, str_eq, upper, upper_seq};

verus! {

/// The key of an endpoint: `"{METHOD} {path}"`, the method in ASCII upper
/// case.
pub open spec fn fixture_key(method: Seq<char>, path: Seq<char>) -> Seq<char> {
    upper_seq(method) + " "@ + path
}

pub struct FixtureStore {
    entries: Vec<(String, u16)>,
}

pub open spec fn status_map(s: Seq<(String, u16)>) -> Map<Seq<char>, u16>
    decreases s.len(),
{
    if s.len() == 0 {
        Map::empty()
    } else {
        status_map(s.drop_last()).insert(s.last().0@, s.last().1)
    }
}

pub open spec fn distinct_keys(s: Seq<(String, u16)>) -> bool {
    forall|i: int, j: int| 0 <= i < j < s.len() ==> (#[trigger] s[i]).0@ != (#[trigger] s[j]).0@
}

proof fn lemma_status_map(s: Seq<(String, u16)>)
    requires
        distinct_keys(s),
    ensures
        forall|k: Seq<char>|
            #[trigger] status_map(s).dom().contains(k) <==> exists|i: int|
                0 <= i < s.len() && (#[trigger] s[i]).0@ == k,
        forall|i: int| 0 <= i < s.len() ==> status_map(s)[(#[trigger] s[i]).0@] == s[i].1,
    decreases s.len(),
{
    if s.len() > 0 {
        let t = s.drop_last();
        let last = s.last();
        assert(distinct_keys(t));
        lemma_status_map(t);
        assert forall|k: Seq<char>|
            #[trigger] status_map(s).dom().contains(k) <==> exists|i: int|
                0 <= i < s.len() && (#[trigger] s[i]).0@ == k by {
            if status_map(s).dom().contains(k) {
                if k == last.0@ {
                    assert(s[s.len() - 1].0@ == k);
                } else {
                    assert(status_map(t).dom().contains(k));
                    let i = choose|i: int| 0 <= i < t.len() && (#[trigger] t[i]).0@ == k;
                    assert(s[i] == t[i]);
                }
            }
            if exists|i: int| 0 <= i < s.len() && (#[trigger] s[i]).0@ == k {
                let i = choose|i: int| 0 <= i < s.len() && (#[trigger] s[i]).0@ == k;
                if i < s.len() - 1 {
                    assert(t[i] == s[i]);
                    assert(status_map(t).dom().contains(k));
                }
            }
        }
        assert forall|i: int| 0 <= i < s.len() implies status_map(s)[(#[trigger] s[i]).0@]
            == s[i].1 by {
            if i < s.len() - 1 {
                assert(t[i] == s[i]);
                assert(s[i].0@ != s[s.len() - 1].0@);
                assert(status_map(t)[t[i].0@] == t[i].1);
            }
        }
    }
}

impl FixtureStore {
    #[verifier::type_invariant]
    spec fn keys_distinct(self) -> bool {
        distinct_keys(self.entries@)
    }

    /// The fixed status of each endpoint key.
    pub closed spec fn statuses(self) -> Map<Seq<char>, u16> {
        status_map(self.entries@)
    }

    /// Fixes the status that `method path` answers with.
    pub fn set_status(&mut self, method: &str, path: &str, status: u16)
        ensures
            final(self).statuses() == old(self).statuses().insert(
                fixture_key(method@, path@),
                status,
            ),
    {
        proof {
            use_type_invariant(&*self);
        }
        let key = cat3(upper(method).as_str(), " ", path);
        assert(key@ == fixture_key(method@, path@));
        let ghost old_entries = self.entries@;
        let mut i: usize = 0;
        while i < self.entries.len()
            invariant
                i <= self.entries@.len(),
                self.entries@ == old_entries,
                distinct_keys(old_entries),
                status_map(old_entries) == old(self).statuses(),
                key@ == fixture_key(method@, path@),
                forall|k: int| 0 <= k < i ==> (#[trigger] old_entries[k]).0@ != key@,
            decreases self.entries.len() - i,
        {
            if str_eq(self.entries[i].0.as_str(), key.as_str()) {
                let mut entries = Vec::new();
                std::mem::swap(&mut entries, &mut self.entries);
                let ghost k0 = key@;
                entries.set(i, (key, status));
                let ghost s2 = entries@;
                proof {
                    lemma_status_map(old_entries);
                }
                assert(distinct_keys(s2)) by {
                    assert forall|a: int, b: int| 0 <= a < b < s2.len() implies (#[trigger] s2[a]).0@
                        != (#[trigger] s2[b]).0@ by {
                        if a != i && b != i {
                            assert(s2[a] == old_entries[a] && s2[b] == old_entries[b]);
                        } else if a == i {
                            assert(s2[b] == old_entries[b]);
                        } else {
                            assert(s2[a] == old_entries[a]);
                        }
                    }
                }
                proof {
                    lemma_status_map(s2);
                    assert(status_map(s2) =~= status_map(old_entries).insert(k0, status)) by {
                        assert forall|k: Seq<char>| #[trigger] status_map(s2).dom().contains(k)
                            <==> status_map(old_entries).insert(k0, status).dom().contains(k) by {
                            if exists|j: int| 0 <= j < old_entries.len() && (#[trigger] old_entries[j]).0@ == k {
                                let j = choose|j: int| 0 <= j < old_entries.len() && (#[trigger] old_entries[j]).0@ == k;
                                if j != i {
                                    assert(s2[j] == old_entries[j]);
                                }
                            }
                            if exists|j: int| 0 <= j < s2.len() && (#[trigger] s2[j]).0@ == k {
                                let j = choose|j: int| 0 <= j < s2.len() && (#[trigger] s2[j]).0@ == k;
                                if j != i {
                                    assert(s2[j] == old_entries[j]);
                                }
                            }
                            assert(s2[i as int].0@ == k0);
                        }
                        assert forall|k: Seq<char>| #[trigger] status_map(s2).dom().contains(k)
                            implies status_map(s2)[k] == status_map(old_entries).insert(k0, status)[k] by {
                            let j = choose|j: int| 0 <= j < s2.len() && (#[trigger] s2[j]).0@ == k;
                            if j != i {
                                assert(s2[j] == old_entries[j]);
                            }
                        }
                    }
                }
                self.entries = entries;
                return;
            }
            i += 1;
        }
        let ghost before = self.entries@;
        let ghost k0 = key@;
        let mut entries = Vec::new();
        std::mem::swap(&mut entries, &mut self.entries);
        entries.push((key, status));
        assert(entries@.drop_last() =~= before);
        assert(distinct_keys(entries@)) by {
            assert forall|a: int, b: int| 0 <= a < b < entries@.len() implies (
            #[trigger] entries@[a]).0@ != (#[trigger] entries@[b]).0@ by {
                if b == before.len() {
                    assert(entries@[a] == before[a]);
                } else {
                    assert(entries@[a] == before[a] && entries@[b] == before[b]);
                }
            }
        }
        self.entries = entries;
    }

    /// The status fixed for `method path`, if any.
    pub fn status_for(&self, method: &str, path: &str) -> (r: Option<u16>)
        ensures
            r == (if self.statuses().dom().contains(fixture_key(method@, path@)) {
                Some(self.statuses()[fixture_key(method@, path@)])
            } else {
                None
            }),
    {
        proof {
            use_type_invariant(self);
            lemma_status_map(self.entries@);
        }
        let key = cat3(upper(method).as_str(), " ", path);
        let mut i: usize = 0;
        while i < self.entries.len()
            invariant
                i <= self.entries@.len(),
                key@ == fixture_key(method@, path@),
                forall|k: int| 0 <= k < i ==> (#[trigger] self.entries@[k]).0@ != key@,
            decreases self.entries.len() - i,
        {
            if str_eq(self.entries[i].0.as_str(), key.as_str()) {
                proof {
                    use_type_invariant(self);
                    lemma_status_map(self.entries@);
                }
                return Some(self.entries[i].1);
            }
            i += 1;
        }
        None
    }
}

impl Default for FixtureStore {
    fn default() -> (r: Self)
        ensures
            r.statuses() == Map::<Seq<char>, u16>::empty(),
    {
        FixtureStore { entries: Vec::new() }
    }
}

/// After `set_status`, a store answers the status just fixed for that
/// endpoint key, and every other key keeps its status.
pub proof fn law_status_after_set(
    before: FixtureStore,
    after: FixtureStore,
    method: Seq<char>,
    path: Seq<char>,
    status: u16,
    other: Seq<char>,
)
    requires
        after.statuses() == before.statuses().insert(fixture_key(method, path), status),
        other != fixture_key(method, path),
    ensures
        after.statuses().dom().contains(fixture_key(method, path)),
        after.statuses()[fixture_key(method, path)] == status,
        after.statuses().dom().contains(other) == before.statuses().dom().contains(other),
        before.statuses().dom().contains(other) ==> after.statuses()[other] == before.statuses()[other],
{
}

} // verus!
