//! A map keyed by strings: each key once, with the value last stored under
//! it.
use vstd::prelude::*;

use crate::text::str_eq;

verus! {

pub struct StrTable<V> {
    entries: Vec<(String, V)>,
}

pub open spec fn table_map<V: View>(s: Seq<(String, V)>) -> Map<Seq<char>, V::V>
    decreases s.len(),
{
    if s.len() == 0 {
        Map::empty()
    } else {
        table_map(s.drop_last()).insert(s.last().0@, s.last().1@)
    }
}

pub open spec fn keys_unique<V>(s: Seq<(String, V)>) -> bool {
    forall|i: int, j: int| 0 <= i < j < s.len() ==> (#[trigger] s[i]).0@ != (#[trigger] s[j]).0@
}

proof fn lemma_table_map<V: View>(s: Seq<(String, V)>)
    requires
        keys_unique(s),
    ensures
        forall|k: Seq<char>|
            #[trigger] table_map(s).dom().contains(k) <==> exists|i: int|
                0 <= i < s.len() && (#[trigger] s[i]).0@ == k,
        forall|i: int| 0 <= i < s.len() ==> table_map(s)[(#[trigger] s[i]).0@] == s[i].1@,
    decreases s.len(),
{
    if s.len() > 0 {
        let t = s.drop_last();
        let last = s.last();
        assert(keys_unique(t));
        lemma_table_map(t);
        assert forall|k: Seq<char>|
            #[trigger] table_map(s).dom().contains(k) <==> exists|i: int|
                0 <= i < s.len() && (#[trigger] s[i]).0@ == k by {
            if table_map(s).dom().contains(k) {
                if k == last.0@ {
                    assert(s[s.len() - 1].0@ == k);
                } else {
                    assert(table_map(t).dom().contains(k));
                    let i = choose|i: int| 0 <= i < t.len() && (#[trigger] t[i]).0@ == k;
                    assert(s[i] == t[i]);
                }
            }
            if exists|i: int| 0 <= i < s.len() && (#[trigger] s[i]).0@ == k {
                let i = choose|i: int| 0 <= i < s.len() && (#[trigger] s[i]).0@ == k;
                if i < s.len() - 1 {
                    assert(t[i] == s[i]);
                    assert(table_map(t).dom().contains(k));
                }
            }
        }
        assert forall|i: int| 0 <= i < s.len() implies table_map(s)[(#[trigger] s[i]).0@]
            == s[i].1@ by {
            if i < s.len() - 1 {
                assert(t[i] == s[i]);
                assert(s[i].0@ != s[s.len() - 1].0@);
                assert(table_map(t)[t[i].0@] == t[i].1@);
            }
        }
    }
}

/// Replacing the entry at `i` (same key) changes only that key's value.
proof fn lemma_table_update<V: View>(s: Seq<(String, V)>, i: int, e: (String, V))
    requires
        keys_unique(s),
        0 <= i < s.len(),
        e.0@ == s[i].0@,
    ensures
        keys_unique(s.update(i, e)),
        table_map(s.update(i, e)) == table_map(s).insert(e.0@, e.1@),
{
    let s2 = s.update(i, e);
    assert forall|a: int, b: int| 0 <= a < b < s2.len() implies (#[trigger] s2[a]).0@ != (
    #[trigger] s2[b]).0@ by {
        if a != i && b != i {
            assert(s2[a] == s[a] && s2[b] == s[b]);
        } else if a == i {
            assert(s2[b] == s[b]);
        } else {
            assert(s2[a] == s[a]);
        }
    }
    lemma_table_map(s);
    lemma_table_map(s2);
    let m = table_map(s).insert(e.0@, e.1@);
    assert forall|k: Seq<char>| #[trigger] table_map(s2).dom().contains(k) <==> m.dom().contains(k) by {
        if exists|j: int| 0 <= j < s.len() && (#[trigger] s[j]).0@ == k {
            let j = choose|j: int| 0 <= j < s.len() && (#[trigger] s[j]).0@ == k;
            if j != i {
                assert(s2[j] == s[j]);
            }
        }
        if exists|j: int| 0 <= j < s2.len() && (#[trigger] s2[j]).0@ == k {
            let j = choose|j: int| 0 <= j < s2.len() && (#[trigger] s2[j]).0@ == k;
            if j != i {
                assert(s2[j] == s[j]);
            }
        }
        assert(s2[i] == e);
    }
    assert forall|k: Seq<char>| #[trigger] table_map(s2).dom().contains(k) implies table_map(s2)[k]
        == m[k] by {
        let j = choose|j: int| 0 <= j < s2.len() && (#[trigger] s2[j]).0@ == k;
        if j != i {
            assert(s2[j] == s[j]);
        }
    }
    assert(table_map(s2) =~= m);
}

/// Removing the entry at `i` removes only its key.
proof fn lemma_table_remove<V: View>(s: Seq<(String, V)>, i: int)
    requires
        keys_unique(s),
        0 <= i < s.len(),
    ensures
        keys_unique(s.remove(i)),
        table_map(s.remove(i)) == table_map(s).remove(s[i].0@),
{
    let s2 = s.remove(i);
    assert forall|a: int, b: int| 0 <= a < b < s2.len() implies (#[trigger] s2[a]).0@ != (
    #[trigger] s2[b]).0@ by {
        let a0 = if a < i { a } else { a + 1 };
        let b0 = if b < i { b } else { b + 1 };
        assert(s2[a] == s[a0] && s2[b] == s[b0]);
    }
    lemma_table_map(s);
    lemma_table_map(s2);
    let m = table_map(s).remove(s[i].0@);
    assert forall|k: Seq<char>| #[trigger] table_map(s2).dom().contains(k) <==> m.dom().contains(k) by {
        if exists|j: int| 0 <= j < s.len() && (#[trigger] s[j]).0@ == k {
            let j = choose|j: int| 0 <= j < s.len() && (#[trigger] s[j]).0@ == k;
            if j < i {
                assert(s2[j] == s[j]);
            } else if j > i {
                assert(s2[j - 1] == s[j]);
            }
        }
        if exists|j: int| 0 <= j < s2.len() && (#[trigger] s2[j]).0@ == k {
            let j = choose|j: int| 0 <= j < s2.len() && (#[trigger] s2[j]).0@ == k;
            let j0 = if j < i { j } else { j + 1 };
            assert(s2[j] == s[j0]);
        }
    }
    assert forall|k: Seq<char>| #[trigger] table_map(s2).dom().contains(k) implies table_map(s2)[k]
        == m[k] by {
        let j = choose|j: int| 0 <= j < s2.len() && (#[trigger] s2[j]).0@ == k;
        let j0 = if j < i { j } else { j + 1 };
        assert(s2[j] == s[j0]);
    }
    assert(table_map(s2) =~= m);
}

impl<V> StrTable<V> {
    #[verifier::type_invariant]
    spec fn unique(self) -> bool {
        keys_unique(self.entries@)
    }
}

impl<V: View> StrTable<V> {
    /// The value stored under each key.
    pub closed spec fn map(self) -> Map<Seq<char>, V::V> {
        table_map(self.entries@)
    }

    /// The keys in table order (the order in which they were first stored,
    /// less those removed).
    pub closed spec fn keys(self) -> Seq<Seq<char>> {
        self.entries@.map_values(|e: (String, V)| e.0@)
    }

    pub fn new() -> (r: Self)
        ensures
            r.map() == Map::<Seq<char>, V::V>::empty(),
            r.keys().len() == 0,
    {
        StrTable { entries: Vec::new() }
    }

    /// The number of keys; every key is stored once in the table order, and
    /// only keys are stored.
    pub fn len(&self) -> (r: usize)
        ensures
            r == self.keys().len(),
            forall|k: Seq<char>| #[trigger] self.map().dom().contains(k) <==> self.keys().contains(k),
            forall|i: int, j: int| 0 <= i < j < self.keys().len() ==> self.keys()[i] != self.keys()[j],
    {
        proof {
            use_type_invariant(self);
            lemma_table_map(self.entries@);
            assert forall|k: Seq<char>| #[trigger] self.map().dom().contains(k) <==> self.keys().contains(k) by {
                if self.map().dom().contains(k) {
                    let i = choose|i: int| 0 <= i < self.entries@.len() && (#[trigger] self.entries@[i]).0@ == k;
                    assert(self.keys()[i] == k);
                }
                if self.keys().contains(k) {
                    let i = choose|i: int| 0 <= i < self.keys().len() && self.keys()[i] == k;
                    assert(self.entries@[i].0@ == k);
                }
            }
            assert forall|i: int, j: int| 0 <= i < j < self.keys().len() implies self.keys()[i] != self.keys()[j] by {
                assert(self.keys()[i] == self.entries@[i].0@ && self.keys()[j] == self.entries@[j].0@);
            }
        }
        self.entries.len()
    }

    /// The key and value at position `i` of the table order.
    pub fn entry_at(&self, i: usize) -> (r: (&String, &V))
        requires
            i < self.keys().len(),
        ensures
            r.0@ == self.keys()[i as int],
            self.map().dom().contains(r.0@),
            r.1@ == self.map()[r.0@],
    {
        proof {
            use_type_invariant(self);
            lemma_table_map(self.entries@);
        }
        let e = &self.entries[i];
        (&e.0, &e.1)
    }

    fn find(&self, key: &str) -> (r: Option<usize>)
        ensures
            match r {
                Some(i) => i < self.entries@.len() && self.entries@[i as int].0@ == key@,
                None => forall|j: int| 0 <= j < self.entries@.len() ==> (#[trigger] self.entries@[j]).0@ != key@,
            },
    {
        let mut i: usize = 0;
        while i < self.entries.len()
            invariant
                i <= self.entries@.len(),
                forall|j: int| 0 <= j < i ==> (#[trigger] self.entries@[j]).0@ != key@,
            decreases self.entries.len() - i,
        {
            if str_eq(self.entries[i].0.as_str(), key) {
                return Some(i);
            }
            i += 1;
        }
        None
    }

    /// The value stored under `key`, if any.
    pub fn get(&self, key: &str) -> (r: Option<&V>)
        ensures
            match r {
                Some(v) => self.map().dom().contains(key@) && v@ == self.map()[key@],
                None => !self.map().dom().contains(key@),
            },
    {
        proof {
            use_type_invariant(self);
            lemma_table_map(self.entries@);
        }
        match self.find(key) {
            Some(i) => Some(&self.entries[i].1),
            None => None,
        }
    }

    /// Stores `value` under `key`, replacing what was stored there.
    pub fn insert(&mut self, key: String, value: V)
        ensures
            final(self).map() == old(self).map().insert(key@, value@),
    {
        proof {
            use_type_invariant(&*self);
        }
        let ghost s = self.entries@;
        let found = self.find(key.as_str());
        let mut entries = Vec::new();
        std::mem::swap(&mut entries, &mut self.entries);
        let ghost k = key@;
        let ghost v = value@;
        match found {
            Some(i) => {
                let e = (key, value);
                proof {
                    lemma_table_update(s, i as int, e);
                }
                entries.set(i, e);
            },
            None => {
                let e = (key, value);
                entries.push(e);
                assert(entries@.drop_last() =~= s);
                assert(keys_unique(entries@)) by {
                    assert forall|a: int, b: int| 0 <= a < b < entries@.len() implies (
                    #[trigger] entries@[a]).0@ != (#[trigger] entries@[b]).0@ by {
                        assert(entries@[a] == s[a]);
                        if b < s.len() {
                            assert(entries@[b] == s[b]);
                        }
                    }
                }
            },
        }
        self.entries = entries;
    }

    /// Removes what is stored under `key`, and hands it back.
    pub fn remove(&mut self, key: &str) -> (r: Option<V>)
        ensures
            final(self).map() == old(self).map().remove(key@),
            match r {
                Some(v) => old(self).map().dom().contains(key@) && v@ == old(self).map()[key@],
                None => !old(self).map().dom().contains(key@),
            },
    {
        proof {
            use_type_invariant(&*self);
            lemma_table_map(self.entries@);
        }
        let ghost s = self.entries@;
        match self.find(key) {
            None => {
                assert(self.map() =~= self.map().remove(key@));
                None
            },
            Some(i) => {
                let mut entries = Vec::new();
                std::mem::swap(&mut entries, &mut self.entries);
                proof {
                    lemma_table_remove(s, i as int);
                }
                let e = entries.remove(i);
                self.entries = entries;
                Some(e.1)
            },
        }
    }
}

} // verus!
