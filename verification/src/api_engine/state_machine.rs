//! Resource state machines discovered from event names, and a tracker of the
//! current state of each resource instance.
use vstd::prelude::*;

use crate::strset::{contains_string, insert_sorted, lemma_sorted_strs, lemma_sorted_strs_of, sorted_strs};
use crate::text::{lower, lower_seq, owned, split, split_seq, str_eq, strictly_sorted, strs};

verus! {

/// The states reachable in one step from `from`, as a sorted set.
#[derive(Debug, Clone, PartialEq, Eq)]
pub struct Transitions {
    pub from: String,
    pub to: Vec<String>,
}

/// A resource's state machine: for each state, the states that may follow
/// it; the source states are kept sorted and distinct.
#[derive(Debug, Clone, PartialEq, Eq)]
pub struct StateMachine {
    pub resource: String,
    pub transitions: Vec<Transitions>,
}

pub open spec fn sources_of(t: Seq<Transitions>) -> Seq<Seq<char>> {
    t.map_values(|x: Transitions| x.from@)
}

impl StateMachine {
    /// Whether the machine allows a step from `from` to `to`.
    pub open spec fn allows(self, from: Seq<char>, to: Seq<char>) -> bool {
        exists|i: int|
            0 <= i < self.transitions@.len() && (#[trigger] self.transitions@[i]).from@ == from
                && strs(self.transitions@[i].to@).contains(to)
    }

    /// Some entry lists `to` among the successors of `from`.
    pub fn can_transition(&self, from: &str, to: &str) -> (r: bool)
        ensures
            r == self.allows(from@, to@),
    {
        let mut i: usize = 0;
        while i < self.transitions.len()
            invariant
                i <= self.transitions.len(),
                forall|k: int|
                    0 <= k < i ==> !((#[trigger] self.transitions@[k]).from@ == from@ && strs(
                        self.transitions@[k].to@,
                    ).contains(to@)),
            decreases self.transitions.len() - i,
        {
            let t = &self.transitions[i];
            if str_eq(t.from.as_str(), from) && contains_string(&t.to, to) {
                return true;
            }
            i += 1;
        }
        false
    }
}

/// The state an event name ends in: its last `_`-separated part, in ASCII
/// lowercase (`ORDER_CREATED` is `created`).
pub open spec fn state_of(event: Seq<char>) -> Seq<char> {
    lower_seq(split_seq(event, '_').last())
}

/// The states of a list of events, with immediate repetitions dropped.
pub open spec fn states_of(events: Seq<Seq<char>>) -> Seq<Seq<char>>
    decreases events.len(),
{
    if events.len() == 0 {
        Seq::empty()
    } else {
        let prev = states_of(events.drop_last());
        let s = state_of(events.last());
        if prev.len() > 0 && prev.last() == s {
            prev
        } else {
            prev.push(s)
        }
    }
}

/// The states that some state follows.
pub open spec fn step_sources(states: Seq<Seq<char>>) -> Set<Seq<char>> {
    Set::new(|k: Seq<char>| exists|i: int| 0 <= i < states.len() - 1 && #[trigger] states[i] == k)
}

/// The states that follow `from`.
pub open spec fn step_targets(states: Seq<Seq<char>>, from: Seq<char>) -> Set<Seq<char>> {
    Set::new(
        |t: Seq<char>|
            exists|i: int| 0 <= i < states.len() - 1 && #[trigger] states[i] == from && states[i + 1] == t,
    )
}

proof fn lemma_steps_finite(states: Seq<Seq<char>>, from: Seq<char>)
    ensures
        step_sources(states).finite(),
        step_targets(states, from).finite(),
{
    assert(step_sources(states) <= states.to_set()) by {
        assert forall|k: Seq<char>| step_sources(states).contains(k) implies states.to_set().contains(k) by {
            let i = choose|i: int| 0 <= i < states.len() - 1 && #[trigger] states[i] == k;
            assert(states[i] == k);
        }
    }
    assert(step_targets(states, from) <= states.to_set()) by {
        assert forall|t: Seq<char>| step_targets(states, from).contains(t) implies states.to_set().contains(t) by {
            let i = choose|i: int| 0 <= i < states.len() - 1 && #[trigger] states[i] == from && states[i + 1] == t;
            assert(states[i + 1] == t);
        }
    }
    vstd::seq_lib::seq_to_set_is_finite(states);
    vstd::set_lib::lemma_len_subset(step_sources(states), states.to_set());
    vstd::set_lib::lemma_len_subset(step_targets(states, from), states.to_set());
}

/// The state an event ends in.
fn event_state(event: &str) -> (r: String)
    ensures
        r@ == state_of(event@),
{
    let parts = split(event, '_');
    proof {
        crate::text::lemma_split_nonempty(event@, crate::text::sep_fn(false, '_'));
    }
    let last = parts.len() - 1;
    assert(strs(parts@)[last as int] == parts@[last as int]@);
    lower(parts[last].as_str())
}

/// Discovers the state machine of `resource` from events in order: each
/// event's state (see `state_of`, repetitions dropped) may follow the one
/// before it.
pub fn discover_state_machine(resource: &str, events: &Vec<String>) -> (m: StateMachine)
    ensures
        m.resource@ == resource@,
        sources_of(m.transitions@) == sorted_strs(step_sources(states_of(strs(events@)))),
        forall|j: int|
            0 <= j < m.transitions@.len() ==> strs((#[trigger] m.transitions@[j]).to@)
                == sorted_strs(step_targets(states_of(strs(events@)), m.transitions@[j].from@)),
{
    let ghost evs = strs(events@);
    let mut states: Vec<String> = Vec::new();
    let mut i: usize = 0;
    while i < events.len()
        invariant
            i <= events.len(),
            evs == strs(events@),
            strs(states@) == states_of(evs.subrange(0, i as int)),
        decreases events.len() - i,
    {
        let ghost t = evs.subrange(0, i + 1);
        assert(t.drop_last() =~= evs.subrange(0, i as int));
        assert(t.last() == events@[i as int]@);
        let s = event_state(events[i].as_str());
        let n = states.len();
        if n == 0 || !str_eq(states[n - 1].as_str(), s.as_str()) {
            let ghost before = states@;
            states.push(s);
            assert(strs(states@) =~= strs(before).push(s@));
        }
        i += 1;
    }
    assert(evs.subrange(0, evs.len() as int) =~= evs);
    let ghost st = strs(states@);
    // the source states, sorted
    let mut keys: Vec<String> = Vec::new();
    let mut a: usize = 0;
    while a < states.len() && a + 1 < states.len()
        invariant
            a <= states.len(),
            st == strs(states@),
            strictly_sorted(strs(keys@)),
            strs(keys@).to_set() == Set::new(
                |k: Seq<char>| exists|q: int| 0 <= q < a && q < st.len() - 1 && #[trigger] st[q] == k,
            ),
        decreases states.len() - a,
    {
        insert_sorted(&mut keys, states[a].clone());
        assert(strs(keys@).to_set() =~= Set::new(
            |k: Seq<char>| exists|q: int| 0 <= q < a + 1 && q < st.len() - 1 && #[trigger] st[q] == k,
        )) by {
            assert(st[a as int] == states@[a as int]@);
        }
        a += 1;
    }
    assert(strs(keys@).to_set() =~= step_sources(st));
    proof {
        lemma_steps_finite(st, Seq::empty());
        lemma_sorted_strs(strs(keys@), step_sources(st));
    }
    let mut transitions: Vec<Transitions> = Vec::new();
    let mut b: usize = 0;
    while b < keys.len()
        invariant
            b <= keys.len(),
            st == strs(states@),
            strs(keys@) == sorted_strs(step_sources(st)),
            transitions@.len() == b,
            forall|j: int| 0 <= j < b ==> (#[trigger] transitions@[j]).from@ == keys@[j]@,
            forall|j: int|
                0 <= j < b ==> strs((#[trigger] transitions@[j]).to@) == sorted_strs(
                    step_targets(st, transitions@[j].from@),
                ),
        decreases keys.len() - b,
    {
        let from = &keys[b];
        let mut targets: Vec<String> = Vec::new();
        let mut c: usize = 0;
        while c < states.len() && c + 1 < states.len()
            invariant
                c <= states.len(),
                st == strs(states@),
                strictly_sorted(strs(targets@)),
                strs(targets@).to_set() == Set::new(
                    |t: Seq<char>|
                        exists|q: int|
                            0 <= q < c && q < st.len() - 1 && #[trigger] st[q] == from@ && st[q
                                + 1] == t,
                ),
            decreases states.len() - c,
        {
            assert(st[c as int] == states@[c as int]@);
            assert(st[c + 1] == states@[c + 1]@);
            if str_eq(states[c].as_str(), from.as_str()) {
                insert_sorted(&mut targets, states[c + 1].clone());
            }
            assert(strs(targets@).to_set() =~= Set::new(
                |t: Seq<char>|
                    exists|q: int|
                        0 <= q < c + 1 && q < st.len() - 1 && #[trigger] st[q] == from@ && st[q
                            + 1] == t,
            ));
            c += 1;
        }
        assert(strs(targets@).to_set() =~= step_targets(st, from@));
        proof {
            lemma_steps_finite(st, from@);
            lemma_sorted_strs(strs(targets@), step_targets(st, from@));
        }
        transitions.push(Transitions { from: from.clone(), to: targets });
        b += 1;
    }
    assert(sources_of(transitions@) =~= strs(keys@));
    StateMachine { resource: owned(resource), transitions }
}

/// The machine discovered from a list of events allows exactly the steps
/// between consecutive states of the events (repetitions dropped).
pub proof fn law_allows_exactly_the_event_steps(
    m: StateMachine,
    events: Seq<Seq<char>>,
    from: Seq<char>,
    to: Seq<char>,
)
    requires
        sources_of(m.transitions@) == sorted_strs(step_sources(states_of(events))),
        forall|j: int|
            0 <= j < m.transitions@.len() ==> strs((#[trigger] m.transitions@[j]).to@) == sorted_strs(
                step_targets(states_of(events), m.transitions@[j].from@),
            ),
    ensures
        m.allows(from, to) <==> exists|i: int|
            0 <= i < states_of(events).len() - 1 && #[trigger] states_of(events)[i] == from
                && states_of(events)[i + 1] == to,
{
    let st = states_of(events);
    let srcs = sources_of(m.transitions@);
    lemma_steps_finite(st, from);
    lemma_sorted_strs_of(step_sources(st));
    lemma_sorted_strs_of(step_targets(st, from));
    if exists|i: int| 0 <= i < st.len() - 1 && #[trigger] st[i] == from && st[i + 1] == to {
        let i = choose|i: int| 0 <= i < st.len() - 1 && #[trigger] st[i] == from && st[i + 1] == to;
        assert(step_sources(st).contains(from));
        assert(srcs.to_set().contains(from));
        assert(srcs.contains(from));
        let j = choose|j: int| 0 <= j < srcs.len() && srcs[j] == from;
        assert(m.transitions@[j].from@ == from);
        assert(step_targets(st, from).contains(to));
        assert(strs(m.transitions@[j].to@).to_set().contains(to));
        assert(strs(m.transitions@[j].to@).contains(to));
        assert(m.allows(from, to));
    }
    if m.allows(from, to) {
        let j = choose|j: int|
            0 <= j < m.transitions@.len() && (#[trigger] m.transitions@[j]).from@ == from && strs(
                m.transitions@[j].to@,
            ).contains(to);
        assert(strs(m.transitions@[j].to@).to_set().contains(to));
        assert(step_targets(st, from).contains(to));
    }
}

// ---------------------------------------------------------------------------
// Tracking the current state of resource instances
// ---------------------------------------------------------------------------

/// The last recorded state of each (resource, id).
pub struct StateTracker {
    entries: Vec<(String, String, String)>,
}

pub open spec fn entry_key(e: (String, String, String)) -> (Seq<char>, Seq<char>) {
    (e.0@, e.1@)
}

/// The states recorded in a list of entries (a later entry of a key wins).
pub open spec fn entries_map(s: Seq<(String, String, String)>) -> Map<(Seq<char>, Seq<char>), Seq<char>>
    decreases s.len(),
{
    if s.len() == 0 {
        Map::empty()
    } else {
        entries_map(s.drop_last()).insert(entry_key(s.last()), s.last().2@)
    }
}

pub open spec fn unique_keys(s: Seq<(String, String, String)>) -> bool {
    forall|i: int, j: int|
        0 <= i < j < s.len() ==> entry_key(#[trigger] s[i]) != entry_key(#[trigger] s[j])
}

proof fn lemma_entries_map(s: Seq<(String, String, String)>)
    requires
        unique_keys(s),
    ensures
        forall|k: (Seq<char>, Seq<char>)|
            #[trigger] entries_map(s).dom().contains(k) <==> exists|i: int|
                0 <= i < s.len() && entry_key(#[trigger] s[i]) == k,
        forall|i: int| 0 <= i < s.len() ==> entries_map(s)[entry_key(#[trigger] s[i])] == s[i].2@,
    decreases s.len(),
{
    if s.len() > 0 {
        let t = s.drop_last();
        let last = s.last();
        assert(unique_keys(t));
        lemma_entries_map(t);
        assert forall|k: (Seq<char>, Seq<char>)|
            #[trigger] entries_map(s).dom().contains(k) <==> exists|i: int|
                0 <= i < s.len() && entry_key(#[trigger] s[i]) == k by {
            if entries_map(s).dom().contains(k) {
                if k == entry_key(last) {
                    assert(entry_key(s[s.len() - 1]) == k);
                } else {
                    assert(entries_map(t).dom().contains(k));
                    let i = choose|i: int| 0 <= i < t.len() && entry_key(#[trigger] t[i]) == k;
                    assert(s[i] == t[i]);
                    assert(entry_key(s[i]) == k);
                }
            }
            if exists|i: int| 0 <= i < s.len() && entry_key(#[trigger] s[i]) == k {
                let i = choose|i: int| 0 <= i < s.len() && entry_key(#[trigger] s[i]) == k;
                if i < s.len() - 1 {
                    assert(t[i] == s[i]);
                    assert(entry_key(t[i]) == k);
                    assert(entries_map(t).dom().contains(k));
                }
            }
        }
        assert forall|i: int| 0 <= i < s.len() implies entries_map(s)[entry_key(#[trigger] s[i])]
            == s[i].2@ by {
            if i < s.len() - 1 {
                assert(t[i] == s[i]);
                assert(entry_key(s[i]) != entry_key(s[s.len() - 1]));
                assert(entries_map(t)[entry_key(t[i])] == t[i].2@);
            }
        }
    }
}

/// Whether an entry is recorded for `(resource, id)`.
fn key_matches(e: &(String, String, String), resource: &str, id: &str) -> (r: bool)
    ensures
        r == (entry_key(*e) == (resource@, id@)),
{
    let a = str_eq(e.0.as_str(), resource);
    let b = str_eq(e.1.as_str(), id);
    proof {
        if !a {
            assert(entry_key(*e).0 != resource@);
        }
        if !b {
            assert(entry_key(*e).1 != id@);
        }
    }
    a && b
}

impl StateTracker {
    #[verifier::type_invariant]
    spec fn keys_unique(self) -> bool {
        unique_keys(self.entries@)
    }

    /// The recorded state of each (resource, id).
    pub closed spec fn states(self) -> Map<(Seq<char>, Seq<char>), Seq<char>> {
        entries_map(self.entries@)
    }

    /// Records `state` as the current state of `(resource, id)`.
    pub fn remember(&mut self, resource: &str, id: &str, state: &str)
        ensures
            final(self).states() == old(self).states().insert((resource@, id@), state@),
    {
        proof {
            use_type_invariant(&*self);
            lemma_entries_map(self.entries@);
        }
        let ghost old_entries = self.entries@;
        let ghost key = (resource@, id@);
        let mut i: usize = 0;
        while i < self.entries.len()
            invariant
                i <= self.entries@.len(),
                self.entries@ == old_entries,
                key == (resource@, id@),
                unique_keys(old_entries),
                entries_map(old_entries) == old(self).states(),
                forall|k: int| 0 <= k < i ==> entry_key(#[trigger] old_entries[k]) != key,
            decreases self.entries.len() - i,
        {
            if key_matches(&self.entries[i], resource, id) {
                let e = (owned(resource), owned(id), owned(state));
                let mut entries = Vec::new();
                std::mem::swap(&mut entries, &mut self.entries);
                entries.set(i, e);
                let ghost s2 = entries@;
                proof {
                    lemma_entries_map(old_entries);
                }
                assert(unique_keys(s2)) by {
                    assert forall|a: int, b: int| 0 <= a < b < s2.len() implies entry_key(
                        #[trigger] s2[a],
                    ) != entry_key(#[trigger] s2[b]) by {
                        if a != i && b != i {
                            assert(s2[a] == old_entries[a] && s2[b] == old_entries[b]);
                        } else if a == i {
                            assert(s2[b] == old_entries[b]);
                            assert(entry_key(old_entries[a]) == key);
                        } else {
                            assert(s2[a] == old_entries[a]);
                            assert(entry_key(old_entries[b]) == key);
                        }
                    }
                }
                proof {
                    lemma_entries_map(s2);
                    assert(entries_map(s2) =~= entries_map(old_entries).insert(key, state@)) by {
                        assert forall|k: (Seq<char>, Seq<char>)| #[trigger] entries_map(s2).dom().contains(k)
                            <==> entries_map(old_entries).insert(key, state@).dom().contains(k) by {
                            if exists|j: int| 0 <= j < old_entries.len() && entry_key(#[trigger] old_entries[j]) == k {
                                let j = choose|j: int| 0 <= j < old_entries.len() && entry_key(#[trigger] old_entries[j]) == k;
                                if j != i {
                                    assert(s2[j] == old_entries[j]);
                                }
                            }
                            if exists|j: int| 0 <= j < s2.len() && entry_key(#[trigger] s2[j]) == k {
                                let j = choose|j: int| 0 <= j < s2.len() && entry_key(#[trigger] s2[j]) == k;
                                if j != i {
                                    assert(s2[j] == old_entries[j]);
                                }
                            }
                            assert(entry_key(s2[i as int]) == key);
                        }
                        assert forall|k: (Seq<char>, Seq<char>)| #[trigger] entries_map(s2).dom().contains(k)
                            implies entries_map(s2)[k] == entries_map(old_entries).insert(key, state@)[k] by {
                            let j = choose|j: int| 0 <= j < s2.len() && entry_key(#[trigger] s2[j]) == k;
                            if j != i {
                                assert(s2[j] == old_entries[j]);
                            }
                        }
                    }
                }
                self.entries = entries;
                return;
            }
            i += 1;
        }
        let ghost before = self.entries@;
        let e = (owned(resource), owned(id), owned(state));
        let mut entries = Vec::new();
        std::mem::swap(&mut entries, &mut self.entries);
        entries.push(e);
        assert(entries@ == before.push(e));
        assert(entries@.drop_last() =~= before);
        assert(unique_keys(entries@)) by {
            assert forall|a: int, b: int| 0 <= a < b < entries@.len() implies entry_key(
                #[trigger] entries@[a],
            ) != entry_key(#[trigger] entries@[b]) by {
                if b == before.len() {
                    assert(entries@[a] == before[a]);
                } else {
                    assert(entries@[a] == before[a] && entries@[b] == before[b]);
                }
            }
        }
        self.entries = entries;
    }

    /// The recorded state of `(resource, id)`, if any.
    pub fn current_state(&self, resource: &str, id: &str) -> (r: Option<&str>)
        ensures
            match r {
                Some(s) => self.states().dom().contains((resource@, id@)) && s@ == self.states()[(
                    resource@,
                    id@,
                )],
                None => !self.states().dom().contains((resource@, id@)),
            },
    {
        proof {
            use_type_invariant(self);
            lemma_entries_map(self.entries@);
        }
        let mut i: usize = 0;
        while i < self.entries.len()
            invariant
                i <= self.entries@.len(),
                forall|k: int| 0 <= k < i ==> entry_key(#[trigger] self.entries@[k]) != (resource@, id@),
            decreases self.entries.len() - i,
        {
            if key_matches(&self.entries[i], resource, id) {
                proof {
                    use_type_invariant(self);
                    lemma_entries_map(self.entries@);
                }
                assert(self.states()[entry_key(self.entries@[i as int])] == self.entries@[i as int].2@);
                return Some(self.entries[i].2.as_str());
            }
            i += 1;
        }
        None
    }
}

impl Default for StateTracker {
    fn default() -> (r: Self)
        ensures
            r.states() == Map::<(Seq<char>, Seq<char>), Seq<char>>::empty(),
    {
        StateTracker { entries: Vec::new() }
    }
}

/// After `remember`, a tracker answers the state just recorded for that
/// instance, and every other instance keeps its state.
pub proof fn law_state_after_remember(
    before: StateTracker,
    after: StateTracker,
    resource: Seq<char>,
    id: Seq<char>,
    state: Seq<char>,
    other: (Seq<char>, Seq<char>),
)
    requires
        after.states() == before.states().insert((resource, id), state),
        other != (resource, id),
    ensures
        after.states().dom().contains((resource, id)),
        after.states()[(resource, id)] == state,
        after.states().dom().contains(other) == before.states().dom().contains(other),
        before.states().dom().contains(other) ==> after.states()[other] == before.states()[other],
{
}

} // verus!
