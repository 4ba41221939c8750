//! The append-only history of a model: its versions in order, each with the
//! delta that produced it.
use vstd::prelude::*;

use crate::model_evolution::delta::DeltaId;
use crate::model_evolution::version::{ModelId, VersionId};
use crate::text::str_eq;

verus! {

/// The current Unix time in seconds (0 when the clock is before 1970).
/// `SystemTime::now`'s result depends on the clock, so nothing is stated of it.
#[verifier::external_body]
pub(crate) fn now_unix() -> u64 {
    std::time::SystemTime::now().duration_since(std::time::UNIX_EPOCH).map(|d| d.as_secs()).unwrap_or(0)
}

/// A version and the delta that produced it (none for the root).
#[derive(Debug, Clone, PartialEq)]
pub struct LineageEntry {
    pub version_id: VersionId,
    pub delta_id: Option<DeltaId>,
    pub created_at: u64,
}

#[derive(Debug, Clone, PartialEq)]
pub struct ModelLineage {
    pub model_id: ModelId,
    pub head: VersionId,
    /// Oldest first.
    pub entries: Vec<LineageEntry>,
    pub created_at: u64,
    pub updated_at: u64,
}

#[derive(Debug, Clone, PartialEq, Eq)]
pub enum LineageError {
    EmptyLineage,
    InvalidRoot,
    MissingDelta { version_id: VersionId },
    HeadMismatch { expected: VersionId, actual: VersionId },
}

impl LineageError {
    /// The error's message.
    pub fn message(&self) -> (r: String)
        ensures
            r@ == match self {
                LineageError::EmptyLineage => "lineage is empty"@,
                LineageError::InvalidRoot => "root version has an associated delta"@,
                LineageError::MissingDelta { version_id } => "version "@ + version_id.0@
                    + " is missing a delta"@,
                LineageError::HeadMismatch { expected, actual } => "head mismatch: expected "@
                    + expected.0@ + ", got "@ + actual.0@,
            },
    {
        match self {
            LineageError::EmptyLineage => crate::text::owned("lineage is empty"),
            LineageError::InvalidRoot => crate::text::owned("root version has an associated delta"),
            LineageError::MissingDelta { version_id } => crate::text::cat3(
                "version ",
                version_id.0.as_str(),
                " is missing a delta",
            ),
            LineageError::HeadMismatch { expected, actual } => {
                let r = crate::text::cat(
                    crate::text::cat("head mismatch: expected ", expected.0.as_str()).as_str(),
                    crate::text::cat(", got ", actual.0.as_str()).as_str(),
                );
                assert(r@ =~= "head mismatch: expected "@ + expected.0@ + ", got "@ + actual.0@);
                r
            },
        }
    }
}

/// The version identifiers of the entries, in order.
pub open spec fn ids(entries: Seq<LineageEntry>) -> Seq<Seq<char>> {
    entries.map_values(|e: LineageEntry| e.version_id.0@)
}

/// Position of the first occurrence of `v`, or -1.
pub open spec fn first_pos(s: Seq<Seq<char>>, v: Seq<char>) -> int
    decreases s.len(),
{
    if s.len() == 0 {
        -1
    } else if s[0] == v {
        0
    } else if first_pos(s.drop_first(), v) < 0 {
        -1
    } else {
        1 + first_pos(s.drop_first(), v)
    }
}

/// The first entry holding a delta of its own is the root, every later entry
/// has one, and the head is the last entry.
pub open spec fn chain_ok(l: ModelLineage) -> bool {
    &&& l.entries@.len() > 0
    &&& l.entries@[0].delta_id is None
    &&& forall|k: int| 1 <= k < l.entries@.len() ==> (#[trigger] l.entries@[k]).delta_id is Some
    &&& l.entries@.last().version_id.0@ == l.head.0@
}

/// The outcome of validating a lineage: the first defect found, in the order
/// empty, root with a delta, entry without a delta, head not the last entry.
pub open spec fn validation(l: ModelLineage) -> Result<(), LineageError> {
    let e = l.entries@;
    if e.len() == 0 {
        Err(LineageError::EmptyLineage)
    } else if e[0].delta_id is Some {
        Err(LineageError::InvalidRoot)
    } else if exists|k: int| 1 <= k < e.len() && (#[trigger] e[k]).delta_id is None {
        let k = choose|k: int|
            1 <= k < e.len() && (#[trigger] e[k]).delta_id is None && forall|j: int|
                1 <= j < k ==> (#[trigger] e[j]).delta_id is Some;
        Err(LineageError::MissingDelta { version_id: e[k].version_id })
    } else if e.last().version_id.0@ != l.head.0@ {
        Err(LineageError::HeadMismatch { expected: e.last().version_id, actual: l.head })
    } else {
        Ok(())
    }
}

/// `l` is a lineage of `model_id` holding only its root version.
pub open spec fn started_with(l: ModelLineage, model_id: ModelId, root: VersionId) -> bool {
    &&& l.model_id == model_id
    &&& l.head == root
    &&& l.entries@.len() == 1
    &&& l.entries@[0].version_id == root
    &&& l.entries@[0].delta_id is None
}

/// `after` is `before` with one more entry, for `version` produced by
/// `delta`, which became the head.
pub open spec fn appended_by(
    before: ModelLineage,
    after: ModelLineage,
    version: VersionId,
    delta: DeltaId,
) -> bool {
    &&& after.entries@.len() == before.entries@.len() + 1
    &&& after.entries@.drop_last() == before.entries@
    &&& after.entries@.last().version_id == version
    &&& after.entries@.last().delta_id == Some(delta)
    &&& after.head == version
    &&& after.model_id == before.model_id
}

fn copy_version(v: &VersionId) -> (r: VersionId)
    ensures
        r == *v,
{
    VersionId(v.0.clone())
}

fn first_index(entries: &Vec<LineageEntry>, v: &VersionId) -> (r: Option<usize>)
    ensures
        match r {
            Some(i) => i == first_pos(ids(entries@), v.0@) && i < entries@.len(),
            None => first_pos(ids(entries@), v.0@) == -1,
        },
{
    let ghost s = ids(entries@);
    let mut i: usize = 0;
    assert(s.skip(0) =~= s);
    while i < entries.len()
        invariant
            i <= entries.len(),
            s == ids(entries@),
            first_pos(s, v.0@) == if first_pos(s.skip(i as int), v.0@) < 0 {
                -1
            } else {
                i + first_pos(s.skip(i as int), v.0@)
            },
        decreases entries.len() - i,
    {
        let ghost rest = s.skip(i as int);
        assert(rest[0] == entries@[i as int].version_id.0@);
        if str_eq(entries[i].version_id.0.as_str(), v.0.as_str()) {
            return Some(i);
        }
        assert(rest.drop_first() =~= s.skip(i + 1));
        i += 1;
    }
    assert(s.skip(i as int) =~= Seq::<Seq<char>>::empty());
    None
}

impl ModelLineage {
    /// A lineage whose only entry is the root version, created now.
    pub fn new(model_id: ModelId, root_version: &VersionId) -> (r: Self)
        ensures
            started_with(r, model_id, *root_version),
            r.entries@[0].created_at == r.created_at,
            r.created_at == r.updated_at,
            chain_ok(r),
    {
        let now = now_unix();
        let mut entries: Vec<LineageEntry> = Vec::new();
        entries.push(
            LineageEntry { version_id: copy_version(root_version), delta_id: None, created_at: now },
        );
        ModelLineage {
            model_id,
            head: copy_version(root_version),
            entries,
            created_at: now,
            updated_at: now,
        }
    }

    /// Appends a version produced by a delta; it becomes the head.
    pub fn append(&mut self, version: &VersionId, delta: &DeltaId)
        ensures
            appended_by(*old(self), *final(self), *version, *delta),
            final(self).entries@.last().created_at == final(self).updated_at,
            final(self).created_at == old(self).created_at,
            chain_ok(*old(self)) ==> chain_ok(*final(self)),
    {
        let now = now_unix();
        let entry = LineageEntry {
            version_id: copy_version(version),
            delta_id: Some(DeltaId(delta.0.clone())),
            created_at: now,
        };
        let ghost before = self.entries@;
        self.entries.push(entry);
        assert(self.entries@.drop_last() =~= before);
        self.head = copy_version(version);
        self.updated_at = now;
        proof {
            if chain_ok(*old(self)) {
                assert(self.entries@[0] == before[0]);
                assert forall|k: int| 1 <= k < self.entries@.len() implies (
                #[trigger] self.entries@[k]).delta_id is Some by {
                    if k < before.len() {
                        assert(self.entries@[k] == before[k]);
                    }
                }
            }
        }
    }

    /// The number of versions.
    pub fn len(&self) -> (r: usize)
        ensures
            r == self.entries@.len(),
    {
        self.entries.len()
    }

    /// Whether there is no version at all (never the case for a lineage
    /// built by `new`).
    pub fn is_empty(&self) -> (r: bool)
        ensures
            r == (self.entries@.len() == 0),
    {
        self.entries.len() == 0
    }

    /// The version identifiers, oldest first.
    pub fn version_ids(&self) -> (r: Vec<VersionId>)
        ensures
            r@ == self.entries@.map_values(|e: LineageEntry| e.version_id),
    {
        let mut r: Vec<VersionId> = Vec::new();
        let mut i: usize = 0;
        while i < self.entries.len()
            invariant
                i <= self.entries@.len(),
                r@ == self.entries@.subrange(0, i as int).map_values(|e: LineageEntry| e.version_id),
            decreases self.entries.len() - i,
        {
            r.push(copy_version(&self.entries[i].version_id));
            assert(r@ =~= self.entries@.subrange(0, i + 1).map_values(|e: LineageEntry| e.version_id));
            i += 1;
        }
        assert(self.entries@.subrange(0, self.entries@.len() as int) =~= self.entries@);
        r
    }

    /// The root version: the first entry's.
    pub fn root(&self) -> (r: Option<&VersionId>)
        ensures
            r == if self.entries@.len() > 0 {
                Some(&self.entries@[0].version_id)
            } else {
                None
            },
    {
        if self.entries.len() > 0 {
            Some(&self.entries[0].version_id)
        } else {
            None
        }
    }

    /// The version before the first occurrence of `version_id`; none for the
    /// root or an unknown version.
    pub fn parent_of(&self, version_id: &VersionId) -> (r: Option<&VersionId>)
        ensures
            ({
                let i = first_pos(ids(self.entries@), version_id.0@);
                r == if i > 0 {
                    Some(&self.entries@[i - 1].version_id)
                } else {
                    None
                }
            }),
    {
        match first_index(&self.entries, version_id) {
            None => None,
            Some(i) => if i == 0 {
                None
            } else {
                Some(&self.entries[i - 1].version_id)
            },
        }
    }

    /// The versions after `from` up to and including `to` (by their first
    /// occurrences); none unless `from` comes before `to`.
    pub fn versions_between(&self, from: &VersionId, to: &VersionId) -> (r: Vec<VersionId>)
        ensures
            ({
                let f = first_pos(ids(self.entries@), from.0@);
                let t = first_pos(ids(self.entries@), to.0@);
                r@ == if 0 <= f && 0 <= t && f < t {
                    self.entries@.subrange(f + 1, t + 1).map_values(|e: LineageEntry| e.version_id)
                } else {
                    Seq::empty()
                }
            }),
    {
        let fi = first_index(&self.entries, from);
        let ti = first_index(&self.entries, to);
        let mut r: Vec<VersionId> = Vec::new();
        match (fi, ti) {
            (Some(f), Some(t)) => {
                if f < t {
                    let mut i = f + 1;
                    while i <= t
                        invariant
                            f + 1 <= i <= t + 1,
                            t < self.entries.len(),
                            r@ == self.entries@.subrange(f + 1, i as int).map_values(
                                |e: LineageEntry| e.version_id,
                            ),
                        decreases t + 1 - i,
                    {
                        r.push(copy_version(&self.entries[i].version_id));
                        assert(r@ =~= self.entries@.subrange(f + 1, i + 1).map_values(
                            |e: LineageEntry| e.version_id,
                        ));
                        i += 1;
                    }
                }
            },
            _ => {},
        }
        r
    }

    /// Checks that the lineage forms a valid chain (see `validation`).
    pub fn validate(&self) -> (r: Result<(), LineageError>)
        ensures
            r == validation(*self),
            r is Ok <==> chain_ok(*self),
    {
        let e = &self.entries;
        if e.len() == 0 {
            return Err(LineageError::EmptyLineage);
        }
        if e[0].delta_id.is_some() {
            return Err(LineageError::InvalidRoot);
        }
        let mut k: usize = 1;
        while k < e.len()
            invariant
                1 <= k <= e.len(),
                e == &self.entries,
                e@[0].delta_id is None,
                forall|j: int| 1 <= j < k ==> (#[trigger] e@[j]).delta_id is Some,
            decreases e.len() - k,
        {
            if e[k].delta_id.is_none() {
                let ghost l = *self;
                let ghost es = l.entries@;
                assert(1 <= k < es.len() && (#[trigger] es[k as int]).delta_id is None && forall|j: int|
                    1 <= j < k ==> (#[trigger] es[j]).delta_id is Some);
                let ghost c = choose|c: int|
                    1 <= c < es.len() && (#[trigger] es[c]).delta_id is None && forall|j: int|
                        1 <= j < c ==> (#[trigger] es[j]).delta_id is Some;
                assert(c == k) by {
                    if c < k {
                        assert(es[c].delta_id is Some);
                    } else if c > k {
                        assert(es[k as int].delta_id is Some);
                    }
                }
                assert(validation(l) == Err::<(), LineageError>(LineageError::MissingDelta { version_id: es[c].version_id }));
                return Err(LineageError::MissingDelta { version_id: copy_version(&e[k].version_id) });
            }
            k += 1;
        }
        let last = &e[e.len() - 1];
        if !str_eq(last.version_id.0.as_str(), self.head.0.as_str()) {
            return Err(
                LineageError::HeadMismatch {
                    expected: copy_version(&last.version_id),
                    actual: copy_version(&self.head),
                },
            );
        }
        Ok(())
    }
}

/// Appending to a valid lineage a version it does not hold yet keeps it
/// valid, and the new head's parent is the old head.
pub proof fn law_append_links_to_previous_head(
    before: ModelLineage,
    after: ModelLineage,
    version: VersionId,
    delta: DeltaId,
)
    requires
        chain_ok(before),
        after.entries@.drop_last() == before.entries@,
        after.entries@.len() == before.entries@.len() + 1,
        after.entries@.last().version_id == version,
        after.entries@.last().delta_id == Some(delta),
        after.head == version,
        first_pos(ids(before.entries@), version.0@) == -1,
    ensures
        chain_ok(after),
        first_pos(ids(after.entries@), version.0@) == before.entries@.len(),
        after.entries@[before.entries@.len() - 1].version_id.0@ == before.head.0@,
{
    let b = ids(before.entries@);
    let a = ids(after.entries@);
    assert(a =~= b.push(version.0@));
    lemma_first_pos_push(b, version.0@);
    assert(after.entries@[0] == before.entries@[0]);
    assert forall|k: int| 1 <= k < after.entries@.len() implies (
    #[trigger] after.entries@[k]).delta_id is Some by {
        if k < before.entries@.len() {
            assert(after.entries@[k] == before.entries@[k]);
        }
    }
    assert(after.entries@[before.entries@.len() - 1] == before.entries@.last());
}

proof fn lemma_first_pos_push(s: Seq<Seq<char>>, v: Seq<char>)
    requires
        first_pos(s, v) == -1,
    ensures
        first_pos(s.push(v), v) == s.len(),
    decreases s.len(),
{
    if s.len() > 0 {
        assert(s.push(v).drop_first() =~= s.drop_first().push(v));
        lemma_first_pos_push(s.drop_first(), v);
    }
}


/// After `j` appends: `j + 1` entries, the root first without a delta, then
/// the appended versions with their deltas.
proof fn lemma_after_appends(
    lineages: Seq<ModelLineage>,
    model_id: ModelId,
    root: VersionId,
    versions: Seq<VersionId>,
    deltas: Seq<DeltaId>,
    j: int,
)
    requires
        lineages.len() == versions.len() + 1,
        deltas.len() == versions.len(),
        started_with(lineages[0], model_id, root),
        forall|i: int|
            0 <= i < versions.len() ==> appended_by(
                #[trigger] lineages[i],
                lineages[i + 1],
                versions[i],
                deltas[i],
            ),
        0 <= j <= versions.len(),
    ensures
        lineages[j].entries@.len() == j + 1,
        lineages[j].model_id == model_id,
        lineages[j].entries@[0].version_id == root,
        lineages[j].entries@[0].delta_id is None,
        forall|i: int|
            0 <= i < j ==> (#[trigger] lineages[j].entries@[i + 1]).version_id == versions[i]
                && lineages[j].entries@[i + 1].delta_id == Some(deltas[i]),
        lineages[j].head == if j == 0 {
            root
        } else {
            versions[j - 1]
        },
    decreases j,
{
    if j > 0 {
        lemma_after_appends(lineages, model_id, root, versions, deltas, j - 1);
        let p = lineages[j - 1];
        let l = lineages[j];
        assert(appended_by(p, l, versions[j - 1], deltas[j - 1]));
        assert forall|k: int| 0 <= k < p.entries@.len() implies l.entries@[k] == p.entries@[k] by {
            assert(l.entries@.drop_last()[k] == l.entries@[k]);
        }
        assert forall|i: int| 0 <= i < j implies (#[trigger] l.entries@[i + 1]).version_id
            == versions[i] && l.entries@[i + 1].delta_id == Some(deltas[i]) by {
            if i < j - 1 {
                assert(l.entries@[i + 1] == p.entries@[i + 1]);
            }
        }
    }
}

/// A lineage made by `new` and then `k` appends holds `k + 1` versions: the
/// root first (without a delta, and never replaced), then each appended
/// version in turn with its delta; the head is the last one appended (the
/// root when nothing was), the model stays the same, and the chain is valid.
/// `lineages[i]` is the lineage after `i` appends.
#[verifier::spinoff_prover]
#[verifier::rlimit(40)]
pub proof fn law_lineage_after_appends(
    lineages: Seq<ModelLineage>,
    model_id: ModelId,
    root: VersionId,
    versions: Seq<VersionId>,
    deltas: Seq<DeltaId>,
)
    requires
        lineages.len() == versions.len() + 1,
        deltas.len() == versions.len(),
        started_with(lineages[0], model_id, root),
        forall|i: int|
            0 <= i < versions.len() ==> appended_by(
                #[trigger] lineages[i],
                lineages[i + 1],
                versions[i],
                deltas[i],
            ),
    ensures
        ({
            let l = lineages.last();
            &&& l.entries@.len() == versions.len() + 1
            &&& l.model_id == model_id
            &&& l.entries@.map_values(|e: LineageEntry| e.version_id) == seq![root] + versions
            &&& l.entries@[0].delta_id is None
            &&& forall|i: int|
                0 <= i < versions.len() ==> (#[trigger] l.entries@[i + 1]).delta_id == Some(
                    deltas[i],
                )
            &&& l.head == if versions.len() == 0 {
                root
            } else {
                versions.last()
            }
            &&& chain_ok(l)
        }),
{
    let n = versions.len() as int;
    lemma_after_appends(lineages, model_id, root, versions, deltas, n);
    let l = lineages[n];
    assert(lineages.last() == l);
    assert(l.entries@.map_values(|e: LineageEntry| e.version_id) =~= seq![root] + versions) by {
        assert forall|k: int| 1 <= k <= n implies l.entries@[k].version_id == versions[k - 1] by {
            assert(l.entries@[(k - 1) + 1].version_id == versions[k - 1]);
        }
    }
    assert forall|k: int| 1 <= k < l.entries@.len() implies (
    #[trigger] l.entries@[k]).delta_id is Some by {
        assert(l.entries@[(k - 1) + 1].delta_id == Some(deltas[k - 1]));
    }
    if n > 0 {
        assert(l.entries@[(n - 1) + 1].version_id == versions[n - 1]);
        assert(l.entries@.last() == l.entries@[n]);
    }
    assert(chain_ok(l));
}

} // verus!
