//! Identifiers of models, versions and evidence snapshots.
use vstd::prelude::*;

use crate::evidence::provenance::Provenance;
use crate::model_evolution::model::ModelShape;
use crate::text::{cat, dec_seq, dec_string, owned, push_char};

verus! {

/// The lowercase hexadecimal digit of `d` (below 16).
pub open spec fn hex_c(d: nat) -> char {
    if d < 10 {
        (('0' as u32) + d) as char
    } else {
        (('a' as u32) + d - 10) as char
    }
}

/// The last `k` hexadecimal digits of `n`, most significant first
/// (`{:016x}` for `k` = 16).
pub open spec fn hex_digits(n: nat, k: nat) -> Seq<char>
    decreases k,
{
    if k == 0 {
        Seq::empty()
    } else {
        hex_digits(n / 16, (k - 1) as nat).push(hex_c(n % 16))
    }
}

/// The last `k` hexadecimal digits of `n`.
fn hex_of(n: u64, k: usize) -> (r: String)
    ensures
        r@ == hex_digits(n as nat, k as nat),
    decreases k,
{
    if k == 0 {
        return String::new();
    }
    let mut r = hex_of(n / 16, k - 1);
    let d = n % 16;
    let c = if d < 10 {
        ((d as u8) + 48) as char
    } else {
        ((d as u8) + 87) as char
    };
    assert(c == hex_c(d as nat));
    push_char(&mut r, c);
    r
}

/// `n` as sixteen lowercase hexadecimal digits (`{:016x}`).
pub fn hex16(n: u64) -> (r: String)
    ensures
        r@ == hex_digits(n as nat, 16),
{
    hex_of(n, 16)
}

/// The identifier of a model lineage.
#[derive(Debug, Clone, PartialEq, Eq, Hash)]
pub struct ModelId(pub String);

/// The identifier of one version of a model.
#[derive(Debug, Clone, PartialEq, Eq, Hash)]
pub struct VersionId(pub String);

/// The identifier of an evidence snapshot.
#[derive(Debug, Clone, PartialEq, Eq, Hash)]
pub struct EvidenceSnapshotId(pub String);

impl ModelId {
    pub fn new(id: &str) -> (r: Self)
        ensures
            r.0@ == id@,
    {
        ModelId(owned(id))
    }

    /// A fresh identifier from a random number: `model-` and its sixteen
    /// hexadecimal digits.
    pub fn generate(random: u64) -> (r: Self)
        ensures
            r.0@ == "model-"@ + hex_digits(random as nat, 16),
    {
        ModelId(cat("model-", hex16(random).as_str()))
    }

    /// The identifier as text.
    pub fn to_string(&self) -> (r: String)
        ensures
            r@ == self.0@,
    {
        self.0.clone()
    }
}

impl VersionId {
    pub fn new(id: &str) -> (r: Self)
        ensures
            r.0@ == id@,
    {
        VersionId(owned(id))
    }

    /// A fresh identifier from a random number: `ver-` and its sixteen
    /// hexadecimal digits.
    pub fn generate(random: u64) -> (r: Self)
        ensures
            r.0@ == "ver-"@ + hex_digits(random as nat, 16),
    {
        VersionId(cat("ver-", hex16(random).as_str()))
    }

    /// The identifier as text.
    pub fn to_string(&self) -> (r: String)
        ensures
            r@ == self.0@,
    {
        self.0.clone()
    }
}

impl EvidenceSnapshotId {
    pub fn new(id: &str) -> (r: Self)
        ensures
            r.0@ == id@,
    {
        EvidenceSnapshotId(owned(id))
    }

    /// The snapshot of everything observed up to a Unix time:
    /// `evidence-{ts}`.
    pub fn from_unix_timestamp(ts: u64) -> (r: Self)
        ensures
            r.0@ == "evidence-"@ + dec_seq(ts as nat),
    {
        EvidenceSnapshotId(cat("evidence-", dec_string(ts).as_str()))
    }

    /// The identifier as text.
    pub fn to_string(&self) -> (r: String)
        ensures
            r@ == self.0@,
    {
        self.0.clone()
    }
}


/// One version of a model: the model itself, the version it came from (none
/// for the root), the evidence snapshot that produced it, when it was made,
/// its confidence (in thousandths) and where it came from.
#[derive(Debug)]
pub struct ModelVersion {
    pub id: VersionId,
    pub model_id: ModelId,
    pub parent: Option<VersionId>,
    pub model: ModelShape,
    pub evidence_snapshot_id: EvidenceSnapshotId,
    pub created_at: u64,
    pub confidence: u32,
    pub provenance: Provenance,
}

impl ModelVersion {
    /// A version made now, identified by a fresh id drawn from `random`
    /// (see `VersionId::generate`).
    pub fn new(
        model_id: ModelId,
        parent: Option<VersionId>,
        model: ModelShape,
        evidence_snapshot_id: EvidenceSnapshotId,
        confidence: u32,
        provenance: Provenance,
        random: u64,
    ) -> (r: Self)
        ensures
            r.id.0@ == "ver-"@ + hex_digits(random as nat, 16),
            r.model_id == model_id,
            r.parent == parent,
            r.model == model,
            r.evidence_snapshot_id == evidence_snapshot_id,
            r.confidence == confidence,
            r.provenance == provenance,
    {
        ModelVersion {
            id: VersionId::generate(random),
            model_id,
            parent,
            model,
            evidence_snapshot_id,
            created_at: crate::model_evolution::lineage::now_unix(),
            confidence,
            provenance,
        }
    }

    /// The root version of a new lineage: one without a parent.
    pub fn root(
        model_id: ModelId,
        model: ModelShape,
        evidence_snapshot_id: EvidenceSnapshotId,
        confidence: u32,
        provenance: Provenance,
        random: u64,
    ) -> (r: Self)
        ensures
            r.id.0@ == "ver-"@ + hex_digits(random as nat, 16),
            r.model_id == model_id,
            r.parent is None,
            r.model == model,
            r.evidence_snapshot_id == evidence_snapshot_id,
            r.confidence == confidence,
            r.provenance == provenance,
    {
        ModelVersion::new(model_id, None, model, evidence_snapshot_id, confidence, provenance, random)
    }

    /// Whether this is a root version (it has no parent).
    pub fn is_root(&self) -> (r: bool)
        ensures
            r == (self.parent is None),
    {
        self.parent.is_none()
    }
}

} // verus!
