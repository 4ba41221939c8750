//! Queries that select evidence by kind, subsystem and time.
use vstd::prelude::*;

use crate::evidence::node::EvidenceKind;
use crate::text::{lower_seq, opt_view, owned, push_char, str_eq, lower_char};

verus! {

/// A kind name compared loosely: ASCII lowercase, without `-` and `_`.
pub open spec fn normalize_kind(s: Seq<char>) -> Seq<char> {
    lower_seq(s).filter(|c: char| c != '-' && c != '_')
}

fn normalize(value: &str) -> (r: String)
    ensures
        r@ == normalize_kind(value@),
{
    let n = value.unicode_len();
    let mut r = String::new();
    let mut i: usize = 0;
    while i < n
        invariant
            i <= n,
            n == value@.len(),
            r@ == normalize_kind(value@.subrange(0, i as int)),
        decreases n - i,
    {
        let c = lower_char(value.get_char(i));
        let ghost pre = value@.subrange(0, i as int);
        let ghost post = value@.subrange(0, i + 1);
        assert(lower_seq(post) =~= lower_seq(pre).push(c));
        proof {
            lower_seq(pre).lemma_filter_push(c, |c: char| c != '-' && c != '_');
        }
        if c != '-' && c != '_' {
            push_char(&mut r, c);
        }
        i += 1;
    }
    assert(value@.subrange(0, n as int) =~= value@);
    r
}

/// Selects evidence: every condition set must hold.
pub struct EvidenceQuery {
    kind: Option<String>,
    subsystem: Option<String>,
    since_unix: Option<u64>,
}

impl EvidenceQuery {
    /// The normalized kind a match must have, if any.
    pub closed spec fn kind_filter(self) -> Option<Seq<char>> {
        opt_view(self.kind)
    }

    /// The subsystem a match must belong to, if any.
    pub closed spec fn subsystem_filter(self) -> Option<Seq<char>> {
        opt_view(self.subsystem)
    }

    /// The earliest observation time a match may have, if any.
    pub closed spec fn since_filter(self) -> Option<u64> {
        self.since_unix
    }

    /// Whether evidence of `kind`, observed at `observed_at_unix` in
    /// `subsystem`, meets every condition of the query.
    pub open spec fn admits(self, kind: EvidenceKind, observed_at_unix: u64, subsystem: Option<Seq<char>>) -> bool {
        &&& match self.kind_filter() {
            Some(k) => normalize_kind(kind.name_of()) == k,
            None => true,
        }
        &&& match self.subsystem_filter() {
            Some(s) => subsystem == Some(s),
            None => true,
        }
        &&& match self.since_filter() {
            Some(t) => observed_at_unix >= t,
            None => true,
        }
    }

    /// The query that selects everything.
    pub fn new() -> (r: Self)
        ensures
            r.kind_filter() is None,
            r.subsystem_filter() is None,
            r.since_filter() is None,
    {
        EvidenceQuery { kind: None, subsystem: None, since_unix: None }
    }

    /// Restricts the query to one kind (compared after `normalize_kind`).
    pub fn kind(self, kind: &str) -> (r: Self)
        ensures
            r.kind_filter() == Some(normalize_kind(kind@)),
            r.subsystem_filter() == self.subsystem_filter(),
            r.since_filter() == self.since_filter(),
    {
        let mut q = self;
        q.kind = Some(normalize(kind));
        q
    }

    /// Restricts the query to one subsystem.
    pub fn subsystem(self, subsystem: &str) -> (r: Self)
        ensures
            r.subsystem_filter() == Some(subsystem@),
            r.kind_filter() == self.kind_filter(),
            r.since_filter() == self.since_filter(),
    {
        let mut q = self;
        q.subsystem = Some(owned(subsystem));
        q
    }

    /// Restricts the query to evidence observed at or after a Unix time.
    pub fn since_unix(self, since_unix: u64) -> (r: Self)
        ensures
            r.since_filter() == Some(since_unix),
            r.kind_filter() == self.kind_filter(),
            r.subsystem_filter() == self.subsystem_filter(),
    {
        let mut q = self;
        q.since_unix = Some(since_unix);
        q
    }

    /// Whether evidence of `kind`, observed at `observed_at_unix` in
    /// `subsystem`, meets every condition of the query.
    pub fn matches(&self, kind: &EvidenceKind, observed_at_unix: u64, subsystem: &Option<String>) -> (r: bool)
        ensures
            r == self.admits(*kind, observed_at_unix, opt_view(*subsystem)),
    {
        match &self.kind {
            Some(k) => {
                if !str_eq(normalize(kind.kind_name()).as_str(), k.as_str()) {
                    return false;
                }
            },
            None => {},
        }
        match &self.subsystem {
            Some(s) => match subsystem {
                Some(actual) => {
                    if !str_eq(actual.as_str(), s.as_str()) {
                        return false;
                    }
                },
                None => {
                    return false;
                },
            },
            None => {},
        }
        match self.since_unix {
            Some(t) => {
                if observed_at_unix < t {
                    return false;
                }
            },
            None => {},
        }
        true
    }
}

impl Default for EvidenceQuery {
    fn default() -> (r: Self)
        ensures
            r.kind_filter() is None,
            r.subsystem_filter() is None,
            r.since_filter() is None,
    {
        EvidenceQuery::new()
    }
}

/// A query without conditions admits all evidence, and a query that keeps
/// every condition of another (adding more, perhaps) admits only what the
/// other admits.
pub proof fn law_conditions_narrow(
    q: EvidenceQuery,
    narrower: EvidenceQuery,
    kind: EvidenceKind,
    observed_at_unix: u64,
    subsystem: Option<Seq<char>>,
)
    requires
        q.kind_filter() is None || narrower.kind_filter() == q.kind_filter(),
        q.subsystem_filter() is None || narrower.subsystem_filter() == q.subsystem_filter(),
        q.since_filter() is None || narrower.since_filter() == q.since_filter(),
    ensures
        narrower.admits(kind, observed_at_unix, subsystem) ==> q.admits(kind, observed_at_unix, subsystem),
        q.kind_filter() is None && q.subsystem_filter() is None && q.since_filter() is None ==> q.admits(
            kind,
            observed_at_unix,
            subsystem,
        ),
{
}

} // verus!
