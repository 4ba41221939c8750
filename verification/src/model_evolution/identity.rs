//! Stable identities of entities across model versions: canonical names,
//! aliases and recorded renames.
use vstd::prelude::*;

use crate::application_model::{EntityShape, FieldShape};
use crate::sorting::{insert_pos, lemma_stable_order_range, stable_order};
use crate::table::StrTable;
use crate::text::{
    all_ascii, chars_of, contains, eq_ic, eq_ignore_case, has_sub, lower_seq, owned, str_eq, strictly_sorted, strs,
    to_lowercase, unicode_lower,
};
use vstd::utf8::encode_utf8;

verus! {

#[derive(Debug, Clone, PartialEq, Eq, Hash)]
pub struct EntityIdentity {
    /// The canonical name of the entity.
    pub canonical_name: String,
    /// Known aliases for this entity.
    pub aliases: Vec<String>,
    /// Structural signature based on fields.
    pub structural_signature: String,
    /// Namespace (if any).
    pub namespace: Option<String>,
}

pub struct IdentityView {
    pub canonical: Seq<char>,
    pub aliases: Seq<Seq<char>>,
    pub signature: Seq<char>,
    pub namespace: Option<Seq<char>>,
}

impl View for EntityIdentity {
    type V = IdentityView;

    open spec fn view(&self) -> IdentityView {
        IdentityView {
            canonical: self.canonical_name@,
            aliases: strs(self.aliases@),
            signature: self.structural_signature@,
            namespace: crate::text::opt_view(self.namespace),
        }
    }
}

/// The aliases after adding `alias`: unchanged when it is already an alias
/// or the canonical name.
pub open spec fn with_alias(i: IdentityView, alias: Seq<char>) -> IdentityView {
    if i.aliases.contains(alias) || alias == i.canonical {
        i
    } else {
        IdentityView { aliases: i.aliases.push(alias), ..i }
    }
}

/// The canonical name or an alias equals `name`, ignoring ASCII case.
pub open spec fn names_match(i: IdentityView, name: Seq<char>) -> bool {
    eq_ic(i.canonical, name) || exists|k: int| 0 <= k < i.aliases.len() && eq_ic(#[trigger] i.aliases[k], name)
}

/// The signature of one field: `name:type`, both lowercased.
pub open spec fn field_signature(f: FieldShape) -> Seq<char> {
    unicode_lower(f.name@) + ":"@ + unicode_lower(f.field_type@)
}

/// The field signatures of an entity, sorted, joined by `|`.
pub open spec fn structural_signature_of(fields: Seq<FieldShape>) -> Seq<char> {
    let sigs = fields.map_values(|f: FieldShape| field_signature(f));
    crate::text::join_seq(
        Seq::new(sigs.len(), |k: int| sigs[stable_order(sigs, sigs.len())[k]]),
        "|"@,
    )
}

pub(crate) fn structural_signature(fields: &Vec<FieldShape>) -> (r: String)
    ensures
        r@ == structural_signature_of(fields@),
{
    let ghost sigs = fields@.map_values(|f: FieldShape| field_signature(f));
    let mut sorted: Vec<String> = Vec::new();
    let mut j: usize = 0;
    while j < fields.len()
        invariant
            j <= fields.len(),
            sigs == fields@.map_values(|f: FieldShape| field_signature(f)),
            sorted@.len() == j,
            forall|k: int| 0 <= k < j ==> (#[trigger] sorted@[k])@ == sigs[stable_order(sigs, j as nat)[k]],
        decreases fields.len() - j,
    {
        proof {
            lemma_stable_order_range(sigs, j as nat);
        }
        let ghost o = stable_order(sigs, j as nat);
        let ghost key = sigs[j as int];
        let f = &fields[j];
        let sig = crate::text::cat3(
            to_lowercase(f.name.as_str()).as_str(),
            ":",
            to_lowercase(f.field_type.as_str()).as_str(),
        );
        assert(sig@ == key);
        let mut q: usize = 0;
        assert(o.skip(0) =~= o);
        while q < sorted.len() && !crate::text::str_lt(sig.as_str(), sorted[q].as_str())
            invariant
                q <= sorted.len(),
                sorted@.len() == o.len(),
                sig@ == key,
                forall|k: int| 0 <= k < sorted@.len() ==> (#[trigger] sorted@[k])@ == sigs[o[k]],
                insert_pos(o, sigs, key) == q + insert_pos(o.skip(q as int), sigs, key),
            decreases sorted.len() - q,
        {
            let ghost rest = o.skip(q as int);
            assert(rest[0] == o[q as int]);
            assert(rest.drop_first() =~= o.skip(q + 1));
            q += 1;
        }
        proof {
            if q < sorted.len() {
                assert(o.skip(q as int)[0] == o[q as int]);
            } else {
                assert(o.skip(q as int) =~= Seq::<int>::empty());
            }
        }
        let ghost old_sorted = sorted@;
        sorted.insert(q, sig);
        proof {
            let o2 = stable_order(sigs, (j + 1) as nat);
            assert(o2 == o.insert(q as int, j as int));
            assert forall|k: int| 0 <= k < j + 1 implies (#[trigger] sorted@[k])@ == sigs[o2[k]] by {
                if k < q {
                    assert(sorted@[k] == old_sorted[k] && o2[k] == o[k]);
                } else if k == q {
                    assert(o2[k] == j);
                } else {
                    assert(sorted@[k] == old_sorted[k - 1] && o2[k] == o[k - 1]);
                }
            }
        }
        j += 1;
    }
    let r = crate::text::join(&sorted, "|");
    assert(strs(sorted@) =~= Seq::new(sigs.len(), |k: int| sigs[stable_order(sigs, sigs.len())[k]]));
    r
}


/// The distinct `|`-separated parts of a signature.
pub open spec fn signature_parts(sig: Seq<char>) -> Set<Seq<char>> {
    crate::text::split_seq(sig, '|').to_set()
}

/// How much two structural signatures share: the number of distinct parts
/// they have in common and the number of distinct parts of either (their
/// similarity is the first over the second). Two empty signatures count as
/// one part shared of one; an empty and a non-empty one as none of one.
pub open spec fn overlap(a: Seq<char>, b: Seq<char>) -> (nat, nat) {
    if a.len() == 0 && b.len() == 0 {
        (1, 1)
    } else if a.len() == 0 || b.len() == 0 {
        (0, 1)
    } else {
        let pa = signature_parts(a);
        let pb = signature_parts(b);
        (pa.intersect(pb).len(), pa.union(pb).len())
    }
}

/// Whether two structural signatures are alike: more than four fifths of
/// their distinct parts are shared (see `overlap`).
pub open spec fn signatures_alike(a: Seq<char>, b: Seq<char>) -> bool {
    5 * overlap(a, b).0 > 4 * overlap(a, b).1
}

proof fn lemma_sorted_no_duplicates(q: Seq<Seq<char>>)
    requires
        strictly_sorted(q),
    ensures
        q.no_duplicates(),
{
    assert forall|i: int, j: int| 0 <= i < q.len() && 0 <= j < q.len() && i != j implies q[i] != q[j] by {
        crate::text::lemma_lt_irreflexive(q[i]);
        if i < j {
            assert(crate::text::seq_lt(q[i], q[j]));
        } else {
            assert(crate::text::seq_lt(q[j], q[i]));
        }
    }
}

/// The distinct parts of a signature, sorted.
fn distinct_parts(sig: &str) -> (r: Vec<String>)
    ensures
        strictly_sorted(strs(r@)),
        strs(r@).to_set() == signature_parts(sig@),
{
    let parts = crate::text::split(sig, '|');
    let mut r: Vec<String> = Vec::new();
    assert(strs(r@) =~= Seq::<Seq<char>>::empty());
    assert(strs(r@).to_set() =~= Set::<Seq<char>>::empty());
    crate::strset::insert_all(&mut r, &parts);
    assert(strs(r@).to_set() =~= signature_parts(sig@));
    r
}

/// Whether two structural signatures are alike (see `signatures_alike`).
pub fn signatures_match(a: &str, b: &str) -> (r: bool)
    ensures
        r == signatures_alike(a@, b@),
{
    let (shared, all) = signature_overlap(a, b);
    5 * shared > 4 * all
}

/// How much two structural signatures share (see `overlap`).
pub fn signature_overlap(a: &str, b: &str) -> (r: (u128, u128))
    ensures
        r.0 == overlap(a@, b@).0,
        r.1 == overlap(a@, b@).1,
        r.1 >= 1,
        r.0 <= u64::MAX,
        r.1 <= 2 * (u64::MAX as int),
{
    if a.is_empty() && b.is_empty() {
        return (1, 1);
    }
    if a.is_empty() || b.is_empty() {
        return (0, 1);
    }
    let pa = distinct_parts(a);
    let pb = distinct_parts(b);
    let ghost qa = strs(pa@);
    let ghost sb = strs(pb@).to_set();
    let mut shared: usize = 0;
    let mut i: usize = 0;
    proof {
        lemma_sorted_no_duplicates(qa);
        assert(qa.subrange(0, 0).to_set() =~= Set::<Seq<char>>::empty());
        assert(Set::<Seq<char>>::empty().intersect(sb) =~= Set::<Seq<char>>::empty());
    }
    while i < pa.len()
        invariant
            i <= pa@.len(),
            qa == strs(pa@),
            sb == strs(pb@).to_set(),
            qa.no_duplicates(),
            shared <= i,
            shared == qa.subrange(0, i as int).to_set().intersect(sb).len(),
        decreases pa@.len() - i,
    {
        let ghost before = qa.subrange(0, i as int).to_set();
        let ghost x = qa[i as int];
        assert(qa.subrange(0, i + 1).to_set() =~= before.insert(x)) by {
            let q1 = qa.subrange(0, i + 1);
            let q0 = qa.subrange(0, i as int);
            assert forall|y: Seq<char>| q1.to_set().contains(y) implies before.insert(x).contains(y) by {
                let j = choose|j: int| 0 <= j < q1.len() && q1[j] == y;
                if j < i {
                    assert(q0[j] == y);
                }
            }
            assert forall|y: Seq<char>| before.insert(x).contains(y) implies q1.to_set().contains(y) by {
                if y == x {
                    assert(q1[i as int] == x);
                } else {
                    let j = choose|j: int| 0 <= j < q0.len() && q0[j] == y;
                    assert(q1[j] == y);
                }
            }
        }
        assert(!before.contains(x)) by {
            if before.contains(x) {
                let j = choose|j: int| 0 <= j < i && qa.subrange(0, i as int)[j] == x;
                assert(qa[j] == qa[i as int]);
            }
        }
        proof {
            vstd::seq_lib::seq_to_set_is_finite(qa.subrange(0, i as int));
        }
        if crate::strset::contains_string(&pb, pa[i].as_str()) {
            assert(qa.subrange(0, i + 1).to_set().intersect(sb) =~= before.intersect(sb).insert(x));
            assert(!before.intersect(sb).contains(x));
            shared += 1;
        } else {
            assert(qa.subrange(0, i + 1).to_set().intersect(sb) =~= before.intersect(sb));
        }
        i += 1;
    }
    proof {
        assert(qa.subrange(0, qa.len() as int) =~= qa);
        qa.unique_seq_to_set();
        lemma_sorted_no_duplicates(strs(pb@));
        strs(pb@).unique_seq_to_set();
        vstd::seq_lib::seq_to_set_is_finite(qa);
        vstd::seq_lib::seq_to_set_is_finite(strs(pb@));
        vstd::set_lib::lemma_set_intersect_union_lens(qa.to_set(), sb);
        assert(qa.to_set().union(sb) == qa.to_set() + sb);
    }
    proof {
        crate::text::lemma_split_nonempty(b@, crate::text::sep_fn(false, '|'));
        let x = crate::text::split_seq(b@, '|')[0];
        assert(signature_parts(b@).contains(x));
        assert(strs(pb@).to_set().contains(x));
        assert(pb@.len() >= 1) by {
            if pb@.len() == 0 {
                assert(strs(pb@).len() == 0);
            }
        }
    }
    let total: u128 = pa.len() as u128 + pb.len() as u128 - shared as u128;
    (shared as u128, total)
}


// ---------------------------------------------------------------------------
// Whether two entities may be one
// ---------------------------------------------------------------------------

/// How two entities may be one: by name (ignoring ASCII case), by a recorded
/// rename, by a high (above nine tenths) or moderate (above seven tenths)
/// share of their field signatures, `shared` of `all` (see `overlap`), by a
/// similar name, `common` over `longest` above four fifths (see
/// `name_ratio`), or not at all.
#[derive(Debug, Clone, Copy, PartialEq, Eq, Structural)]
pub enum MatchResult {
    ExactMatch,
    KnownRename,
    HighStructuralSimilarity { shared: u128, all: u128 },
    ModerateStructuralSimilarity { shared: u128, all: u128 },
    NameSimilarity { common: u128, longest: u128 },
    NoMatch,
}

impl MatchResult {
    /// A match by name, by a recorded rename or by a high structural share.
    pub fn is_likely_match(&self) -> (r: bool)
        ensures
            r == (*self is ExactMatch || *self is KnownRename || *self is HighStructuralSimilarity),
    {
        match self {
            MatchResult::ExactMatch | MatchResult::KnownRename | MatchResult::HighStructuralSimilarity { .. } => true,
            _ => false,
        }
    }

    /// Any match at all.
    pub fn is_possible_match(&self) -> (r: bool)
        ensures
            r == !(*self is NoMatch),
    {
        match self {
            MatchResult::NoMatch => false,
            _ => true,
        }
    }
}

/// The number of leading characters two sequences share.
pub open spec fn common_prefix(a: Seq<char>, b: Seq<char>) -> nat
    decreases a.len(),
{
    if a.len() == 0 || b.len() == 0 || a[0] != b[0] {
        0
    } else {
        1 + common_prefix(a.drop_first(), b.drop_first())
    }
}

/// How alike two names are, as a fraction: lowercased, equal names one;
/// one inside the other four fifths; else the characters of their common
/// prefix over the longer one's length in UTF-8 bytes.
pub open spec fn name_ratio(a: Seq<char>, b: Seq<char>) -> (nat, nat) {
    let n1 = unicode_lower(a);
    let n2 = unicode_lower(b);
    let b1 = encode_utf8(n1).len() as usize;
    let b2 = encode_utf8(n2).len() as usize;
    let longest: usize = if b1 >= b2 {
        b1
    } else {
        b2
    };
    if n1 == n2 {
        (1, 1)
    } else if has_sub(n1, n2) || has_sub(n2, n1) {
        (4, 5)
    } else if longest == 0 {
        (1, 1)
    } else {
        (common_prefix(n1, n2), longest as nat)
    }
}

/// Whether `new` is where `old` was renamed to, by a rename the matcher
/// recorded (ignoring ASCII case).
pub open spec fn known_rename(m: IdentityMatcher, old: Seq<char>, new: Seq<char>) -> bool {
    m.renames().dom().contains(unicode_lower(old)) && eq_ic(m.renames()[unicode_lower(old)], new)
}

/// What `might_be_same_entity` answers: the first that holds of an equal
/// name, a known rename, a high or moderate structural share, a similar
/// name; else no match.
pub open spec fn match_of(m: IdentityMatcher, old: EntityShape, new: EntityShape) -> MatchResult {
    let ov = overlap(structural_signature_of(old.fields@), structural_signature_of(new.fields@));
    let nr = name_ratio(old.name@, new.name@);
    if eq_ic(old.name@, new.name@) {
        MatchResult::ExactMatch
    } else if known_rename(m, old.name@, new.name@) {
        MatchResult::KnownRename
    } else if 10 * ov.0 > 9 * ov.1 {
        MatchResult::HighStructuralSimilarity { shared: ov.0 as u128, all: ov.1 as u128 }
    } else if 10 * ov.0 > 7 * ov.1 {
        MatchResult::ModerateStructuralSimilarity { shared: ov.0 as u128, all: ov.1 as u128 }
    } else if 5 * nr.0 > 4 * nr.1 {
        MatchResult::NameSimilarity { common: nr.0 as u128, longest: nr.1 as u128 }
    } else {
        MatchResult::NoMatch
    }
}

/// How alike two names are (see `name_ratio`).
fn name_similarity(a: &str, b: &str) -> (r: (u128, u128))
    ensures
        r.0 == name_ratio(a@, b@).0,
        r.1 == name_ratio(a@, b@).1,
        r.0 <= usize::MAX,
        r.1 <= usize::MAX,
{
    let n1 = to_lowercase(a);
    let n2 = to_lowercase(b);
    if str_eq(n1.as_str(), n2.as_str()) {
        return (1, 1);
    }
    if contains(n1.as_str(), n2.as_str()) || contains(n2.as_str(), n1.as_str()) {
        return (4, 5);
    }
    let l1 = n1.as_str().len();
    let l2 = n2.as_str().len();
    let longest = if l1 >= l2 {
        l1
    } else {
        l2
    };
    if longest == 0 {
        return (1, 1);
    }
    let c1 = chars_of(n1.as_str());
    let c2 = chars_of(n2.as_str());
    let mut k: usize = 0;
    assert(c1@.subrange(0, c1@.len() as int) =~= c1@);
    assert(c2@.subrange(0, c2@.len() as int) =~= c2@);
    while k < c1.len() && k < c2.len() && c1[k] == c2[k]
        invariant
            k <= c1@.len(),
            k <= c2@.len(),
            common_prefix(c1@, c2@) == k + common_prefix(
                c1@.subrange(k as int, c1@.len() as int),
                c2@.subrange(k as int, c2@.len() as int),
            ),
        decreases c1@.len() - k,
    {
        let ghost s1 = c1@.subrange(k as int, c1@.len() as int);
        let ghost s2 = c2@.subrange(k as int, c2@.len() as int);
        assert(s1.drop_first() =~= c1@.subrange(k + 1, c1@.len() as int));
        assert(s2.drop_first() =~= c2@.subrange(k + 1, c2@.len() as int));
        assert(s1[0] == c1@[k as int] && s2[0] == c2@[k as int]);
        k += 1;
    }
    proof {
        let s1 = c1@.subrange(k as int, c1@.len() as int);
        let s2 = c2@.subrange(k as int, c2@.len() as int);
        if k < c1@.len() && k < c2@.len() {
            assert(s1[0] == c1@[k as int] && s2[0] == c2@[k as int]);
        }
        assert(common_prefix(s1, s2) == 0);
    }
    (k as u128, longest as u128)
}

impl EntityIdentity {
    /// The identity of an entity: its name, no aliases, its structural
    /// signature, no namespace.
    pub fn from_entity(entity: &EntityShape) -> (r: Self)
        ensures
            r@.canonical == entity.name@,
            r@.aliases.len() == 0,
            r@.signature == structural_signature_of(entity.fields@),
            r@.namespace is None,
    {
        let r = EntityIdentity {
            canonical_name: entity.name.clone(),
            aliases: Vec::new(),
            structural_signature: structural_signature(&entity.fields),
            namespace: None,
        };
        assert(strs(r.aliases@) =~= Seq::<Seq<char>>::empty());
        r
    }

    /// Adds an alias, unless it is already known or is the canonical name.
    pub fn add_alias(&mut self, alias: &str)
        ensures
            final(self)@ == with_alias(old(self)@, alias@),
    {
        let mut i: usize = 0;
        while i < self.aliases.len()
            invariant
                i <= self.aliases@.len(),
                forall|k: int| 0 <= k < i ==> (#[trigger] self.aliases@[k])@ != alias@,
            decreases self.aliases.len() - i,
        {
            if str_eq(self.aliases[i].as_str(), alias) {
                assert(strs(self.aliases@)[i as int] == alias@);
                return;
            }
            i += 1;
        }
        if str_eq(self.canonical_name.as_str(), alias) {
            return;
        }
        assert(!strs(self.aliases@).contains(alias@)) by {
            if strs(self.aliases@).contains(alias@) {
                let k = choose|k: int| 0 <= k < strs(self.aliases@).len() && strs(self.aliases@)[k] == alias@;
                assert(self.aliases@[k]@ == alias@);
            }
        }
        let ghost before = self.aliases@;
        self.aliases.push(owned(alias));
        assert(strs(self.aliases@) =~= strs(before).push(alias@));
    }

    /// Whether `name` is this entity's canonical name or one of its aliases,
    /// ignoring ASCII case.
    pub fn matches_name(&self, name: &str) -> (r: bool)
        ensures
            r == names_match(self@, name@),
    {
        if eq_ignore_case(self.canonical_name.as_str(), name) {
            return true;
        }
        let mut i: usize = 0;
        while i < self.aliases.len()
            invariant
                i <= self.aliases@.len(),
                forall|k: int| 0 <= k < i ==> !eq_ic(#[trigger] strs(self.aliases@)[k], name@),
            decreases self.aliases.len() - i,
        {
            if eq_ignore_case(self.aliases[i].as_str(), name) {
                assert(self@.aliases[i as int] == self.aliases@[i as int]@);
                assert(eq_ic(self@.aliases[i as int], name@));
                return true;
            }
            i += 1;
        }
        false
    }
}

/// Known entity identities, keyed by the lowercase canonical name, and the
/// renames recorded, keyed by the lowercase old name.
pub struct IdentityMatcher {
    identities: StrTable<EntityIdentity>,
    renames: StrTable<String>,
}

impl IdentityMatcher {
    pub closed spec fn identities(self) -> Map<Seq<char>, IdentityView> {
        self.identities.map()
    }

    pub closed spec fn renames(self) -> Map<Seq<char>, Seq<char>> {
        self.renames.map()
    }

    /// What `canonical_name` may answer for `name`: where its lowercase
    /// form was renamed, the new name; else, where known identities match
    /// it, the canonical name of one of them; else `name` itself.
    pub open spec fn canonical_ok(self, name: Seq<char>, r: Seq<char>) -> bool {
        let lower = unicode_lower(name);
        if self.renames().dom().contains(lower) {
            r == self.renames()[lower]
        } else if exists|k: Seq<char>|
            #[trigger] self.identities().dom().contains(k) && names_match(self.identities()[k], name) {
            exists|k: Seq<char>|
                #[trigger] self.identities().dom().contains(k) && names_match(
                    self.identities()[k],
                    name,
                ) && r == self.identities()[k].canonical
        } else {
            r == name
        }
    }

    /// A matcher that knows nothing yet.
    pub fn new() -> (r: Self)
        ensures
            r.identities() == Map::<Seq<char>, IdentityView>::empty(),
            r.renames() == Map::<Seq<char>, Seq<char>>::empty(),
    {
        IdentityMatcher { identities: StrTable::new(), renames: StrTable::new() }
    }

    /// Registers an identity under its lowercase canonical name.
    pub fn register(&mut self, identity: EntityIdentity)
        ensures
            final(self).identities() == old(self).identities().insert(
                unicode_lower(identity.canonical_name@),
                identity@,
            ),
            final(self).renames() == old(self).renames(),
            all_ascii(identity.canonical_name@) ==> final(self).identities() == old(
                self,
            ).identities().insert(lower_seq(identity.canonical_name@), identity@),
    {
        let key = to_lowercase(identity.canonical_name.as_str());
        self.identities.insert(key, identity);
    }

    /// Records that `from` was renamed to `to`: a known identity of `from`
    /// moves to `to`, keeping `from` as an alias, and the rename is kept.
    pub fn record_rename(&mut self, from: &str, to: &str)
        ensures
            ({
                let lf = unicode_lower(from@);
                &&& final(self).identities() == if old(self).identities().dom().contains(lf) {
                    old(self).identities().remove(lf).insert(
                        unicode_lower(to@),
                        IdentityView { canonical: to@, ..with_alias(old(self).identities()[lf], from@) },
                    )
                } else {
                    old(self).identities()
                }
                &&& final(self).renames() == old(self).renames().insert(lf, to@)
            }),
    {
        let lf = to_lowercase(from);
        match self.identities.remove(lf.as_str()) {
            Some(identity) => {
                let mut identity = identity;
                identity.add_alias(from);
                identity.canonical_name = owned(to);
                self.identities.insert(to_lowercase(to), identity);
            },
            None => {},
        }
        self.renames.insert(lf, owned(to));
    }

    /// The canonical name of `name`: where its lowercase form was renamed,
    /// the new name; else, where a known identity matches it, that
    /// identity's canonical name; else `name` itself.
    pub fn canonical_name(&self, name: &str) -> (r: String)
        ensures
            self.canonical_ok(name@, r@),
    {
        let lower = to_lowercase(name);
        assert(lower@ == unicode_lower(name@));
        match self.renames.get(lower.as_str()) {
            Some(to) => {
                return to.clone();
            },
            None => {},
        }
        let n = self.identities.len();
        let mut i: usize = 0;
        while i < n
            invariant
                i <= n,
                n == self.identities.keys().len(),
                !self.renames().dom().contains(unicode_lower(name@)),
                forall|k: Seq<char>| #[trigger] self.identities.map().dom().contains(k) <==> self.identities.keys().contains(k),
                forall|j: int|
                    0 <= j < i ==> !names_match(self.identities.map()[#[trigger] self.identities.keys()[j]], name@),
            decreases n - i,
        {
            let (key, identity) = self.identities.entry_at(i);
            if identity.matches_name(name) {
                assert(self.identities().dom().contains(key@));
                assert(names_match(self.identities()[key@], name@));
                return identity.canonical_name.clone();
            }
            i += 1;
        }
        assert forall|k: Seq<char>| #[trigger] self.identities().dom().contains(k) implies !names_match(
            self.identities()[k],
            name@,
        ) by {
            assert(self.identities.keys().contains(k));
            let j = choose|j: int| 0 <= j < self.identities.keys().len() && self.identities.keys()[j] == k;
        }
        owned(name)
    }

    /// Whether `old` and `new` may be one entity, and how (see `match_of`).
    pub fn might_be_same_entity(&self, old: &EntityShape, new: &EntityShape) -> (r: MatchResult)
        ensures
            r == match_of(*self, *old, *new),
    {
        if eq_ignore_case(old.name.as_str(), new.name.as_str()) {
            return MatchResult::ExactMatch;
        }
        let lower = to_lowercase(old.name.as_str());
        match self.renames.get(lower.as_str()) {
            Some(to) => {
                if eq_ignore_case(to.as_str(), new.name.as_str()) {
                    return MatchResult::KnownRename;
                }
            },
            None => {},
        }
        let sig_old = structural_signature(&old.fields);
        let sig_new = structural_signature(&new.fields);
        let (shared, all) = signature_overlap(sig_old.as_str(), sig_new.as_str());
        if 10 * shared > 9 * all {
            return MatchResult::HighStructuralSimilarity { shared, all };
        }
        if 10 * shared > 7 * all {
            return MatchResult::ModerateStructuralSimilarity { shared, all };
        }
        let (common, longest) = name_similarity(old.name.as_str(), new.name.as_str());
        if 5 * common > 4 * longest {
            return MatchResult::NameSimilarity { common, longest };
        }
        MatchResult::NoMatch
    }

    /// What `find_identity` may answer for `entity` (see there).
    pub open spec fn found(self, entity: EntityShape, r: Option<IdentityView>) -> bool {
        let ids = self.identities();
        let lower = unicode_lower(entity.name@);
        let sig = structural_signature_of(entity.fields@);
        if ids.dom().contains(lower) {
            r == Some(ids[lower])
        } else if exists|k: Seq<char>| #[trigger] ids.dom().contains(k) && names_match(ids[k], entity.name@) {
            exists|k: Seq<char>|
                #[trigger] ids.dom().contains(k) && names_match(ids[k], entity.name@) && r == Some(ids[k])
        } else if exists|k: Seq<char>|
            #[trigger] ids.dom().contains(k) && signatures_alike(ids[k].signature, sig) {
            exists|k: Seq<char>|
                #[trigger] ids.dom().contains(k) && signatures_alike(ids[k].signature, sig) && r == Some(ids[k])
        } else {
            r is None
        }
    }

    /// The known identity of an entity: the one registered under its
    /// lowercase name; else one whose canonical name or an alias matches the
    /// name; else one whose structural signature is alike (see
    /// `signatures_alike`); else none. Which of several matching ones is
    /// found depends on the table order.
    pub fn find_identity(&self, entity: &EntityShape) -> (r: Option<&EntityIdentity>)
        ensures
            self.found(
                *entity,
                match r {
                    Some(x) => Some(x@),
                    None => None,
                },
            ),
    {
        let lower = to_lowercase(entity.name.as_str());
        match self.identities.get(lower.as_str()) {
            Some(identity) => {
                return Some(identity);
            },
            None => {},
        }
        let n = self.identities.len();
        let mut i: usize = 0;
        while i < n
            invariant
                i <= n,
                n == self.identities.keys().len(),
                forall|k: Seq<char>| #[trigger] self.identities.map().dom().contains(k) <==> self.identities.keys().contains(k),
                !self.identities().dom().contains(unicode_lower(entity.name@)),
                forall|j: int|
                    0 <= j < i ==> !names_match(self.identities.map()[#[trigger] self.identities.keys()[j]], entity.name@),
            decreases n - i,
        {
            let (key, identity) = self.identities.entry_at(i);
            if identity.matches_name(entity.name.as_str()) {
                assert(self.identities().dom().contains(key@));
                assert(names_match(self.identities()[key@], entity.name@));
                assert(identity@ == self.identities()[key@]);
                assert(!self.identities().dom().contains(unicode_lower(entity.name@)));
                return Some(identity);
            }
            i += 1;
        }
        assert forall|k: Seq<char>| #[trigger] self.identities().dom().contains(k) implies !names_match(
            self.identities()[k],
            entity.name@,
        ) by {
            assert(self.identities.keys().contains(k));
            let j = choose|j: int| 0 <= j < self.identities.keys().len() && self.identities.keys()[j] == k;
        }
        let sig = structural_signature(&entity.fields);
        let mut i: usize = 0;
        while i < n
            invariant
                i <= n,
                n == self.identities.keys().len(),
                sig@ == structural_signature_of(entity.fields@),
                !self.identities().dom().contains(unicode_lower(entity.name@)),
                forall|k: Seq<char>| #[trigger] self.identities().dom().contains(k) ==> !names_match(
                    self.identities()[k],
                    entity.name@,
                ),
                forall|k: Seq<char>| #[trigger] self.identities.map().dom().contains(k) <==> self.identities.keys().contains(k),
                forall|j: int|
                    0 <= j < i ==> !signatures_alike(
                        self.identities.map()[#[trigger] self.identities.keys()[j]].signature,
                        sig@,
                    ),
            decreases n - i,
        {
            let (key, identity) = self.identities.entry_at(i);
            if signatures_match(identity.structural_signature.as_str(), sig.as_str()) {
                assert(self.identities().dom().contains(key@));
                assert(identity@ == self.identities()[key@]);
                assert(signatures_alike(self.identities()[key@].signature, sig@));
                assert(!self.identities().dom().contains(unicode_lower(entity.name@)));
                return Some(identity);
            }
            i += 1;
        }
        assert forall|k: Seq<char>| #[trigger] self.identities().dom().contains(k) implies !signatures_alike(
            self.identities()[k].signature,
            sig@,
        ) by {
            assert(self.identities.keys().contains(k));
            let j = choose|j: int| 0 <= j < self.identities.keys().len() && self.identities.keys()[j] == k;
        }
        None
    }
}

impl Default for IdentityMatcher {
    fn default() -> (r: Self)
        ensures
            r.identities() == Map::<Seq<char>, IdentityView>::empty(),
            r.renames() == Map::<Seq<char>, Seq<char>>::empty(),
    {
        IdentityMatcher::new()
    }
}

/// Once `from` is renamed to `to`, the canonical name of `from` is `to`.
pub proof fn law_rename_then_canonical(
    before: IdentityMatcher,
    after: IdentityMatcher,
    from: Seq<char>,
    to: Seq<char>,
    answer: Seq<char>,
)
    requires
        after.renames() == before.renames().insert(unicode_lower(from), to),
        after.canonical_ok(from, answer),
    ensures
        answer == to,
{
}

/// A name nothing was learned about is its own canonical name.
pub proof fn law_unknown_name_is_canonical(m: IdentityMatcher, name: Seq<char>, answer: Seq<char>)
    requires
        !m.renames().dom().contains(unicode_lower(name)),
        forall|k: Seq<char>| #[trigger] m.identities().dom().contains(k) ==> !names_match(m.identities()[k], name),
        m.canonical_ok(name, answer),
    ensures
        answer == name,
{
}


/// Registering an identity whose ASCII canonical name equals, ignoring ASCII
/// case, that of one registered before replaces it: one identity stays under
/// that name, the later one.
pub proof fn law_register_same_name_replaces(
    before: IdentityMatcher,
    middle: IdentityMatcher,
    after: IdentityMatcher,
    first: EntityIdentity,
    second: EntityIdentity,
)
    requires
        all_ascii(first.canonical_name@),
        all_ascii(second.canonical_name@),
        eq_ic(first.canonical_name@, second.canonical_name@),
        middle.identities() == before.identities().insert(lower_seq(first.canonical_name@), first@),
        after.identities() == middle.identities().insert(lower_seq(second.canonical_name@), second@),
    ensures
        after.identities() == before.identities().insert(lower_seq(first.canonical_name@), second@),
        after.identities().dom() == before.identities().dom().insert(lower_seq(first.canonical_name@)),
{
    assert(after.identities() =~= before.identities().insert(lower_seq(first.canonical_name@), second@));
}

/// A matcher that knows nothing yet answers every name with itself.
pub proof fn law_new_matcher_answers_names_with_themselves(
    m: IdentityMatcher,
    name: Seq<char>,
    answer: Seq<char>,
)
    requires
        m.identities() == Map::<Seq<char>, IdentityView>::empty(),
        m.renames() == Map::<Seq<char>, Seq<char>>::empty(),
        m.canonical_ok(name, answer),
    ensures
        answer == name,
{
}


/// A matcher that knows nothing yet finds no identity for any entity.
pub proof fn law_new_matcher_finds_nothing(
    m: IdentityMatcher,
    entity: EntityShape,
    answer: Option<IdentityView>,
)
    requires
        m.identities() == Map::<Seq<char>, IdentityView>::empty(),
        m.found(entity, answer),
    ensures
        answer is None,
{
}

} // verus!
