//! Dependency keys: how a drifted contract element is matched to the
//! consumers that depend on it.
use vstd::prelude::*;

use crate::contracts::definition::ConsumerDependency;
use crate::strset::{insert_sorted, lemma_sorted_strs, sorted_strs, contains_string};
use crate::text::{
    eq_ic, eq_ignore_case, has_sub, contains, is_alnum_char, is_ascii_alnum, lower_c, lower_char,
    push_char, split, split_seq, strictly_sorted, strs,
};

verus! {

/// Two shared tokens are required to map a drift key to a consumer
/// dependency without exact string matching.
pub const MIN_TOKEN_OVERLAP: usize = 2;

/// Lowercased alphanumerics, with every run of other characters collapsed to
/// one `.` (the normalized text so far, and whether it ends in such a run).
pub open spec fn norm_acc(s: Seq<char>) -> (Seq<char>, bool)
    decreases s.len(),
{
    if s.len() == 0 {
        (Seq::<char>::empty(), false)
    } else {
        let prev = norm_acc(s.drop_last());
        let c = s.last();
        if is_ascii_alnum(c) {
            (prev.0.push(lower_c(c)), false)
        } else if !prev.1 {
            (prev.0.push('.'), true)
        } else {
            prev
        }
    }
}

/// One leading and one trailing `.` removed.
pub open spec fn strip_dots(n: Seq<char>) -> Seq<char> {
    let a = if n.len() > 0 && n[0] == '.' {
        n.drop_first()
    } else {
        n
    };
    if a.len() > 0 && a.last() == '.' {
        a.drop_last()
    } else {
        a
    }
}

/// The normalized form of a dependency key.
pub open spec fn normalize_key_seq(s: Seq<char>) -> Seq<char> {
    strip_dots(norm_acc(s).0)
}

/// The non-empty `.`-separated tokens of a key.
pub open spec fn tokens(s: Seq<char>) -> Set<Seq<char>> {
    Set::new(|t: Seq<char>| split_seq(s, '.').contains(t) && t.len() > 0)
}

/// The two keys share at least two distinct tokens.
pub open spec fn token_overlap(l: Seq<char>, r: Seq<char>) -> bool {
    exists|a: Seq<char>, b: Seq<char>|
        a != b && #[trigger] tokens(l).contains(a) && tokens(r).contains(a) && #[trigger] tokens(
            l,
        ).contains(b) && tokens(r).contains(b)
}

/// The dependency's declared type is compatible with the drifted type.
pub open spec fn type_compatible(kind: Option<Seq<char>>, expected: Option<String>) -> bool {
    match kind {
        None => true,
        Some(k) => match expected {
            None => true,
            Some(e) => eq_ic(e@, k),
        },
    }
}

/// The dependency is affected by a drift of the (normalized) key `key`.
pub open spec fn dependency_matches(
    dep: ConsumerDependency,
    key: Seq<char>,
    kind: Option<Seq<char>>,
) -> bool {
    let name = normalize_key_seq(dep.dependency@);
    &&& (has_sub(name, key) || has_sub(key, name) || token_overlap(key, name))
    &&& type_compatible(kind, dep.expected_type)
}

/// The consumers among `deps[0..n]` affected by a drift of `key`.
pub open spec fn affected_set(
    deps: Seq<ConsumerDependency>,
    n: int,
    key: Seq<char>,
    kind: Option<Seq<char>>,
) -> Set<Seq<char>> {
    Set::new(
        |c: Seq<char>|
            exists|i: int|
                0 <= i < n && dependency_matches(#[trigger] deps[i], key, kind) && deps[i].consumer@
                    == c,
    )
}

/// The sorted, distinct consumers affected by a drift of the raw key `raw`.
pub open spec fn impacted_spec(
    deps: Seq<ConsumerDependency>,
    raw: Seq<char>,
    kind: Option<Seq<char>>,
) -> Seq<Seq<char>> {
    sorted_strs(affected_set(deps, deps.len() as int, normalize_key_seq(raw), kind))
}

/// Normalizes a dependency key: lowercase alphanumerics, runs of other
/// characters collapsed to `.`, no leading or trailing `.`.
pub fn normalize_key(value: &str) -> (r: String)
    ensures
        r@ == normalize_key_seq(value@),
{
    let n = value.unicode_len();
    let mut normalized: Vec<char> = Vec::new();
    let mut previous_was_sep = false;
    let mut i: usize = 0;
    while i < n
        invariant
            n == value@.len(),
            i <= n,
            (normalized@, previous_was_sep) == norm_acc(value@.subrange(0, i as int)),
        decreases n - i,
    {
        let ch = value.get_char(i);
        proof {
            let t = value@.subrange(0, i + 1);
            assert(t.drop_last() =~= value@.subrange(0, i as int));
            assert(t.last() == ch);
        }
        if is_alnum_char(ch) {
            normalized.push(lower_char(ch));
            previous_was_sep = false;
        } else if !previous_was_sep {
            normalized.push('.');
            previous_was_sep = true;
        }
        i += 1;
    }
    assert(value@.subrange(0, n as int) =~= value@);
    let ghost full = normalized@;
    let mut start: usize = 0;
    if normalized.len() > 0 && normalized[0] == '.' {
        start = 1;
    }
    let mut end: usize = normalized.len();
    if end > start && normalized[end - 1] == '.' {
        end = end - 1;
    }
    let mut out = String::new();
    let mut k: usize = start;
    while k < end
        invariant
            start <= k <= end <= normalized.len(),
            out@ == normalized@.subrange(start as int, k as int),
        decreases end - k,
    {
        push_char(&mut out, normalized[k]);
        k += 1;
    }
    proof {
        let a = if full.len() > 0 && full[0] == '.' {
            full.drop_first()
        } else {
            full
        };
        assert(a =~= full.subrange(start as int, full.len() as int));
        if a.len() > 0 && a.last() == '.' {
            assert(a.drop_last() =~= full.subrange(start as int, end as int));
        } else {
            assert(a =~= full.subrange(start as int, end as int));
        }
    }
    out
}

/// Whether the two keys share at least two distinct non-empty `.` tokens.
pub fn has_token_overlap(left: &str, right: &str) -> (r: bool)
    ensures
        r == token_overlap(left@, right@),
{
    let lt = split(left, '.');
    let rt = split(right, '.');
    let mut common: Vec<String> = Vec::new();
    let mut i: usize = 0;
    while i < lt.len()
        invariant
            i <= lt.len(),
            strs(lt@) == split_seq(left@, '.'),
            strs(rt@) == split_seq(right@, '.'),
            common@.len() < MIN_TOKEN_OVERLAP,
            forall|j: int, k: int|
                0 <= j < k < common@.len() ==> common@[j]@ != common@[k]@,
            forall|j: int|
                0 <= j < common@.len() ==> tokens(left@).contains(#[trigger] common@[j]@)
                    && tokens(right@).contains(common@[j]@),
            forall|t: Seq<char>|
                #![trigger tokens(left@).contains(t)]
                tokens(left@).contains(t) && tokens(right@).contains(t) && (exists|j: int|
                    0 <= j < i && strs(lt@)[j] == t) ==> strs(common@).contains(t),
        decreases lt.len() - i,
    {
        let tok = &lt[i];
        assert(strs(lt@)[i as int] == tok@);
        if tok.unicode_len() > 0 && contains_string(&rt, tok.as_str()) && !contains_string(
            &common,
            tok.as_str(),
        ) {
            proof {
                assert(split_seq(left@, '.').contains(tok@));
                assert(tokens(left@).contains(tok@));
                assert(tokens(right@).contains(tok@));
            }
            let ghost before = common@;
            common.push(tok.clone());
            if common.len() >= MIN_TOKEN_OVERLAP {
                proof {
                    let a = common@[0]@;
                    let b = common@[1]@;
                    assert(before.len() == 1);
                    assert(strs(before)[0] == a);
                    assert(b == tok@);
                    assert(!strs(before).contains(tok@));
                    assert(a != b);
                    assert(tokens(left@).contains(a) && tokens(right@).contains(a));
                    assert(tokens(left@).contains(b) && tokens(right@).contains(b));
                }
                return true;
            }
            proof {
                assert forall|t: Seq<char>|
                    #![trigger tokens(left@).contains(t)]
                    tokens(left@).contains(t) && tokens(right@).contains(t) && (exists|j: int|
                        0 <= j < i + 1 && strs(lt@)[j] == t) implies strs(common@).contains(t) by {
                    let j = choose|j: int| 0 <= j < i + 1 && strs(lt@)[j] == t;
                    if j < i {
                        assert(strs(before).contains(t));
                        let m = choose|m: int| 0 <= m < before.len() && strs(before)[m] == t;
                        assert(strs(common@)[m] == t);
                    } else {
                        assert(strs(common@)[common@.len() - 1] == t);
                    }
                }
            }
        } else {
            proof {
                assert forall|t: Seq<char>|
                    #![trigger tokens(left@).contains(t)]
                    tokens(left@).contains(t) && tokens(right@).contains(t) && (exists|j: int|
                        0 <= j < i + 1 && strs(lt@)[j] == t) implies strs(common@).contains(t) by {
                    let j = choose|j: int| 0 <= j < i + 1 && strs(lt@)[j] == t;
                    if j == i {
                        assert(t.len() > 0);
                        assert(split_seq(right@, '.').contains(t));
                        assert(strs(rt@).contains(tok@));
                    }
                }
            }
        }
        i += 1;
    }
    proof {
        if token_overlap(left@, right@) {
            let (a, b) = choose|a: Seq<char>, b: Seq<char>|
                a != b && #[trigger] tokens(left@).contains(a) && tokens(right@).contains(a)
                    && #[trigger] tokens(left@).contains(b) && tokens(right@).contains(b);
            assert(split_seq(left@, '.').contains(a));
            assert(split_seq(left@, '.').contains(b));
            let ja = choose|j: int| 0 <= j < strs(lt@).len() && strs(lt@)[j] == a;
            let jb = choose|j: int| 0 <= j < strs(lt@).len() && strs(lt@)[j] == b;
            assert(strs(common@).contains(a));
            assert(strs(common@).contains(b));
            let ma = choose|m: int| 0 <= m < common@.len() && strs(common@)[m] == a;
            let mb = choose|m: int| 0 <= m < common@.len() && strs(common@)[m] == b;
            assert(ma != mb);
        }
    }
    false
}

/// Whether `dep` is affected by a drift of the normalized key `key`.
fn dependency_affected(dep: &ConsumerDependency, key: &str, kind: Option<&str>) -> (r: bool)
    ensures
        r == dependency_matches(
            *dep,
            key@,
            match kind {
                Some(k) => Some(k@),
                None => None,
            },
        ),
{
    let name = normalize_key(dep.dependency.as_str());
    let related = contains(name.as_str(), key) || contains(key, name.as_str())
        || has_token_overlap(key, name.as_str());
    if !related {
        return false;
    }
    match kind {
        None => true,
        Some(k) => match &dep.expected_type {
            None => true,
            Some(e) => eq_ignore_case(e.as_str(), k),
        },
    }
}

/// The consumers affected by a drift of `dependency_key`, as a sorted set:
/// those whose dependency contains the key, is contained in it, or shares two
/// tokens with it, and whose expected type (if both are known) agrees.
pub fn impacted_consumers(
    dependencies: &Vec<ConsumerDependency>,
    dependency_key: &str,
    expected_type: Option<&str>,
) -> (r: Vec<String>)
    ensures
        strs(r@) == impacted_spec(
            dependencies@,
            dependency_key@,
            match expected_type {
                Some(k) => Some(k@),
                None => None,
            },
        ),
{
    let key = normalize_key(dependency_key);
    let ghost kind = match expected_type {
        Some(k) => Some(k@),
        None => None,
    };
    let mut out: Vec<String> = Vec::new();
    let mut i: usize = 0;
    while i < dependencies.len()
        invariant
            i <= dependencies.len(),
            key@ == normalize_key_seq(dependency_key@),
            kind == match expected_type {
                Some(k) => Some(k@),
                None => None,
            },
            strictly_sorted(strs(out@)),
            strs(out@).to_set() == affected_set(dependencies@, i as int, key@, kind),
        decreases dependencies.len() - i,
    {
        let dep = &dependencies[i];
        let ghost before = strs(out@).to_set();
        if dependency_affected(dep, key.as_str(), expected_type) {
            insert_sorted(&mut out, dep.consumer.clone());
            assert(strs(out@).to_set() =~= affected_set(dependencies@, i + 1, key@, kind)) by {
                assert forall|c: Seq<char>|
                    affected_set(dependencies@, i + 1, key@, kind).contains(c) implies before.insert(
                    dep.consumer@,
                ).contains(c) by {
                    let j = choose|j: int|
                        0 <= j < i + 1 && dependency_matches(
                            #[trigger] dependencies@[j],
                            key@,
                            kind,
                        ) && dependencies@[j].consumer@ == c;
                    if j < i {
                        assert(affected_set(dependencies@, i as int, key@, kind).contains(c));
                    }
                }
                assert forall|c: Seq<char>|
                    before.insert(dep.consumer@).contains(c) implies affected_set(
                    dependencies@,
                    i + 1,
                    key@,
                    kind,
                ).contains(c) by {
                    if c != dep.consumer@ {
                        assert(affected_set(dependencies@, i as int, key@, kind).contains(c));
                        let j = choose|j: int|
                            0 <= j < i && dependency_matches(
                                #[trigger] dependencies@[j],
                                key@,
                                kind,
                            ) && dependencies@[j].consumer@ == c;
                        assert(0 <= j < i + 1);
                    } else {
                        assert(dependency_matches(dependencies@[i as int], key@, kind));
                    }
                }
            }
        } else {
            assert(strs(out@).to_set() =~= affected_set(dependencies@, i + 1, key@, kind)) by {
                assert forall|c: Seq<char>|
                    affected_set(dependencies@, i + 1, key@, kind).contains(c) implies before.contains(
                    c,
                ) by {
                    let j = choose|j: int|
                        0 <= j < i + 1 && dependency_matches(
                            #[trigger] dependencies@[j],
                            key@,
                            kind,
                        ) && dependencies@[j].consumer@ == c;
                    assert(j < i);
                    assert(affected_set(dependencies@, i as int, key@, kind).contains(c));
                }
                assert forall|c: Seq<char>|
                    before.contains(c) implies affected_set(
                    dependencies@,
                    i + 1,
                    key@,
                    kind,
                ).contains(c) by {
                    let j = choose|j: int|
                        0 <= j < i && dependency_matches(
                            #[trigger] dependencies@[j],
                            key@,
                            kind,
                        ) && dependencies@[j].consumer@ == c;
                    assert(0 <= j < i + 1);
                }
            }
        }
        i += 1;
    }
    proof {
        lemma_sorted_strs(strs(out@), affected_set(dependencies@, dependencies@.len() as int, key@, kind));
    }
    out
}

} // verus!
