//! Classification of changed file paths (Unix paths, `/`-separated): SQL
//! migrations, API definitions and model definitions.
use vstd::prelude::*;

use crate::text::{
    chars_of, ends_with, has_suffix, lower, lower_seq, opt_view, split, split_seq, str_eq,
    string_of_range, strs,
};

verus! {

/// The `/`-separated segments of a path.
pub open spec fn segs(p: Seq<char>) -> Seq<Seq<char>> {
    split_seq(p, '/')
}

/// Some segment of the path is, ignoring ASCII case, one of `names`.
pub open spec fn has_segment_in(p: Seq<char>, names: Set<Seq<char>>) -> bool {
    exists|i: int| 0 <= i < segs(p).len() && names.contains(lower_seq(#[trigger] segs(p)[i]))
}

/// Index of the last segment that is neither empty nor `.`, or -1.
pub open spec fn last_named_ix(s: Seq<Seq<char>>) -> int
    decreases s.len(),
{
    if s.len() == 0 {
        -1
    } else if s.last() != Seq::<char>::empty() && s.last() != "."@ {
        s.len() - 1
    } else {
        last_named_ix(s.drop_last())
    }
}

/// The final component of the path, unless it is `..` (`Path::file_name`).
pub open spec fn file_name_of(p: Seq<char>) -> Option<Seq<char>> {
    let k = last_named_ix(segs(p));
    if k < 0 || segs(p)[k] == ".."@ {
        None
    } else {
        Some(segs(p)[k])
    }
}

/// Index of the last `.` of a name, or -1.
pub open spec fn last_dot(n: Seq<char>) -> int
    decreases n.len(),
{
    if n.len() == 0 {
        -1
    } else if n.last() == '.' {
        n.len() - 1
    } else {
        last_dot(n.drop_last())
    }
}

/// The extension of a file name: after its last `.`, when that `.` is not
/// its first character (`Path::extension`).
pub open spec fn extension_of(p: Seq<char>) -> Option<Seq<char>> {
    match file_name_of(p) {
        Some(n) => if last_dot(n) > 0 {
            Some(n.subrange(last_dot(n) + 1, n.len() as int))
        } else {
            None
        },
        None => None,
    }
}

/// The file name without its extension (`Path::file_stem`).
pub open spec fn stem_of(p: Seq<char>) -> Option<Seq<char>> {
    match file_name_of(p) {
        Some(n) => if last_dot(n) > 0 {
            Some(n.subrange(0, last_dot(n)))
        } else {
            Some(n)
        },
        None => None,
    }
}

pub open spec fn or_empty(o: Option<Seq<char>>) -> Seq<char> {
    match o {
        Some(s) => s,
        None => Seq::<char>::empty(),
    }
}

pub open spec fn migration_dirs() -> Set<Seq<char>> {
    set!["migration"@, "migrations"@]
}

pub open spec fn api_files() -> Set<Seq<char>> {
    set![
        "openapi.yaml"@,
        "openapi.yml"@,
        "openapi.json"@,
        "swagger.yaml"@,
        "swagger.yml"@,
        "swagger.json"@,
    ]
}

pub open spec fn api_exts() -> Set<Seq<char>> {
    set!["yaml"@, "yml"@, "json"@]
}

pub open spec fn api_dirs() -> Set<Seq<char>> {
    set!["api"@]
}

pub open spec fn model_exts() -> Set<Seq<char>> {
    set![
        "rs"@,
        "ts"@,
        "tsx"@,
        "js"@,
        "jsx"@,
        "py"@,
        "go"@,
        "json"@,
        "yaml"@,
        "yml"@,
        "toml"@,
    ]
}

pub open spec fn model_dirs() -> Set<Seq<char>> {
    set!["models"@, "entities"@, "schemas"@, "contracts"@]
}

/// A `.sql` file under a `migration(s)` directory.
pub open spec fn is_migration_spec(p: Seq<char>) -> bool {
    &&& extension_of(p) is Some
    &&& lower_seq(extension_of(p)->0) == "sql"@
    &&& has_segment_in(p, migration_dirs())
}

/// An OpenAPI/Swagger file, or a YAML/JSON file under an `api` directory.
pub open spec fn is_api_spec(p: Seq<char>) -> bool {
    ||| api_files().contains(lower_seq(or_empty(file_name_of(p))))
    ||| (api_exts().contains(lower_seq(or_empty(extension_of(p)))) && has_segment_in(
        p,
        api_dirs(),
    ))
}

/// A source or data file that defines a model: its stem ends in `_model`,
/// `_entity`, `_schema` or `_contract`, or it lies under a models-like
/// directory; migrations excluded.
pub open spec fn is_model_spec(p: Seq<char>) -> bool {
    let stem = lower_seq(or_empty(stem_of(p)));
    &&& !is_migration_spec(p)
    &&& model_exts().contains(lower_seq(or_empty(extension_of(p))))
    &&& (has_suffix(stem, "_model"@) || has_suffix(stem, "_entity"@) || has_suffix(
        stem,
        "_schema"@,
    ) || has_suffix(stem, "_contract"@) || has_segment_in(p, model_dirs()))
}

/// Whether some segment of the path is, ignoring ASCII case, one of `names`.
fn segment_in(p: &str, names: &Vec<&str>, Ghost(set): Ghost<Set<Seq<char>>>) -> (r: bool)
    requires
        forall|x: Seq<char>|
            #[trigger] set.contains(x) <==> exists|j: int| 0 <= j < names@.len() && names@[j]@ == x,
    ensures
        r == has_segment_in(p@, set),
{
    let parts = split(p, '/');
    let mut i: usize = 0;
    while i < parts.len()
        invariant
            i <= parts.len(),
            strs(parts@) == segs(p@),
            forall|x: Seq<char>|
                #[trigger] set.contains(x) <==> exists|j: int|
                    0 <= j < names@.len() && names@[j]@ == x,
            forall|k: int| 0 <= k < i ==> !set.contains(lower_seq(#[trigger] segs(p@)[k])),
        decreases parts.len() - i,
    {
        assert(segs(p@)[i as int] == parts@[i as int]@);
        if lower_in(parts[i].as_str(), names) {
            assert(set.contains(lower_seq(segs(p@)[i as int])));
            return true;
        }
        i += 1;
    }
    false
}

/// Whether `x` is, ignoring ASCII case, one of `names`.
fn lower_in(x: &str, names: &Vec<&str>) -> (r: bool)
    ensures
        r == exists|j: int| 0 <= j < names@.len() && names@[j]@ == lower_seq(x@),
{
    let l = lower(x);
    let mut j: usize = 0;
    while j < names.len()
        invariant
            j <= names.len(),
            l@ == lower_seq(x@),
            forall|m: int| 0 <= m < j ==> names@[m]@ != l@,
        decreases names.len() - j,
    {
        if str_eq(names[j], l.as_str()) {
            return true;
        }
        j += 1;
    }
    false
}

/// Whether a segment is empty or `.`, which names no component.
fn is_unnamed(s: &String) -> (r: bool)
    ensures
        r == (s@ == Seq::<char>::empty() || s@ == "."@),
{
    let n = s.unicode_len();
    if n == 0 {
        assert(s@ =~= Seq::<char>::empty());
        return true;
    }
    str_eq(s.as_str(), ".")
}

/// The file name of a path, if it has one.
fn file_name_str(p: &str) -> (r: Option<String>)
    ensures
        opt_view(r) == file_name_of(p@),
{
    let parts = split(p, '/');
    let mut k = parts.len();
    assert(strs(parts@).subrange(0, parts@.len() as int) =~= strs(parts@));
    while k > 0 && is_unnamed(&parts[k - 1])
        invariant
            k <= parts.len(),
            strs(parts@) == segs(p@),
            last_named_ix(segs(p@)) == last_named_ix(strs(parts@).subrange(0, k as int)),
        decreases k,
    {
        let ghost t = strs(parts@).subrange(0, k as int);
        assert(t.drop_last() =~= strs(parts@).subrange(0, k - 1));
        k -= 1;
    }
    let ghost t = strs(parts@).subrange(0, k as int);
    if k == 0 {
        assert(t =~= Seq::<Seq<char>>::empty());
        return None;
    }
    assert(t.last() == parts@[k - 1]@);
    assert(last_named_ix(segs(p@)) == k - 1);
    if str_eq(parts[k - 1].as_str(), "..") {
        return None;
    }
    Some(parts[k - 1].clone())
}

/// One past the index of the last `.` of a name (0 when it has none).
fn after_last_dot(nv: &Vec<char>) -> (d: usize)
    ensures
        d == last_dot(nv@) + 1,
        d <= nv@.len(),
{
    let mut d = nv.len();
    assert(nv@.subrange(0, nv@.len() as int) =~= nv@);
    while d > 0 && nv[d - 1] != '.'
        invariant
            d <= nv.len(),
            last_dot(nv@) == last_dot(nv@.subrange(0, d as int)),
        decreases d,
    {
        let ghost t = nv@.subrange(0, d as int);
        assert(t.drop_last() =~= nv@.subrange(0, d - 1));
        d -= 1;
    }
    let ghost t = nv@.subrange(0, d as int);
    if d == 0 {
        assert(t =~= Seq::<char>::empty());
    } else {
        assert(t.last() == '.');
    }
    d
}

/// The file name, extension and stem of a path (empty when absent).
pub fn path_parts(p: &str) -> (r: (String, String, String))
    ensures
        r.0@ == or_empty(file_name_of(p@)),
        r.1@ == or_empty(extension_of(p@)),
        r.2@ == or_empty(stem_of(p@)),
{
    match file_name_str(p) {
        None => (String::new(), String::new(), String::new()),
        Some(name) => {
            let nv = chars_of(name.as_str());
            let d = after_last_dot(&nv);
            if d >= 2 {
                let ext = string_of_range(nv.as_slice(), d, nv.len());
                let stem = string_of_range(nv.as_slice(), 0, d - 1);
                (name, ext, stem)
            } else {
                let stem = name.clone();
                (name, String::new(), stem)
            }
        },
    }
}

/// Whether the path has an extension at all.
fn has_extension(p: &str) -> (r: bool)
    ensures
        r == (extension_of(p@) is Some),
{
    match file_name_str(p) {
        None => false,
        Some(name) => {
            let nv = chars_of(name.as_str());
            after_last_dot(&nv) >= 2
        },
    }
}

/// A `.sql` file under a `migration` or `migrations` directory.
pub fn is_migration_path(path: &str) -> (r: bool)
    ensures
        r == is_migration_spec(path@),
{
    if !has_extension(path) {
        return false;
    }
    let (_name, ext, _stem) = path_parts(path);
    if !str_eq(lower(ext.as_str()).as_str(), "sql") {
        return false;
    }
    let mut names: Vec<&str> = Vec::new();
    names.push("migration");
    names.push("migrations");
    assert forall|x: Seq<char>| #[trigger] migration_dirs().contains(x) <==> exists|j: int|
        0 <= j < names@.len() && names@[j]@ == x by {
        if migration_dirs().contains(x) {
            if x == "migration"@ {
                assert(names@[0]@ == x);
            } else {
                assert(names@[1]@ == x);
            }
        }
    }
    segment_in(path, &names, Ghost(migration_dirs()))
}

/// An OpenAPI or Swagger document, or a YAML/JSON file under an `api` directory.
pub fn is_api_definition_path(path: &str) -> (r: bool)
    ensures
        r == is_api_spec(path@),
{
    let (name, ext, _stem) = path_parts(path);
    let mut files: Vec<&str> = Vec::new();
    files.push("openapi.yaml");
    files.push("openapi.yml");
    files.push("openapi.json");
    files.push("swagger.yaml");
    files.push("swagger.yml");
    files.push("swagger.json");
    let named = lower_in(name.as_str(), &files);
    assert(named == api_files().contains(lower_seq(name@))) by {
        if api_files().contains(lower_seq(name@)) {
            let l = lower_seq(name@);
            if l == "openapi.yaml"@ { assert(files@[0]@ == l); }
            else if l == "openapi.yml"@ { assert(files@[1]@ == l); }
            else if l == "openapi.json"@ { assert(files@[2]@ == l); }
            else if l == "swagger.yaml"@ { assert(files@[3]@ == l); }
            else if l == "swagger.yml"@ { assert(files@[4]@ == l); }
            else { assert(files@[5]@ == l); }
        }
    }
    if named {
        return true;
    }
    let mut exts: Vec<&str> = Vec::new();
    exts.push("yaml");
    exts.push("yml");
    exts.push("json");
    let ext_ok = lower_in(ext.as_str(), &exts);
    assert(ext_ok == api_exts().contains(lower_seq(ext@))) by {
        if api_exts().contains(lower_seq(ext@)) {
            let l = lower_seq(ext@);
            if l == "yaml"@ { assert(exts@[0]@ == l); }
            else if l == "yml"@ { assert(exts@[1]@ == l); }
            else { assert(exts@[2]@ == l); }
        }
    }
    if !ext_ok {
        return false;
    }
    let mut dirs: Vec<&str> = Vec::new();
    dirs.push("api");
    assert forall|x: Seq<char>| #[trigger] api_dirs().contains(x) <==> exists|j: int|
        0 <= j < dirs@.len() && dirs@[j]@ == x by {
        if api_dirs().contains(x) {
            assert(dirs@[0]@ == x);
        }
    }
    segment_in(path, &dirs, Ghost(api_dirs()))
}

/// A model definition file (see `is_model_spec`).
pub fn is_model_definition_path(path: &str) -> (r: bool)
    ensures
        r == is_model_spec(path@),
{
    if is_migration_path(path) {
        return false;
    }
    let (_name, ext, stem) = path_parts(path);
    let mut exts: Vec<&str> = Vec::new();
    exts.push("rs");
    exts.push("ts");
    exts.push("tsx");
    exts.push("js");
    exts.push("jsx");
    exts.push("py");
    exts.push("go");
    exts.push("json");
    exts.push("yaml");
    exts.push("yml");
    exts.push("toml");
    let ext_ok = lower_in(ext.as_str(), &exts);
    assert(ext_ok == model_exts().contains(lower_seq(ext@))) by {
        if model_exts().contains(lower_seq(ext@)) {
            let l = lower_seq(ext@);
            if l == "rs"@ { assert(exts@[0]@ == l); }
            else if l == "ts"@ { assert(exts@[1]@ == l); }
            else if l == "tsx"@ { assert(exts@[2]@ == l); }
            else if l == "js"@ { assert(exts@[3]@ == l); }
            else if l == "jsx"@ { assert(exts@[4]@ == l); }
            else if l == "py"@ { assert(exts@[5]@ == l); }
            else if l == "go"@ { assert(exts@[6]@ == l); }
            else if l == "json"@ { assert(exts@[7]@ == l); }
            else if l == "yaml"@ { assert(exts@[8]@ == l); }
            else if l == "yml"@ { assert(exts@[9]@ == l); }
            else { assert(exts@[10]@ == l); }
        }
    }
    if !ext_ok {
        return false;
    }
    let ls = lower(stem.as_str());
    if ends_with(ls.as_str(), "_model") || ends_with(ls.as_str(), "_entity") || ends_with(
        ls.as_str(),
        "_schema",
    ) || ends_with(ls.as_str(), "_contract") {
        return true;
    }
    let mut dirs: Vec<&str> = Vec::new();
    dirs.push("models");
    dirs.push("entities");
    dirs.push("schemas");
    dirs.push("contracts");
    assert forall|x: Seq<char>| #[trigger] model_dirs().contains(x) <==> exists|j: int|
        0 <= j < dirs@.len() && dirs@[j]@ == x by {
        if model_dirs().contains(x) {
            if x == "models"@ {
                assert(dirs@[0]@ == x);
            } else if x == "entities"@ {
                assert(dirs@[1]@ == x);
            } else if x == "schemas"@ {
                assert(dirs@[2]@ == x);
            } else {
                assert(dirs@[3]@ == x);
            }
        }
    }
    segment_in(path, &dirs, Ghost(model_dirs()))
}

} // verus!
