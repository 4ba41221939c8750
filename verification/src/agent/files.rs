//! Classification of `git status --porcelain`-style lines into file change
//! events.
use vstd::prelude::*;

use crate::agent::paths::{
    is_api_definition_path, is_api_spec, is_migration_path, is_migration_spec,
    is_model_definition_path, is_model_spec,
};
use crate::strset::{insert_sorted, lemma_sorted_strs, lemma_sorted_strs_of, sorted_strs};
use crate::text::{
    utf8_len, utf8_width,
    chars_of, contains, has_sub, join, join_seq, push_char, str_eq, string_of_range,
    strictly_sorted, strs, trim, trim_end, trim_end_seq, trim_seq, words, words_seq,
};

verus! {

/// What happened to a file. The order of the variants is the order in which
/// events are reported.
#[derive(Debug, Clone, Copy, PartialEq, Eq, Structural, PartialOrd, Ord, Hash)]
pub enum FileChangeEventKind {
    FileCreated,
    FileModified,
    FileDeleted,
    MigrationChanged,
    ApiChanged,
    ModelChanged,
}

/// One classified change of one path.
#[derive(Debug, Clone, PartialEq, Eq, PartialOrd, Ord, Hash)]
pub struct FileChangeEvent {
    pub kind: FileChangeEventKind,
    pub path: String,
}

/// The position of a kind in the report order, as a digit.
pub open spec fn kind_code(k: FileChangeEventKind) -> char {
    match k {
        FileChangeEventKind::FileCreated => '0',
        FileChangeEventKind::FileModified => '1',
        FileChangeEventKind::FileDeleted => '2',
        FileChangeEventKind::MigrationChanged => '3',
        FileChangeEventKind::ApiChanged => '4',
        FileChangeEventKind::ModelChanged => '5',
    }
}

/// An event as one character sequence: its kind's digit, then its path. The
/// order of these keys is the order of events by kind, then by path.
pub open spec fn event_key(k: FileChangeEventKind, path: Seq<char>) -> Seq<char> {
    seq![kind_code(k)] + path
}

pub open spec fn event_key_of(e: FileChangeEvent) -> Seq<char> {
    event_key(e.kind, e.path@)
}


/// The first two bytes of a line whose third character is a space, when they
/// end on a character boundary (else nothing).
pub open spec fn status_bytes(raw: Seq<char>) -> Seq<char> {
    let b1 = utf8_len(raw[0]);
    let b2 = b1 + utf8_len(raw[1]);
    if b1 == 2 {
        raw.subrange(0, 1)
    } else if b2 == 2 {
        raw.subrange(0, 2)
    } else {
        Seq::<char>::empty()
    }
}

/// What follows the first three bytes of such a line, when they end on a
/// character boundary (else nothing).
pub open spec fn path_bytes(raw: Seq<char>) -> Seq<char> {
    let b1 = utf8_len(raw[0]);
    let b2 = b1 + utf8_len(raw[1]);
    if b2 == 2 {
        raw.subrange(3, raw.len() as int)
    } else if b2 == 3 {
        raw.subrange(2, raw.len() as int)
    } else if b1 == 3 {
        raw.subrange(1, raw.len() as int)
    } else {
        Seq::<char>::empty()
    }
}

/// The status and path of a line with its trailing whitespace removed: the
/// fixed columns of porcelain output when the third character is a space,
/// else the first word and the remaining words joined by single spaces.
pub open spec fn parse_change(raw: Seq<char>) -> (Seq<char>, Seq<char>) {
    if raw.len() >= 3 && raw[2] == ' ' {
        (trim_seq(status_bytes(raw)), trim_seq(path_bytes(raw)))
    } else {
        let w = words_seq(raw);
        if w.len() == 0 {
            (Seq::<char>::empty(), Seq::<char>::empty())
        } else {
            (w[0], join_seq(w.drop_first(), " "@))
        }
    }
}

/// Untracked (`??`) or added (`A`) files are created, `D` deleted, anything
/// else modified.
pub open spec fn base_kind(status: Seq<char>) -> FileChangeEventKind {
    if status == "??"@ || has_sub(status, "A"@) {
        FileChangeEventKind::FileCreated
    } else if has_sub(status, "D"@) {
        FileChangeEventKind::FileDeleted
    } else {
        FileChangeEventKind::FileModified
    }
}

pub open spec fn key_if(b: bool, k: FileChangeEventKind, path: Seq<char>) -> Set<Seq<char>> {
    if b {
        set![event_key(k, path)]
    } else {
        Set::empty()
    }
}

/// The events of one line: none for a blank line or one without a path;
/// else its base kind and each special kind whose path test it passes.
pub open spec fn line_events(line: Seq<char>) -> Set<Seq<char>> {
    let raw = trim_end_seq(line);
    let status = parse_change(raw).0;
    let path = parse_change(raw).1;
    if trim_seq(raw).len() == 0 || path.len() == 0 {
        Set::empty()
    } else {
        set![event_key(base_kind(status), path)].union(
            key_if(is_migration_spec(path), FileChangeEventKind::MigrationChanged, path),
        ).union(key_if(is_api_spec(path), FileChangeEventKind::ApiChanged, path)).union(
            key_if(is_model_spec(path), FileChangeEventKind::ModelChanged, path),
        )
    }
}

/// The events of all lines.
pub open spec fn all_events(lines: Seq<Seq<char>>) -> Set<Seq<char>>
    decreases lines.len(),
{
    if lines.len() == 0 {
        Set::empty()
    } else {
        all_events(lines.drop_last()).union(line_events(lines.last()))
    }
}

proof fn lemma_line_in_all(lines: Seq<Seq<char>>, i: int)
    requires
        0 <= i < lines.len(),
    ensures
        line_events(lines[i]).subset_of(all_events(lines)),
    decreases lines.len(),
{
    if i < lines.len() - 1 {
        assert(lines.drop_last()[i] == lines[i]);
        lemma_line_in_all(lines.drop_last(), i);
    }
}

/// A changed-file line with a path whose status is `??` or contains `A`
/// yields a file-created event for that path among the classified events
/// (the keys of `classify_file_changes`' result).
pub proof fn law_added_or_untracked_file_is_created(lines: Seq<Seq<char>>, i: int)
    requires
        0 <= i < lines.len(),
        trim_seq(trim_end_seq(lines[i])).len() > 0,
        parse_change(trim_end_seq(lines[i])).1.len() > 0,
        parse_change(trim_end_seq(lines[i])).0 == "??"@ || has_sub(parse_change(trim_end_seq(lines[i])).0, "A"@),
    ensures
        sorted_strs(all_events(lines)).contains(
            event_key(FileChangeEventKind::FileCreated, parse_change(trim_end_seq(lines[i])).1),
        ),
{
    let key = event_key(FileChangeEventKind::FileCreated, parse_change(trim_end_seq(lines[i])).1);
    assert(line_events(lines[i]).contains(key));
    lemma_line_in_all(lines, i);
    lemma_all_events_finite_keyed(lines);
    lemma_sorted_strs_of(all_events(lines));
    assert(sorted_strs(all_events(lines)).to_set().contains(key));
}

/// A changed-file line with a path whose status is neither `??` nor holds
/// `A` but holds `D` yields a file-deleted event for that path.
pub proof fn law_deleted_file_is_deleted(lines: Seq<Seq<char>>, i: int)
    requires
        0 <= i < lines.len(),
        trim_seq(trim_end_seq(lines[i])).len() > 0,
        parse_change(trim_end_seq(lines[i])).1.len() > 0,
        parse_change(trim_end_seq(lines[i])).0 != "??"@,
        !has_sub(parse_change(trim_end_seq(lines[i])).0, "A"@),
        has_sub(parse_change(trim_end_seq(lines[i])).0, "D"@),
    ensures
        sorted_strs(all_events(lines)).contains(
            event_key(FileChangeEventKind::FileDeleted, parse_change(trim_end_seq(lines[i])).1),
        ),
{
    let key = event_key(FileChangeEventKind::FileDeleted, parse_change(trim_end_seq(lines[i])).1);
    assert(line_events(lines[i]).contains(key));
    lemma_line_in_all(lines, i);
    lemma_all_events_finite_keyed(lines);
    lemma_sorted_strs_of(all_events(lines));
    assert(sorted_strs(all_events(lines)).to_set().contains(key));
}

/// A changed-file line with a path whose status is not `??` and holds
/// neither `A` nor `D` yields a file-modified event for that path.
pub proof fn law_other_file_is_modified(lines: Seq<Seq<char>>, i: int)
    requires
        0 <= i < lines.len(),
        trim_seq(trim_end_seq(lines[i])).len() > 0,
        parse_change(trim_end_seq(lines[i])).1.len() > 0,
        parse_change(trim_end_seq(lines[i])).0 != "??"@,
        !has_sub(parse_change(trim_end_seq(lines[i])).0, "A"@),
        !has_sub(parse_change(trim_end_seq(lines[i])).0, "D"@),
    ensures
        sorted_strs(all_events(lines)).contains(
            event_key(FileChangeEventKind::FileModified, parse_change(trim_end_seq(lines[i])).1),
        ),
{
    let key = event_key(FileChangeEventKind::FileModified, parse_change(trim_end_seq(lines[i])).1);
    assert(line_events(lines[i]).contains(key));
    lemma_line_in_all(lines, i);
    lemma_all_events_finite_keyed(lines);
    lemma_sorted_strs_of(all_events(lines));
    assert(sorted_strs(all_events(lines)).to_set().contains(key));
}

/// Every key names a kind by its first character.
pub open spec fn well_keyed(s: Set<Seq<char>>) -> bool {
    forall|x: Seq<char>| #[trigger] s.contains(x) ==> x.len() >= 1 && '0' <= x[0] && x[0] <= '5'
}

proof fn lemma_all_events_finite_keyed(lines: Seq<Seq<char>>)
    ensures
        all_events(lines).finite(),
        well_keyed(all_events(lines)),
    decreases lines.len(),
{
    if lines.len() > 0 {
        lemma_all_events_finite_keyed(lines.drop_last());
    }
}

/// The status and path of a line without trailing whitespace.
fn parse_change_line(raw: &str) -> (r: (String, String))
    ensures
        r.0@ == parse_change(raw@).0,
        r.1@ == parse_change(raw@).1,
{
    let cs = chars_of(raw);
    if cs.len() >= 3 && cs[2] == ' ' {
        let b1 = utf8_width(cs[0]);
        let b2 = b1 + utf8_width(cs[1]);
        let head = if b1 == 2 {
            string_of_range(cs.as_slice(), 0, 1)
        } else if b2 == 2 {
            string_of_range(cs.as_slice(), 0, 2)
        } else {
            String::new()
        };
        let tail = if b2 == 2 {
            string_of_range(cs.as_slice(), 3, cs.len())
        } else if b2 == 3 {
            string_of_range(cs.as_slice(), 2, cs.len())
        } else if b1 == 3 {
            string_of_range(cs.as_slice(), 1, cs.len())
        } else {
            String::new()
        };
        (trim(head.as_str()), trim(tail.as_str()))
    } else {
        let w = words(raw);
        if w.len() == 0 {
            return (String::new(), String::new());
        }
        let mut rest: Vec<String> = Vec::new();
        let mut i: usize = 1;
        while i < w.len()
            invariant
                1 <= i <= w.len(),
                strs(rest@) == strs(w@).subrange(1, i as int),
            decreases w.len() - i,
        {
            let ghost before = rest@;
            let c = w[i].clone();
            rest.push(c);
            assert(rest@ == before.push(c));
            assert(c@ == w@[i as int]@);
            assert(strs(rest@) =~= strs(before).push(c@));
            assert(strs(rest@) =~= strs(w@).subrange(1, i + 1));
            i += 1;
        }
        assert(strs(w@).subrange(1, w@.len() as int) =~= strs(w@).drop_first());
        (w[0].clone(), join(&rest, " "))
    }
}

/// The key of an event, as a string.
fn key_string(k: FileChangeEventKind, path: &str) -> (r: String)
    ensures
        r@ == event_key(k, path@),
{
    let mut r = String::new();
    let c = match k {
        FileChangeEventKind::FileCreated => '0',
        FileChangeEventKind::FileModified => '1',
        FileChangeEventKind::FileDeleted => '2',
        FileChangeEventKind::MigrationChanged => '3',
        FileChangeEventKind::ApiChanged => '4',
        FileChangeEventKind::ModelChanged => '5',
    };
    push_char(&mut r, c);
    r.append(path);
    assert(r@ =~= event_key(k, path@));
    r
}

/// Adds the events of one line to a sorted set of keys.
fn add_line_events(line: &str, keys: &mut Vec<String>)
    requires
        strictly_sorted(strs(old(keys)@)),
    ensures
        strictly_sorted(strs(final(keys)@)),
        strs(final(keys)@).to_set() == strs(old(keys)@).to_set().union(line_events(line@)),
{
    let raw = trim_end(line);
    let blank = trim(raw.as_str());
    let (status, path) = parse_change_line(raw.as_str());
    if blank.unicode_len() == 0 || path.unicode_len() == 0 {
        assert(line_events(line@) =~= Set::empty());
        assert(strs(keys@).to_set().union(Set::empty()) =~= strs(keys@).to_set());
        return;
    }
    let ghost s0 = strs(keys@).to_set();
    let kind = if str_eq(status.as_str(), "??") || contains(status.as_str(), "A") {
        FileChangeEventKind::FileCreated
    } else if contains(status.as_str(), "D") {
        FileChangeEventKind::FileDeleted
    } else {
        FileChangeEventKind::FileModified
    };
    assert(kind == base_kind(status@));
    insert_sorted(keys, key_string(kind, path.as_str()));
    let mig = is_migration_path(path.as_str());
    if mig {
        insert_sorted(keys, key_string(FileChangeEventKind::MigrationChanged, path.as_str()));
    }
    let api = is_api_definition_path(path.as_str());
    if api {
        insert_sorted(keys, key_string(FileChangeEventKind::ApiChanged, path.as_str()));
    }
    let model = is_model_definition_path(path.as_str());
    if model {
        insert_sorted(keys, key_string(FileChangeEventKind::ModelChanged, path.as_str()));
    }
    assert(strs(keys@).to_set() =~= s0.union(line_events(line@)));
}

/// Classifies changed-file lines (`git status --porcelain` output, or
/// `STATUS PATH` pairs) into distinct events, sorted by kind and then path.
/// Each path yields its base event (created, modified or deleted) and one
/// event for each of the migration, API and model tests it passes.
pub fn classify_file_changes(changed_files: &Vec<String>) -> (r: Vec<FileChangeEvent>)
    ensures
        r@.map_values(|e: FileChangeEvent| event_key_of(e)) == sorted_strs(
            all_events(strs(changed_files@)),
        ),
{
    let mut keys: Vec<String> = Vec::new();
    let mut i: usize = 0;
    while i < changed_files.len()
        invariant
            i <= changed_files.len(),
            strictly_sorted(strs(keys@)),
            strs(keys@).to_set() == all_events(strs(changed_files@).subrange(0, i as int)),
        decreases changed_files.len() - i,
    {
        let ghost lines = strs(changed_files@).subrange(0, i + 1);
        assert(lines.drop_last() =~= strs(changed_files@).subrange(0, i as int));
        assert(lines.last() == changed_files@[i as int]@);
        add_line_events(changed_files[i].as_str(), &mut keys);
        i += 1;
    }
    assert(strs(changed_files@).subrange(0, changed_files@.len() as int) =~= strs(
        changed_files@,
    ));
    let ghost all = all_events(strs(changed_files@));
    proof {
        lemma_all_events_finite_keyed(strs(changed_files@));
        lemma_sorted_strs(strs(keys@), all);
    }
    let mut out: Vec<FileChangeEvent> = Vec::new();
    let mut j: usize = 0;
    while j < keys.len()
        invariant
            j <= keys.len(),
            well_keyed(all),
            strs(keys@).to_set() == all,
            out@.map_values(|e: FileChangeEvent| event_key_of(e)) == strs(keys@).subrange(
                0,
                j as int,
            ),
        decreases keys.len() - j,
    {
        let cs = chars_of(keys[j].as_str());
        assert(strs(keys@).to_set().contains(strs(keys@)[j as int]));
        let kind = if cs[0] == '0' {
            FileChangeEventKind::FileCreated
        } else if cs[0] == '1' {
            FileChangeEventKind::FileModified
        } else if cs[0] == '2' {
            FileChangeEventKind::FileDeleted
        } else if cs[0] == '3' {
            FileChangeEventKind::MigrationChanged
        } else if cs[0] == '4' {
            FileChangeEventKind::ApiChanged
        } else {
            FileChangeEventKind::ModelChanged
        };
        let path = string_of_range(cs.as_slice(), 1, cs.len());
        let e = FileChangeEvent { kind, path };
        assert(event_key_of(e) =~= keys@[j as int]@);
        let ghost before = out@;
        out.push(e);
        assert(out@ == before.push(e));
        assert(out@.map_values(|e: FileChangeEvent| event_key_of(e)) =~= before.map_values(
            |e: FileChangeEvent| event_key_of(e),
        ).push(event_key_of(e)));
        assert(strs(keys@).subrange(0, j + 1) =~= strs(keys@).subrange(0, j as int).push(
            keys@[j as int]@,
        ));
        j += 1;
    }
    assert(strs(keys@).subrange(0, keys@.len() as int) =~= strs(keys@));
    out
}

} // verus!
