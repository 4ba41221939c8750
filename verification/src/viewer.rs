//! What the document viewer computes: the commands of its palette and how a
//! typed filter selects among them, and one-line summaries of values.
use vstd::prelude::*;

use crate::json::{jv, lemma_entries_view, lemma_items_view, JsonValue, JsonView};
use crate::text::{cat3, contains, dec_seq, dec_string, has_sub, owned, to_lowercase, trim, trim_seq, unicode_lower};

verus! {

#[derive(Debug, Clone, Copy, PartialEq, Eq, Structural)]
pub enum PaletteCommand {
    OpenFile,
    AddBookmark,
    ClearBookmarks,
    ClearRecentFiles,
    ClearSelection,
}

pub open spec fn label_of(c: PaletteCommand) -> Seq<char> {
    match c {
        PaletteCommand::OpenFile => "Open File"@,
        PaletteCommand::AddBookmark => "Add Bookmark"@,
        PaletteCommand::ClearBookmarks => "Clear Bookmarks"@,
        PaletteCommand::ClearRecentFiles => "Clear Recent Files"@,
        PaletteCommand::ClearSelection => "Clear Selection"@,
    }
}

impl PaletteCommand {
    pub fn label(self) -> (r: &'static str)
        ensures
            r@ == label_of(self),
    {
        match self {
            PaletteCommand::OpenFile => "Open File",
            PaletteCommand::AddBookmark => "Add Bookmark",
            PaletteCommand::ClearBookmarks => "Clear Bookmarks",
            PaletteCommand::ClearRecentFiles => "Clear Recent Files",
            PaletteCommand::ClearSelection => "Clear Selection",
        }
    }
}

/// Every command, in the palette's order.
pub open spec fn all_commands() -> Seq<PaletteCommand> {
    seq![
        PaletteCommand::OpenFile,
        PaletteCommand::AddBookmark,
        PaletteCommand::ClearBookmarks,
        PaletteCommand::ClearRecentFiles,
        PaletteCommand::ClearSelection,
    ]
}

/// The first `n` commands whose lowercased label contains `f`, in order.
pub open spec fn matching(cmds: Seq<PaletteCommand>, f: Seq<char>, n: int) -> Seq<PaletteCommand>
    decreases n,
{
    if n <= 0 || n > cmds.len() {
        Seq::empty()
    } else if has_sub(unicode_lower(label_of(cmds[n - 1])), f) {
        matching(cmds, f, n - 1).push(cmds[n - 1])
    } else {
        matching(cmds, f, n - 1)
    }
}

/// The commands a filter selects: all of them for a blank filter; else those
/// whose lowercased label contains the trimmed, lowercased filter.
pub open spec fn filtered(filter: Seq<char>) -> Seq<PaletteCommand> {
    let f = unicode_lower(trim_seq(filter));
    if f.len() == 0 {
        all_commands()
    } else {
        matching(all_commands(), f, 5)
    }
}

pub fn filtered_commands(filter: &str) -> (r: Vec<PaletteCommand>)
    ensures
        r@ == filtered(filter@),
{
    let all = vec![
        PaletteCommand::OpenFile,
        PaletteCommand::AddBookmark,
        PaletteCommand::ClearBookmarks,
        PaletteCommand::ClearRecentFiles,
        PaletteCommand::ClearSelection,
    ];
    assert(all@ =~= all_commands());
    let trimmed = trim(filter);
    let f = to_lowercase(trimmed.as_str());
    if f.as_str().unicode_len() == 0 {
        return all;
    }
    let mut out: Vec<PaletteCommand> = Vec::new();
    let mut i: usize = 0;
    while i < all.len()
        invariant
            i <= all.len(),
            all@ == all_commands(),
            out@ == matching(all@, f@, i as int),
        decreases all.len() - i,
    {
        let label = to_lowercase(all[i].label());
        if contains(label.as_str(), f.as_str()) {
            out.push(all[i]);
        }
        i += 1;
    }
    out
}

/// A value in one line: the size of an object or array, a string in
/// quotes, a number as written, `true`, `false` or `null`.
pub open spec fn summary_of(v: JsonView) -> Seq<char> {
    match v {
        JsonView::Object(es) => "object ("@ + dec_seq(es.len()) + ")"@,
        JsonView::Array(items) => "array ("@ + dec_seq(items.len()) + ")"@,
        JsonView::Str(s) => "\""@ + s + "\""@,
        JsonView::Number(text, _) => text,
        JsonView::Bool(b) => if b {
            "true"@
        } else {
            "false"@
        },
        JsonView::Null => "null"@,
    }
}

pub fn summarize_for_results(value: &JsonValue) -> (r: String)
    ensures
        r@ == summary_of(jv(*value)),
{
    match value {
        JsonValue::Object(es) => {
            proof {
                lemma_entries_view(es@, es@.len() as int);
            }
            let n = dec_string(es.len() as u64);
            cat3("object (", n.as_str(), ")")
        },
        JsonValue::Array(items) => {
            proof {
                lemma_items_view(items@, items@.len() as int);
            }
            let n = dec_string(items.len() as u64);
            cat3("array (", n.as_str(), ")")
        },
        JsonValue::Str(s) => cat3("\"", s.as_str(), "\""),
        JsonValue::Number { text, .. } => owned(text.as_str()),
        JsonValue::Bool(b) => if *b {
            owned("true")
        } else {
            owned("false")
        },
        JsonValue::Null => owned("null"),
    }
}

} // verus!
