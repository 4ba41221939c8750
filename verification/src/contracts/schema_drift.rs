//! Drift between two versions of a JSON schema, as messages.
use vstd::prelude::*;

use crate::contracts::compatibility::{compare_schema, properties_of, schema_changes, FieldChangeView};
use crate::json::{jv, JsonValue};
use crate::text::{cat, strs};

verus! {

pub open spec fn drift_message(c: FieldChangeView) -> Seq<char> {
    c.field + " changed from "@ + c.previous_type + " to "@ + c.current_type
}

/// `"{field} changed from {old} to {new}"` for each breaking type change.
pub fn detect_contract_drift(previous: &JsonValue, current: &JsonValue) -> (r: Vec<String>)
    ensures
        strs(r@) == schema_changes(properties_of(jv(*previous)), properties_of(jv(*current))).map_values(
            |c: FieldChangeView| drift_message(c),
        ),
{
    let changes = compare_schema(previous, current);
    let ghost cv = crate::contracts::compatibility::changes_view(changes@);
    let mut out: Vec<String> = Vec::new();
    let mut i: usize = 0;
    while i < changes.len()
        invariant
            i <= changes.len(),
            cv == crate::contracts::compatibility::changes_view(changes@),
            strs(out@) == cv.subrange(0, i as int).map_values(|c: FieldChangeView| drift_message(c)),
        decreases changes.len() - i,
    {
        let c = &changes[i];
        let m = cat(
            cat(c.field.as_str(), " changed from ").as_str(),
            cat(c.previous_type.as_str(), cat(" to ", c.current_type.as_str()).as_str()).as_str(),
        );
        assert(m@ =~= drift_message(cv[i as int]));
        let ghost before = out@;
        out.push(m);
        assert(strs(out@) =~= strs(before).push(m@));
        assert(cv.subrange(0, i + 1).map_values(|c: FieldChangeView| drift_message(c)) =~= cv.subrange(0, i as int).map_values(|c: FieldChangeView| drift_message(c)).push(drift_message(cv[i as int])));
        i += 1;
    }
    assert(cv.subrange(0, cv.len() as int) =~= cv);
    out
}

} // verus!
