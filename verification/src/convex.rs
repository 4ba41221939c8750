//! Files generated for a Convex backend: a schema with one table per
//! entity, and list/get/create/update functions for each entity.
use vstd::prelude::*;

use crate::application_model::{plural_of, pluralize, EntityShape, FieldShape};
use crate::text::{cat, eq_ic, eq_ignore_case, lower_c, owned, push_char, str_eq, to_lowercase, unicode_lower, upper_c};

verus! {

#[derive(Debug, Clone, PartialEq, Eq)]
pub struct GeneratedFile {
    pub relative_path: String,
    pub content: String,
}

#[derive(Debug, Clone, PartialEq, Eq)]
pub struct ConvexArtifacts {
    pub files: Vec<GeneratedFile>,
}

/// camelCase of a name, with whether the next character is capitalized:
/// `_`, `-` and spaces are dropped and capitalize the next character; other
/// characters are lowercased (ASCII).
pub open spec fn camel_state(s: Seq<char>) -> (Seq<char>, bool)
    decreases s.len(),
{
    if s.len() == 0 {
        (Seq::empty(), false)
    } else {
        let (out, cap) = camel_state(s.drop_last());
        let c = s.last();
        if c == '_' || c == '-' || c == ' ' {
            (out, true)
        } else if cap {
            (out.push(upper_c(c)), false)
        } else {
            (out.push(lower_c(c)), false)
        }
    }
}

pub open spec fn camel_of(s: Seq<char>) -> Seq<char> {
    camel_state(s).0
}

pub fn camel_case(name: &str) -> (r: String)
    ensures
        r@ == camel_of(name@),
{
    let n = name.unicode_len();
    let mut out = String::new();
    let mut capitalize = false;
    let mut i: usize = 0;
    while i < n
        invariant
            i <= n,
            n == name@.len(),
            (out@, capitalize) == camel_state(name@.subrange(0, i as int)),
        decreases n - i,
    {
        let ch = name.get_char(i);
        let ghost t = name@.subrange(0, i + 1);
        assert(t.drop_last() =~= name@.subrange(0, i as int));
        if ch == '_' || ch == '-' || ch == ' ' {
            capitalize = true;
        } else if capitalize {
            push_char(&mut out, crate::text::upper_char(ch));
            capitalize = false;
        } else {
            push_char(&mut out, crate::text::lower_char(ch));
        }
        i += 1;
    }
    assert(name@.subrange(0, n as int) =~= name@);
    out
}

/// The Convex validator of a field type.
pub open spec fn convex_type_of(t: Seq<char>) -> Seq<char> {
    if t == "number"@ || t == "money"@ {
        "v.number()"@
    } else if t == "boolean"@ {
        "v.boolean()"@
    } else if t == "timestamp"@ {
        "v.number()"@
    } else if t == "array"@ {
        "v.array(v.any())"@
    } else if t == "object"@ {
        "v.any()"@
    } else {
        "v.string()"@
    }
}

pub fn convex_type(field_type: &str) -> (r: &'static str)
    ensures
        r@ == convex_type_of(field_type@),
{
    if str_eq(field_type, "number") || str_eq(field_type, "money") {
        "v.number()"
    } else if str_eq(field_type, "boolean") {
        "v.boolean()"
    } else if str_eq(field_type, "timestamp") {
        "v.number()"
    } else if str_eq(field_type, "array") {
        "v.array(v.any())"
    } else if str_eq(field_type, "object") {
        "v.any()"
    } else {
        "v.string()"
    }
}

/// A primary `id` field (any ASCII case) is implied by Convex.
pub open spec fn implied_field(f: FieldShape) -> bool {
    f.primary && eq_ic(f.name@, "id"@)
}

pub open spec fn field_lines(fields: Seq<FieldShape>) -> Seq<char>
    decreases fields.len(),
{
    if fields.len() == 0 {
        Seq::empty()
    } else {
        let f = fields.last();
        field_lines(fields.drop_last()) + if implied_field(f) {
            Seq::empty()
        } else {
            "    "@ + camel_of(f.name@) + ": "@ + convex_type_of(f.field_type@) + ",\n"@
        }
    }
}

pub open spec fn table_lines(entities: Seq<EntityShape>) -> Seq<char>
    decreases entities.len(),
{
    if entities.len() == 0 {
        Seq::empty()
    } else {
        let e = entities.last();
        table_lines(entities.drop_last()) + "  "@ + plural_of(unicode_lower(e.name@))
            + ": defineTable({\n"@ + field_lines(e.fields@) + "  }),\n"@
    }
}

/// The schema file: one table per entity, named by its plural, with a
/// column per field.
pub open spec fn schema_text(entities: Seq<EntityShape>) -> Seq<char> {
    "import { defineSchema, defineTable } from \"convex/server\";\n"@
        + "import { v } from \"convex/values\";\n\n"@ + "export default defineSchema({\n"@
        + table_lines(entities) + "});\n"@
}

fn generate_schema(entities: &Vec<EntityShape>) -> (r: String)
    ensures
        r@ == schema_text(entities@),
{
    let mut out = owned("import { defineSchema, defineTable } from \"convex/server\";\n");
    out.append("import { v } from \"convex/values\";\n\n");
    out.append("export default defineSchema({\n");
    let ghost head = out@;
    let mut i: usize = 0;
    while i < entities.len()
        invariant
            i <= entities.len(),
            out@ == head + table_lines(entities@.subrange(0, i as int)),
        decreases entities.len() - i,
    {
        let e = &entities[i];
        let ghost t = entities@.subrange(0, i + 1);
        assert(t.drop_last() =~= entities@.subrange(0, i as int));
        assert(t.last() == *e);
        let ghost at_i = out@;
        out.append("  ");
        out.append(pluralize(e.name.as_str()).as_str());
        out.append(": defineTable({\n");
        let ghost start_fields = out@;
        let mut j: usize = 0;
        while j < e.fields.len()
            invariant
                j <= e.fields.len(),
                out@ == start_fields + field_lines(e.fields@.subrange(0, j as int)),
            decreases e.fields.len() - j,
        {
            let f = &e.fields[j];
            let ghost u = e.fields@.subrange(0, j + 1);
            assert(u.drop_last() =~= e.fields@.subrange(0, j as int));
            assert(u.last() == *f);
            if !(f.primary && eq_ignore_case(f.name.as_str(), "id")) {
                out.append("    ");
                out.append(camel_case(f.name.as_str()).as_str());
                out.append(": ");
                out.append(convex_type(f.field_type.as_str()));
                out.append(",\n");
            }
            assert(out@ =~= start_fields + field_lines(u));
            j += 1;
        }
        assert(e.fields@.subrange(0, e.fields@.len() as int) =~= e.fields@);
        out.append("  }),\n");
        assert(out@ =~= head + table_lines(t));
        i += 1;
    }
    assert(entities@.subrange(0, entities@.len() as int) =~= entities@);
    out.append("});\n");
    out
}

/// The functions file of an entity: list, get, create and update, on the
/// table named by its plural.
pub open spec fn functions_text(entity: Seq<char>, route: Seq<char>) -> Seq<char> {
    "import { mutation, query } from \"./_generated/server\";\nimport { v } from \"convex/values\";\n\nexport const list"@
        + entity + " = query({\nargs: {},\nhandler: async (ctx) => ctx.db.query(\""@ + route
        + "\").collect(),\n});\n\nexport const get"@ + entity + " = query({\nargs: { id: v.id(\""@
        + route + "\") },\nhandler: async (ctx, args) => ctx.db.get(args.id),\n});\n\nexport const create"@
        + entity + " = mutation({\nargs: {},\nhandler: async (ctx, args) => ctx.db.insert(\""@ + route
        + "\", args),\n});\n\nexport const update"@ + entity + " = mutation({\nargs: { id: v.id(\""@
        + route + "\"), patch: v.any() },\nhandler: async (ctx, args) => ctx.db.patch(args.id, args.patch),\n});\n"@
}

fn generate_entity_functions(entity: &str) -> (r: String)
    ensures
        r@ == functions_text(entity@, plural_of(unicode_lower(entity@))),
{
    let route = pluralize(entity);
    let r = route.as_str();
    let mut out = owned("import { mutation, query } from \"./_generated/server\";\nimport { v } from \"convex/values\";\n\nexport const list");
    out.append(entity);
    out.append(" = query({\nargs: {},\nhandler: async (ctx) => ctx.db.query(\"");
    out.append(r);
    out.append("\").collect(),\n});\n\nexport const get");
    out.append(entity);
    out.append(" = query({\nargs: { id: v.id(\"");
    out.append(r);
    out.append("\") },\nhandler: async (ctx, args) => ctx.db.get(args.id),\n});\n\nexport const create");
    out.append(entity);
    out.append(" = mutation({\nargs: {},\nhandler: async (ctx, args) => ctx.db.insert(\"");
    out.append(r);
    out.append("\", args),\n});\n\nexport const update");
    out.append(entity);
    out.append(" = mutation({\nargs: { id: v.id(\"");
    out.append(r);
    out.append("\"), patch: v.any() },\nhandler: async (ctx, args) => ctx.db.patch(args.id, args.patch),\n});\n");
    out
}

/// The files of an application's entities: `schema.ts`, then one
/// `{entity}.ts` (lowercased) per entity, in order.
pub fn compile_convex(entities: &Vec<EntityShape>) -> (r: ConvexArtifacts)
    ensures
        r.files@.len() == entities@.len() + 1,
        r.files@[0].relative_path@ == "schema.ts"@,
        r.files@[0].content@ == schema_text(entities@),
        forall|i: int|
            0 <= i < entities@.len() ==> {
                let f = #[trigger] r.files@[i + 1];
                let name = entities@[i].name@;
                &&& f.relative_path@ == unicode_lower(name) + ".ts"@
                &&& f.content@ == functions_text(name, plural_of(unicode_lower(name)))
            },
{
    let mut files: Vec<GeneratedFile> = Vec::new();
    files.push(GeneratedFile { relative_path: owned("schema.ts"), content: generate_schema(entities) });
    let mut i: usize = 0;
    while i < entities.len()
        invariant
            i <= entities.len(),
            files@.len() == i + 1,
            files@[0].relative_path@ == "schema.ts"@,
            files@[0].content@ == schema_text(entities@),
            forall|k: int|
                0 <= k < i ==> {
                    let f = #[trigger] files@[k + 1];
                    let name = entities@[k].name@;
                    &&& f.relative_path@ == unicode_lower(name) + ".ts"@
                    &&& f.content@ == functions_text(name, plural_of(unicode_lower(name)))
                },
        decreases entities.len() - i,
    {
        let name = entities[i].name.as_str();
        files.push(
            GeneratedFile {
                relative_path: cat(to_lowercase(name).as_str(), ".ts"),
                content: generate_entity_functions(name),
            },
        );
        i += 1;
    }
    ConvexArtifacts { files }
}

} // verus!
