//! The REST surface generated for the entities of a data graph, and the
//! requests built against it.
use vstd::prelude::*;

use crate::application_model::{plural_of, pluralize};
use crate::json::{entries_of, insert_entry, jv, lemma_entries_view, obj_insert, JsonValue, JsonView};
use crate::strset::{lemma_sorted_strs, sorted_strs};
use crate::text::{cat, cat3, ends_with, has_suffix, owned, str_eq, strs, unicode_lower};

verus! {

#[derive(Debug, Clone, Copy, PartialEq, Eq, Structural)]
pub enum HttpMethod {
    Get,
    Post,
    Patch,
}

#[derive(Debug, Clone, Copy, PartialEq, Eq, Structural)]
pub enum ApiOperation {
    List,
    GetById,
    Create,
    PatchById,
}

#[derive(Debug, Clone, PartialEq, Eq)]
pub struct ApiEndpoint {
    pub entity: String,
    pub method: HttpMethod,
    pub operation: ApiOperation,
    pub path: String,
}

#[derive(Debug, Clone, PartialEq, Eq)]
pub struct ApiSurface {
    pub entities: Vec<String>,
    pub endpoints: Vec<ApiEndpoint>,
}

impl Default for ApiSurface {
    fn default() -> (r: Self)
        ensures
            r.entities@.len() == 0,
            r.endpoints@.len() == 0,
    {
        ApiSurface { entities: Vec::new(), endpoints: Vec::new() }
    }
}

#[derive(Debug, Clone, Copy, PartialEq, Eq, Structural)]
pub enum RequestIntent {
    Create,
    Patch,
}

pub struct EndpointView {
    pub entity: Seq<char>,
    pub method: HttpMethod,
    pub operation: ApiOperation,
    pub path: Seq<char>,
}

pub open spec fn endpoint_view(e: ApiEndpoint) -> EndpointView {
    EndpointView { entity: e.entity@, method: e.method, operation: e.operation, path: e.path@ }
}

/// The four endpoints of an entity: list and create on its collection, get
/// and patch on one of its resources.
pub open spec fn entity_endpoints(entity: Seq<char>) -> Seq<EndpointView> {
    let collection = "/"@ + plural_of(unicode_lower(entity));
    let resource = collection + "/{id}"@;
    seq![
        EndpointView { entity, method: HttpMethod::Get, operation: ApiOperation::List, path: collection },
        EndpointView { entity, method: HttpMethod::Get, operation: ApiOperation::GetById, path: resource },
        EndpointView { entity, method: HttpMethod::Post, operation: ApiOperation::Create, path: collection },
        EndpointView { entity, method: HttpMethod::Patch, operation: ApiOperation::PatchById, path: resource },
    ]
}

pub open spec fn surface_endpoints(entities: Seq<Seq<char>>) -> Seq<EndpointView>
    decreases entities.len(),
{
    if entities.len() == 0 {
        Seq::empty()
    } else {
        surface_endpoints(entities.drop_last()) + entity_endpoints(entities.last())
    }
}

/// The API surface of a graph whose schemas have these names: the names
/// sorted, each once, and the endpoints of each in that order.
pub fn generate_api_surface(schema_names: &Vec<String>) -> (r: ApiSurface)
    ensures
        strs(r.entities@) == sorted_strs(strs(schema_names@).to_set()),
        r.endpoints@.map_values(|e: ApiEndpoint| endpoint_view(e)) == surface_endpoints(strs(r.entities@)),
{
    let mut entities: Vec<String> = Vec::new();
    crate::strset::insert_all(&mut entities, schema_names);
    proof {
        assert(strs(Seq::<String>::empty()).to_set() =~= Set::<Seq<char>>::empty());
        assert(Set::<Seq<char>>::empty().union(strs(schema_names@).to_set()) =~= strs(schema_names@).to_set());
        vstd::seq_lib::seq_to_set_is_finite(strs(schema_names@));
        lemma_sorted_strs(strs(entities@), strs(schema_names@).to_set());
    }
    let mut endpoints: Vec<ApiEndpoint> = Vec::new();
    let mut i: usize = 0;
    while i < entities.len()
        invariant
            i <= entities.len(),
            endpoints@.map_values(|e: ApiEndpoint| endpoint_view(e)) == surface_endpoints(
                strs(entities@).subrange(0, i as int),
            ),
        decreases entities.len() - i,
    {
        let entity = &entities[i];
        let ghost t = strs(entities@).subrange(0, i + 1);
        assert(t.drop_last() =~= strs(entities@).subrange(0, i as int));
        assert(t.last() == entity@);
        let plural = pluralize(entity.as_str());
        let collection = cat("/", plural.as_str());
        let resource = cat3("/", plural.as_str(), "/{id}");
        assert(resource@ =~= collection@ + "/{id}"@);
        let ghost before = endpoints@.map_values(|e: ApiEndpoint| endpoint_view(e));
        let e1 = ApiEndpoint { entity: entity.clone(), method: HttpMethod::Get, operation: ApiOperation::List, path: owned(collection.as_str()) };
        let e2 = ApiEndpoint { entity: entity.clone(), method: HttpMethod::Get, operation: ApiOperation::GetById, path: owned(resource.as_str()) };
        let e3 = ApiEndpoint { entity: entity.clone(), method: HttpMethod::Post, operation: ApiOperation::Create, path: collection };
        let e4 = ApiEndpoint { entity: entity.clone(), method: HttpMethod::Patch, operation: ApiOperation::PatchById, path: resource };
        endpoints.push(e1);
        endpoints.push(e2);
        endpoints.push(e3);
        endpoints.push(e4);
        assert(endpoints@.map_values(|e: ApiEndpoint| endpoint_view(e)) =~= before + entity_endpoints(entity@));
        i += 1;
    }
    assert(strs(entities@).subrange(0, entities@.len() as int) =~= strs(entities@));
    ApiSurface { entities, endpoints }
}

/// A field of a schema and whether requests must carry it (what the graph
/// saw in at least 99% of its instances).
#[derive(Debug, Clone, PartialEq, Eq)]
pub struct FieldRequirement {
    pub name: String,
    pub required: bool,
}

#[derive(Debug)]
pub struct BuiltRequest {
    pub entity: String,
    pub method: HttpMethod,
    pub path: String,
    pub headers: Vec<(String, String)>,
    pub required_fields: Vec<String>,
    pub optional_fields: Vec<String>,
    pub body: JsonValue,
}

/// Identifier fields are never sent.
pub open spec fn is_id_field(name: Seq<char>) -> bool {
    name == "id"@ || has_suffix(name, "Id"@) || has_suffix(name, "_id"@)
}

pub open spec fn sendable(fields: Seq<FieldRequirement>, required: bool) -> Seq<Seq<char>>
    decreases fields.len(),
{
    if fields.len() == 0 {
        Seq::empty()
    } else {
        let f = fields.last();
        sendable(fields.drop_last(), required) + if !is_id_field(f.name@) && f.required == required {
            seq![f.name@]
        } else {
            Seq::empty()
        }
    }
}

/// The body: a placeholder `<name>` for each required field, inserted in
/// order as into a map.
pub open spec fn placeholder_entries(names: Seq<Seq<char>>) -> Seq<(Seq<char>, JsonView)>
    decreases names.len(),
{
    if names.len() == 0 {
        Seq::empty()
    } else {
        let n = names.last();
        obj_insert(placeholder_entries(names.drop_last()), n, JsonView::Str("<"@ + n + ">"@))
    }
}

/// A request for an entity with these fields: create posts to the
/// collection, patch goes to one resource; identifier fields are left out,
/// the others are required or optional.
pub fn build_request(entity: &str, fields: &Vec<FieldRequirement>, intent: RequestIntent) -> (r: BuiltRequest)
    ensures
        r.entity@ == entity@,
        r.method == match intent {
            RequestIntent::Create => HttpMethod::Post,
            RequestIntent::Patch => HttpMethod::Patch,
        },
        r.path@ == match intent {
            RequestIntent::Create => "/"@ + plural_of(unicode_lower(entity@)),
            RequestIntent::Patch => "/"@ + plural_of(unicode_lower(entity@)) + "/{id}"@,
        },
        r.headers@.len() == 1,
        r.headers@[0].0@ == "content-type"@,
        r.headers@[0].1@ == "application/json"@,
        strs(r.required_fields@) == sendable(fields@, true),
        strs(r.optional_fields@) == sendable(fields@, false),
        jv(r.body) == JsonView::Object(placeholder_entries(sendable(fields@, true))),
{
    let plural = pluralize(entity);
    let (method, path) = match intent {
        RequestIntent::Create => (HttpMethod::Post, cat("/", plural.as_str())),
        RequestIntent::Patch => {
            let p = cat3("/", plural.as_str(), "/{id}");
            (HttpMethod::Patch, p)
        },
    };
    let mut required: Vec<String> = Vec::new();
    let mut optional: Vec<String> = Vec::new();
    let mut body: Vec<(String, JsonValue)> = Vec::new();
    proof {
        lemma_entries_view(body@, 0);
        reveal_strlit("id");
    }
    let mut i: usize = 0;
    while i < fields.len()
        invariant
            i <= fields.len(),
            strs(required@) == sendable(fields@.subrange(0, i as int), true),
            strs(optional@) == sendable(fields@.subrange(0, i as int), false),
            entries_of(body@) == placeholder_entries(sendable(fields@.subrange(0, i as int), true)),
        decreases fields.len() - i,
    {
        let f = &fields[i];
        let ghost t = fields@.subrange(0, i + 1);
        assert(t.drop_last() =~= fields@.subrange(0, i as int));
        assert(t.last() == *f);
        let name = f.name.as_str();
        let skip = str_eq(name, "id") || ends_with(name, "Id") || ends_with(name, "_id");
        if !skip {
            if f.required {
                let ghost before = strs(required@);
                required.push(f.name.clone());
                assert(strs(required@) =~= before.push(f.name@));
                let placeholder = cat3("<", name, ">");
                insert_entry(&mut body, f.name.clone(), JsonValue::Str(placeholder));
                let ghost prev = sendable(fields@.subrange(0, i as int), true);
                assert(sendable(t, true) =~= prev.push(f.name@));
                assert(prev.push(f.name@).drop_last() =~= prev);
                assert(placeholder@ == "<"@ + f.name@ + ">"@);
                assert(sendable(t, false) =~= sendable(fields@.subrange(0, i as int), false));
            } else {
                let ghost before = strs(optional@);
                optional.push(f.name.clone());
                assert(strs(optional@) =~= before.push(f.name@));
                assert(sendable(t, true) =~= sendable(fields@.subrange(0, i as int), true));
                assert(sendable(t, false) =~= sendable(fields@.subrange(0, i as int), false).push(f.name@));
            }
        } else {
            assert(sendable(t, true) =~= sendable(fields@.subrange(0, i as int), true));
            assert(sendable(t, false) =~= sendable(fields@.subrange(0, i as int), false));
        }
        i += 1;
    }
    assert(fields@.subrange(0, fields@.len() as int) =~= fields@);
    let mut headers: Vec<(String, String)> = Vec::new();
    headers.push((owned("content-type"), owned("application/json")));
    BuiltRequest {
        entity: owned(entity),
        method,
        path,
        headers,
        required_fields: required,
        optional_fields: optional,
        body: JsonValue::Object(body),
    }
}

} // verus!
