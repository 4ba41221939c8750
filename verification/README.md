# treehouse

Treehouse reads what a software system is made of (its subsystems, their
contracts, the data they hold, their APIs) and reports how it changes:
contract drift, architecture changes, API test scenarios, generated backends,
and a mock runtime that serves a model's entities over REST.

The library in `src/` is written in Verus: each public function carries a
contract over a mathematical model of its inputs and results, and the
relations between functions (what a read gives back after a write, what a
query admits, what a diff of a document with itself is) are stated and
proved as `law_*` proof functions.

Layout:

- `src/text.rs`, `src/strset.rs`, `src/sorting.rs`, `src/table.rs`: strings as
  character sequences, sorted string sets, stable ordering, string-keyed tables.
- `src/json.rs`, `src/document.rs`, `src/diff.rs`: JSON values (documents hold
  objects with sorted, distinct keys) and their structural differences, with
  numbers compared by value.
- `src/contracts/`: subsystem contracts, their validation, drift detection,
  migration plans and the contract registry.
- `src/agent/`: file-change classification, contract inference from a system
  graph, architecture change events, impact reports and alerts.
- `src/api_engine/`, `src/execution/`: OpenAPI import, test scenarios, state
  machines, transaction flows and their execution against fixtures.
- `src/graph.rs`, `src/api.rs`, `src/mock.rs`: entities named by a document,
  the REST surface of entities, and the mock runtime's state and requests.
- `src/collector.rs`, `src/field_stats.rs`, `src/data_graph.rs`,
  `src/profile.rs`: collecting entity samples from documents, field
  statistics and identities, entity profiles, and assembling the universal
  data graph (nodes, edges, merged relationships).
- `src/model_evolution/`, `src/evidence/`: model versions, lineage, identity
  matching, rename detection by structural similarity, semantic diffs of
  models, deltas and their conflicts, applying
  changes to a model, the decisions of evolving a model, evidence queries.
- `src/convex.rs`, `src/application_model.rs`, `src/viewer.rs`: generated
  Convex files, naming helpers, and what the document viewer computes.
- `app/main.rs`: the mock runtime as a process (file reading, HTTP serving);
  `app/graph_build.rs`: building the data graph and the entity profiles, with
  their floating-point ratios and confidences.
- `tests/`: tests of the library on concrete values.
