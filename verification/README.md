# weavatrix_graph

Deterministic, typed, evidence-carrying graphs, with their algorithms
proved correct by Verus.

## Layout

- `src/` — the verified library.
  - `model`, `kind`, `attribute`, `validate`, `error`: graph elements
    (identifiers, spans, provenance, kinds, attribute values) and the rules
    that a node or an edge must meet.
  - `graph`, `topology`, `index`, `digraph`, `reach`: the canonical graph
    (nodes in identifier order, edges resolved to compact indices), its
    adjacency, and the reachability model that the contracts speak of.
  - `undirected`, `generator`, `random`, `matrix`: undirected topologies,
    deterministic and seeded random topologies, a dense adjacency matrix.
  - `algo`: topological order and cycles, weak and strong components,
    Dijkstra, A*, Bellman–Ford, maximum flow with its minimum cut,
    transitive reduction and closure of a DAG, minimum spanning forests,
    dominators, condensation into the graph of strong components.
  - `legacy`, `filter`, `text`, `working`, `store`: conversion of the
    legacy `{ nodes, links }` shape, edge filters, text helpers, the record
    of where stable keys land when a working graph is frozen, and the slot
    store under the working graph (generation-checked keys, free slots
    reused, each node's outgoing and incoming edge lists).
  - `ident`, `mutable`: the identifier index and the working graph built on
    the store: insertion, removal and replacement with their refusals, and
    renaming a node's identifier in its edges.
- `tests/` — tests on concrete graphs.
- `app/` — serialization forms, error messages, assembly of graphs from
  unordered parts, re-insertion of an equal node and the canonical freeze
  over the verified working graph, and PageRank.

Every public function of `src/` states its result in its `ensures`; the
laws that relate several functions (such as the maximality of a flow, the
minimality of its cut, or that two nodes share a strong component exactly
when each reaches the other) are public proof functions.
