# understory

Verified building blocks for retained UI toolkits, written in Verus.

- `src/dirty`: dirty tracking over a per-channel dependency graph, with
  cycle handling, propagation policies, topological drains and an interner
  of owned keys.
- `src/node_graph`: a generational node/port/edge document with referential
  integrity, connection rules, invalidation bookkeeping, per-view projection
  maps, and the decisions of a derived-view rebuild (which phases run, which
  nodes and edges a targeted rebuild touches, where an edge drag snaps).
- `src/property`: property ids and handles, layered per-object property
  storage (local, template-binding, template-default and animation layers),
  and property metadata.
- `src/property_binding`: one-way bindings between property endpoints, kept
  in dependency order and drained against a host; single-value sources.
- `src/presentation`: a keyed store of presentation nodes with insertion
  order, first-of-kind primitive access and set-like dirty tracking, plus the
  text and paint enumerations.
- `src/inspector`: focus and selection decisions of a hierarchy inspector
  over the keys of the rows an outline shows.
- `src/box_tree`: box-tree node ids and node flags.
- `src/motion`: millisecond timer durations.
- `src/display`, `src/graph_view`: the value types these crates share.

`tests/` exercises the library from outside. `app/` holds the typed layer
that rests on `Any` downcasting (erased values, typed store and binding
helpers), which the verified code does not do.
