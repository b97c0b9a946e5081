# nereid

Diagram model operations, queries and text rendering for flowcharts and sequence diagrams,
written in Verus: every function in `src/` carries a contract that Verus proves, apart from
a few small wrappers around calls into the `regex` crate and std, whose contracts are trusted.

## Layout

- `sorted_map`, `order`, `chars`: an ordered map over identifier keys, the order on
  identifiers, and character-level text helpers.
- `model`: identifiers, object references, flowchart and sequence ASTs, diagrams and sessions.
- `ops`: operations on diagrams (`apply_ops`): revision checks, validation, AST changes, and
  the delta of added, removed and updated objects. Either the whole batch applies or nothing
  changes.
- `query`: flowchart queries (degrees, reachability, distances, bounded simple paths, cycle
  groups, dead ends), sequence queries (search, messages between participants, traces), and
  routes between objects across the diagrams of a session.
- `render`: the character canvas with merging box-drawing lines, scene models that diagrams
  lower into, graph and track painters, endpoint caps over connector text, highlight indexes,
  and the walkthrough renderer.

Not in the library: the layout engine, and the renderers that paint from its output (the
flowchart, sequence, gantt and diagram-level renderers and the render pipeline over them), the
class and ER scene lowering, and sequence blocks and sections. Sequence messages therefore
carry no section, and the sequence operations cover participants and messages only.

`tests/` exercises the library from outside. The regex search of sequence messages uses the
`regex` crate.
