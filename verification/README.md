# dbe_backend

The data and graph engine of a database editor, with its logic verified:
each function's contract states what it returns, and Verus proves it. Where
a result rests on the platform or an outside crate, the contract says what
holds on every platform (paths are stated for plain `/`-separated relative
paths) or names the outside result.

## Layout

- `src/` — the library.
  - `text`, `assoc` — characters and strings, trimming, small string-keyed maps.
  - `lexer`, `parsing`, `editor_id` — identifiers: tokens, full ids, namespaces
    and paths, escaping of constant strings, type ids from file paths.
  - `numeric_ids` — reserved and defined numeric ids of item types, and the
    problems an id has.
  - `mappings` — links between string ids and numeric ids taken from ranges.
  - `storage`, `side_effects` — storage shared by nodes during evaluation, and
    the effects they queue; the saving node.
  - `region_graph`, `dag` — regions of a node graph: their nesting, order and
    members, on a directed acyclic graph.
  - `regional`, `generic_regional`, `reroute` — nodes that loop over lists,
    branch, construct lists, coalesce values, and reroute wires; the types
    their wires give them; the stored items a loop walks.
  - `variables` — the variables of nodes with variable inputs, typed by
    their wires and kept to one type.
  - `docs` — documentation files of nodes and types: checks and lookups.
  - `paths` — plain relative paths, their segments and ancestors, and the
    path calls of `camino` stated on them.
  - `project_files` — the role of each file of a project directory, the
    namespaces of its modules, and what saving writes and deletes.
  - `project_graph` — the graphs of a project by id, taken out for editing.
  - `undo` — the undo history of project files.
  - `thing_item` — kinds of items in type definitions, and what an item
    stands for by its kind, arguments and children.
- `tests/` — tests of the library on concrete values.
- `app/` — the file system, JSON, time and randomness: walking a project
  directory, reading module files (TOML) and type definitions, saving project
  files, saved mappings as JSON, pretty JSON output, the clock of an undo
  history, editing a graph, new random graph ids.
