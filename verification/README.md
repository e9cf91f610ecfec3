# guixvis

An explorer for the packages of GNU Guix: fuzzy search, package details,
dependency and reverse-dependency trees, complete dependency closures and a
dependency graph, in the terminal or in a local web page.

The library under `src/` is written in Verus. Its functions carry contracts
over mathematical models of the data, and its public proof functions
(`law_*`) state properties of the library as a whole.

- `model`, `index`, `construct`: the indexer's document, the package index
  and its construction (validation, reverse edges, module grouping, the
  content digest that names a snapshot).
- `blob`, `roundtrip`, `framing`, `cache`: the binary snapshot format, the
  proof that decoding an encoded index gives it back, the proof that a
  snapshot ends exactly where its last field ends, and how a snapshot is
  judged against the live Guix origin.
- `relations`, `reach`: complete closures in both directions, and the proof
  that a closure holds exactly the reachable packages at their distance.
- `graph`: budgeted graph projections, and the proof that a complete
  discovery finds exactly the packages within the depth, each at its
  distance.
- `search`: ranking, selection, prefilter and highlight runs of the fuzzy
  search.
- `web`: the request checks and parameter rules of the local HTTP API.
- `lookup`: what name lookup, module neighbours, dependency counts and the
  grouping of dependents by name give.
- `app`, `ui::tree`: key handling decisions, cursor arithmetic and the rows
  of the tree views, which form a preorder walk of the tree.
- `indexer`, `guix_env`, `process`, `text`, `order`: loader steps, origin
  probes, error-stream lines, character helpers and sorted enumerations.

`app/` holds what runs around the library: the Guix subprocesses, the
snapshot file, worker threads, the fuzzy scorer, the terminal screens and
the axum server. The Guile indexer script and the web assets are read at
run time from `GUIXVIS_DATA_DIR` and `GUIXVIS_WEB_DIR` (by default
`guixvis` and `guixvis/web` under the user's data directory).
