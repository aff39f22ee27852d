# mcpreg

A registry for MCP (Model Context Protocol) servers: search, publish and
browse server entries, and self-host the registry over HTTP.

The logic of the registry is a library verified with Verus; the program
around it is ordinary Rust.

## Layout

- `src/` — the verified library.
  - `semver.rs` — version ordering (`compare_versions`) and the dotted
    version check.
  - `text.rs` — character views of strings, case folding, splitting and
    number formatting.
  - `fuzzy.rs`, `jaro.rs` — edit distance, subsequence, acronym and fuzzy
    scores, name suggestions, and the match counts behind the similarity
    scores.
  - `order.rs` — stable sorting by keys and filtering by masks, with their
    specifications.
  - `config.rs`, `error.rs` — client configuration and the error type.
  - `why.rs` — why a server is worth installing next to the installed ones.
  - `registry/` — the registry: entries, search filters and orderings,
    validation and partial updates, SQL planning and row decoding, indexes,
    comparisons and scores, listings, trending, the tool graph, regex search
    and relevance counts.
- `app/` — the program: command line, HTTP routes, SQLite storage, file
  and environment access, and the floating-point similarity scores
  (including the Jaro-Winkler fallback score of name suggestions, which the
  program computes and hands to `suggest`).
- `tests/` — tests of the library.

Public proof functions named `law_*` state properties of the library as a
whole (for example that the search route only lists servers passing every
filter, in the requested order, or that an accepted patch keeps an entry
publishable).
