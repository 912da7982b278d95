# notch

Fetch Notion pages as Markdown from the command line. The logic of the tool
is a library verified with Verus; the command line around it is ordinary Rust.

## Layout

- `src/` — the verified library
  - `text.rs` — searching, replacing, trimming and joining character sequences
  - `tags.rs` — locating Notion's custom tags and rewriting them one by one
  - `blocks.rs` — spans, toggles, callouts, wrappers and column layouts
  - `tables.rs` — HTML tables as Markdown pipe tables
  - `sanitize.rs` — the whole cleaning pipeline, code kept as it is
  - `markdown.rs` — the printed page: heading, body, 100KB cap on a character boundary
  - `types.rs` — API responses and the reading of page properties
  - `client.rs` — page ids, endpoints, retry decisions, error classification
  - `cli.rs` — argument/stdin resolution and the printed lines
- `app/` — `main`, the clap command line, the reqwest client and the serde
  shapes of the API's JSON
- `tests/` — tests of the library

Each public function states in its `ensures` what it returns; the laws the
library keeps (output cap, blank-line limit, plain Markdown untouched,
canonical page ids, TSV-safe property texts) are proof functions next to the
code they are about.
