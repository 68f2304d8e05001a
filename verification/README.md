# mdbook-doc-graph

An mdBook preprocessor that builds a relationship graph of a book's
documents from their YAML frontmatter and inline links, adds inverse edges,
computes statistics and renders the graph as a Mermaid diagram.

The library under `src/` is written in Verus. Its functions carry contracts
that Verus proves, except a handful of small trusted wrappers marked
`#[verifier::external_body]` (`String::push`, `str::to_lowercase`, regex's
`\d`, the clock, and `serde_json::Value::clone`), whose contracts are taken on
trust and say in their doc comments what they claim of the call they make.

- `text` — character-level helpers (search, whitespace, UTF-8 offsets) and
  the few standard-library and `regex` calls the rest rests on.
- `graph` — nodes, edges, their types, the graph itself, orphan detection
  and statistics.
- `config` — the preprocessor's configuration and its defaults.
- `scanner` — markdown and wiki link scanning, target normalisation, node IDs
  from paths, edge types from link context.
- `extractor` — frontmatter framing, the `related` entries and node types.
- `preprocessor` — building the graph from the chapters of a book and the
  Mermaid rendering.

`app/` holds what stays outside the verifier: the mdBook `Preprocessor`
impl, TOML and YAML parsing with serde, JSON output and file writing.
`tests/` exercises the library with concrete values.
