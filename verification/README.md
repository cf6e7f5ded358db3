# codemap

A code-navigation library for Rust projects: it scans source files, extracts
every function with its owner, line, body and the names it calls, ranks
functions against a free-text query, answers "who calls this?", keeps an
embedding index on disk, and serves these answers over a small JSON-RPC tool
protocol.

The library under `src/` is written in Verus. Verus proves the contract of every
function there except the small wrappers marked `#[verifier::external_body]`, through
which the library calls the standard library, tree-sitter and serde_json; their contracts
state what those calls do, and the proofs rest on them.

Search by meaning is not available: the search modes `semantic` and `hybrid` answer
that it is not offered, and only keyword search (`lexical`, the command line's default)
ranks functions. The embedding index is still built and kept up to date.

- `text` – string and character helpers (lower-casing, containment, slicing,
  byte-wise ordering) with their mathematical models.
- `extractor` – the `Function` record, qualified names, caller lookup and the
  rules for which paths are scanned.
- `syntax` – a flat model of a parsed syntax tree and the verified walk that
  collects functions and call names from it.
- `treesitter` – the bridge to the tree-sitter parser: it reads the nodes of
  the tree tree-sitter builds, turns them into the model of `syntax` and scans
  whole files.
- `search` – tokenising, per-function scoring and the ranked search, with the
  ranking laws.
- `embed` – text prepared for embedding, the cache fingerprint and path, and
  the byte format of the saved index with its round-trip law.
- `eval` – ranks of expected answers for a list of questions and the
  top-1/3/5 tally.
- `mcp` – request handling of the tool protocol: the advertised tools, tool
  calls, result text and replies.
- `jsonrpc` – the tool protocol on the wire: one input line in, the JSON
  response line (if any) out.

`app/` holds the command-line program and the parts that do I/O: walking the
file system and reading files, the embedding model and its floating-point
vectors, the index file, printing, and the stdin/stdout loop of the tool server,
which writes what the library answers for each line.
