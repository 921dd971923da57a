# herbalist

Semantic search and graph navigation over a vault of Markdown notes: what a note
contributes to the index, which operations keep the index up to date, how search
results are merged, and how the link graph is walked.

- `src/` is the library. Its functions are specified and proved with
  [Verus](https://github.com/verus-lang/verus). The laws that span several
  functions are public proof functions whose names begin with `law_`.
- `app/` is the program around it: the command line, the SQLite index, the
  embedding models, the file watcher and the MCP server.
- `tests/` run the library, also against SQLite and the `regex` crate.

## Layout of the library

| Module | What it does |
|--------|--------------|
| `indexer` | parses notes (`frontmatter`, `tags`, `chunker`, `wikilinks`), plans index runs (`outcome` states what they amount to), and tells current versions of documents from older ones (`roles`; `versions` states what they amount to) |
| `db` | the operations on the index and what each of them does; full-text queries; embedding blobs |
| `config` | versioning settings, inherited from directory to directory |
| `mcp` | the tools: parameters, errors, search (`ranking`, `tools`), and the breadth-first walk (`graph`) |
| `embeddings` | model names and dimensions; the neighborhoods that graph embeddings are averaged over (`cleora`) |
| `setup` | which embedding model a command uses |
| `watcher` | which changed files are handled, and when |
| `paths`, `text`, `lists` | paths and texts, character by character; what lists hold |

Floating-point numbers stay in `app/`. The library sees their bits where it
compares or stores them.
