# commonplace

The verified core of Commonplace, a local-first Markdown notebook with a small
local language model underneath it, and a read-only tool server that lets
local agents search and read a vault's notes.

`src/` is the library, written in Verus. Its functions carry contracts, and
Verus checks them, except those of the few trusted wrappers around `std` and
`serde_json` calls, which are assumed:

- `text`: characters, trimming, searching, lines, joining, decimal numbers.
- `sql`: quoting of paths inside index filters (with the law that quoted text
  is read back whole).
- `links`: `[[wikilink]]` extraction, fences skipped, targets deduplicated.
- `chunking`: splitting notes into the passages that get embedded.
- `hits`: picking search results (one best passage per note) and showing them.
- `sync`: planning an incremental re-index from modification times, and
  reading and updating the record of those times.
- `edges`: choosing the undirected edges of the knowledge map.
- `vault`: note names, listing order, and confinement of file access to the
  open vault.
- `engine`: the local inference servers: what to start, what to download, how
  progress is reported, when to stop waiting.
- `json`: reading values out of JSON text.
- `chat`: reassembling the streamed chat reply into tokens.
- `mcp`: the tool server's request handling.

`app/` is the program around it: the tool server's stdin/stdout loop, the
desktop backend's commands, file-system walking, HTTP requests, the vector
index, and the float arithmetic on embeddings.

`tests/` runs the library on concrete values.
