# openpfe

Verified core of openpfe, a project-local server for a problem graph: a
control socket speaking length-prefixed JSON envelopes, an MCP JSON-RPC
handler, LLM model catalog and download bookkeeping, and graph algorithms
over the store's nodes and edges.

- `src/` — the library, written and proved with Verus: framing and envelope
  rules (`ipc`), JSON-RPC replies (`mcp`), request dispatch (`server`),
  catalog, registry, download and service decisions (`llm`), HTTP request
  checks and error mapping (`ui`), the graph's id index, listing rules,
  neighbours, bounded subgraph walk and dependency-cycle search (`graph`),
  and RFC 3339 timestamps (`time`).
- `tests/` — tests of the library on concrete values.
- `app/` — the process around it: Tokio sockets, the Axum HTTP API, files,
  download threads, the Grafeo database and the llama.cpp engine.
