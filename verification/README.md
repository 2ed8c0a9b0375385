# Iris language tools, verified

The editor tooling for Iris: a document re-indenter with its safety checks,
and the decisions of a language server (document store, UTF-16 positions,
hover and signature-help rendering, completion answers, request ledgers,
worker framing and deadlines). Every function in `src/` carries a Verus
contract and is proved against it.

- `src/` — the verified library. `layout.rs` and `format.rs` re-indent a
  document from the lexer's report and check the result; `layout_laws.rs`
  proves what re-indenting keeps and that it is idempotent. `positions.rs`,
  `documents.rs`, `hover.rs`, `signature_help.rs`, `query.rs`,
  `semantics.rs`, `worker.rs` and `worker_protocol.rs` hold the server's
  logic; `session.rs` its lifecycle.
- `tests/` — tests run against the compiled library.
- `app/` — the program around the library: the lexer calls, the LSP loop,
  the worker process and its I/O.

The lexer, parser and analysis of the Iris language are not part of this
crate; the library takes what they report as plain values.
