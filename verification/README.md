# turso_io

The core of a small HTTP server that runs on completions instead of threads,
verified with Verus.

* `src/` holds the state machines: the decoder for chunked bodies, the
  incremental parser for multipart bodies, requests, responses, routes, the run
  queue and the programs that serve clients. A machine never performs input or
  output. It is stepped with what happened last, and answers with what it wants
  done next. Its contract says exactly which answer follows from which state.
* The modules whose names end in `laws` prove what holds of several calls
  together. A multipart body that was sent is received with the same parts,
  whatever pieces and chunks it arrives in.
* `tests/` runs the machines on concrete values.
* `app/` is the program around the library: sockets, files, the database, and
  JSON.

Functions marked `external_body` call other crates (`httparse`, `http`,
`crossbeam`, `slab`) or parts of the standard library. Their contracts are
taken on trust, and each says above it what it claims.
