# Skyzen

An HTTP framework whose rules are proved: routing, middleware, extractors, responders, durable
objects, API documentation and the decisions of its runtimes are verified with
[Verus](https://github.com/verus-lang/verus).

## Layout

- `src/` is the library. It holds no input or output: every function takes plain values and says in
  its contract what it returns. Laws that relate several functions stand beside them as public proof
  functions.
  - `routing` — route trees, path matching, building a router and dispatching requests.
  - `middleware` — CORS, compression, limits, authentication, error handling.
  - `extract`, `responder` — what handlers read from requests and answer with.
  - `auth` — JSON Web Tokens and role guards.
  - `conditional`, `static_files` — entity tags, byte ranges, and serving directories.
  - `openapi` — the document that describes the routes, and its page.
  - `durable` — objects with storage, alarms and sockets, run in one process.
  - `runtime` — servers, queue consumers, the Azure Functions host, the edge.
  - `text` — searching, splitting and rendering texts, which the rest is specified over.
- `app/` connects the library to sockets, files, clocks, executors and the crates that need them.
- `tests/` runs the library on concrete values, with the crates it calls linked.

What the library takes from other crates goes through a few functions marked
`#[verifier::external_body]`. The doc comment of each names the function it calls and says what is
claimed of it.
