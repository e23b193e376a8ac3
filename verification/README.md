# dataflow_extensions

Extensions of a telemetry engine and what they rest on, verified with Verus: registries of
capabilities and extensions, dependency graphs, hierarchical scopes, the batching and the
bookkeeping of a log exporter, tokens and their refreshes, and the arithmetic of a query language.

- `src/` is the verified library. Contracts are stated over mathematical models; the public proof
  functions state what holds of several functions together.
- `tests/` runs the library with the outside crates that it calls.
- `app/` is the ordinary Rust around it: clocks, channels, tasks, locks, serialisation, and the
  calls to Azure.

The modules of `src/`:

| Module | What it decides |
| --- | --- |
| `dependency_graph`, `digraph`, `walk`, `order` | start layers, stop waves and cycles of dependencies |
| `providers`, `capability`, `extension::registry` | which extension serves which capability binding |
| `extensions`, `local`, `shared`, `handles`, `id_table` | extension instances by name and trait |
| `extension` | wrappers, control channels, scopes of the engine and of pipeline groups |
| `config` | extension configurations and their redaction |
| `azure_monitor_exporter` | gzip batches, waiting messages, the exporter's steps, OTLP field paths |
| `azure_identity_auth`, `azure_identity_auth_extension` | credentials and token refreshes |
| `shared_kv_exporter` | a counter kept in a key-value store |
| `capability_macro` | what the `capability` attribute generates |
| `kql` | arithmetic expressions, diagnostics and the prompt of the query language |
| `text`, `secret` | text building and secrets |

What is trusted, not proved, is marked `external_body` or `assume_specification`; a comment above
each item says what it claims of the outside function.
