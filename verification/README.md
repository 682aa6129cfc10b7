# ppe_core

The core of a policy engine: what a request carries, how it is read, and which
plugins answer for it. The library under `src/` is written and verified in Verus;
`app/` is the runtime around it.

## Layout

- `src/text.rs`, `src/value.rs`, `src/key_set.rs`, `src/yaml.rs`, `src/duration.rs`:
  texts, maps and sets, JSON and YAML trees, spans of time.
- `src/documents.rs`: the text of a document, and the YAML and JSON values of the
  crates that read it.
- `src/http_path.rs`, `src/http_credential.rs`, `src/http_addr.rs`,
  `src/http_transport.rs`, `src/http_retry.rs`: paths, cookies and query strings,
  addresses, requests and responses, retries.
- `src/extensions/`, `src/identity/`: what is known of a request, and who it comes
  from.
- `src/hooks/`, `src/http_hook.rs`, `src/host.rs`, `src/plugin.rs`,
  `src/factory.rs`, `src/registry.rs`: hooks, host services, plugins.
- `src/config.rs`, `src/visitor.rs`, `src/overrides.rs`, `src/route_table.rs`,
  `src/engine.rs`: policy documents, overrides, routes, and the engine as a state
  with transitions.
- `app/`: the engine behind a lock, the awaits, and the written forms.

Functions whose names begin with `law_` state what holds of several operations
together.

The library calls `bytes`, `hashbrown`, `http`, `serde_json`, `serde_yaml` and
`zeroize` through functions marked `external_body`; the comment above each says
what is taken on trust.
