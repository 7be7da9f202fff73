# quipu

The verified core of a temporal RDF knowledge store, written in Verus.

- `src/` is the library. Every function in it carries a contract that Verus
  proves: the in-memory store and its transactions, OWL 2 RL materialisation
  and write-time validation, golden-path analysis over recorded trajectories,
  proposals and their review decisions, knowledge packs (canonical content,
  content hash, manifest, loading), the restore-format guard, request
  labelling for metrics, and the migration plan for embedding rows.
- Calls into outside crates (oxttl, oxrdf, ring, serde_json, bigdecimal) sit
  behind small trusted wrappers whose doc comments say what is assumed of
  them.
- `tests/` exercises the library from outside.
- `app/` holds what cannot be verified: file and clock access, the metrics
  registry (its durations are floating point), floating-point comparison of
  literals, and the serde forms of the library's types.
