# yantra

The verified core of Yantra, an agentic coding runtime, written in Verus.

- `src/` — the library, its functions proved against their contracts
  (the calls into `ring`, `regex`, `uuid`, `chrono`, `serde_json` and a few
  std functions sit behind small trusted wrappers whose contracts say what
  is assumed of them):
  unified-diff parsing and additive merging (`diff`), sacred-path policy and
  path containment (`sacred`), identifiers and hashing (`ident`), truth
  tokens (`truth`), the console's command model and key handling
  (`console`), diff review (`preview`), preflight checks (`doctor`), the
  code-review graph and its statistics, hubs, communities, neighbourhoods and
  exports (`graph`), the decisions of the index's incremental file updates (`indexing`) and
  edge derivation (`edges`), pending schema migrations (`migrations`), seed selection (`seeds`), subgraph walking, pruning and
  rendering (`extraction`, `subgraph`), answer grounding (`grounding`) and
  prompt shaping (`prompting`), over text primitives (`text`).
- `tests/` — tests of the library on concrete values.
- `app/` — the `yantra` command: argument parsing, terminal, SQLite and
  network I/O, and the floating-point cost figures.
