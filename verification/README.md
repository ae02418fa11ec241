# yagdb

An in-memory graph database that answers a subset of Cypher (`CREATE`, `MATCH` with
variable-length paths and `WHERE`, `MERGE`, `SET`, `DELETE`, `UNWIND`, `WITH`, `RETURN` with
aggregates, `ORDER BY` and `LIMIT`, `CREATE INDEX`, `PROFILE`, and the functions `rand`,
`toLower`, `toUpper`, `substring`, `abs`, `round`, `ceil`, `floor` and `id`), logs every change
so that the graph can be rebuilt from its log, and serves queries over HTTP. Each query runs as
a numbered transaction: what it creates or deletes records that number, and its lookups see
only what that transaction may see.

The library under `src/` is written in Verus and its functions are proved against their
contracts. A few small wrappers are taken on trust: a fresh random element id (the `uuid`
crate), `char::is_alphanumeric`, `String::push`, `str::to_lowercase` and `str::to_uppercase`;
their contracts say what they claim.

- `parser/` – the query grammar, as a specification over characters and a parser proved to
  follow it; `parse_where.rs` is the stand-alone `WHERE` grammar.
- `planner.rs` – turns clauses into execution steps and match plans (label scans, index
  lookups, path expansion, joins).
- `graph/` – the engine: the graph model and its log (`model.rs`, `mod.rs`), plan execution
  with its profile (`plan_exec.rs`, `matching.rs`), expressions and conditions (`eval.rs`),
  the functions a query can call (`functions.rs`),
  projection, grouping and ordering (`project.rs`), the changing steps (`execute.rs`), text and
  JSON output (`display.rs`, `json.rs`), whole queries (`query.rs`), and export and import of
  whole graphs (`import.rs`).
- `framing.rs` – the record format of the log file.
- `api.rs` – credentials and tokens of the HTTP interface.
- `laws.rs` – properties of the engine stated across its functions.

`app/` holds the server, the files on disk (snapshot and log) and the export and import tools
(`yagdb export-json|import-json|export-csv|import-csv ...`).
