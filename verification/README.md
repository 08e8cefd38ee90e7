# repairjson

Repairs malformed JSON text, as produced by language models and other loose
sources, into one compact JSON value: single quotes, Python literals, missing
commas, colons and values, comments, Markdown fences, prose preambles and
truncated containers are recovered. The library is written in Verus and its
behaviour is proved against a mathematical model of the repair.

## Layout

- `src/lexer.rs` — the byte cursor: BOM and fence trimming, whitespace and
  comments, bare tokens, and the scan for the first `{` or `[` outside
  quotes. Each operation is specified over spec functions on byte sequences.
- `src/parser.rs` — the bounded recursive-descent repair. `repair_text`
  states, as a function of the input's UTF-8 bytes, what the repair writes;
  `repair` is proved to return exactly that text, or exactly the error that
  `repair_text` gives: `RepairError::Depth` when more than `MAX_DEPTH` (128)
  containers would be open at once, `RepairError::AmbiguousQuote` when an
  object value is a quoted string glued to a quoted word, as in
  `{"command": "say "hello" now"}`.
- `src/json.rs` — JSON values, their compact text, and the JSON grammar
  (numbers, strings, documents with whitespace between tokens).
- `src/encoding.rs` — the repaired bytes of UTF-8 input are UTF-8.
- `src/json_laws.rs` — the repaired text is the compact text of a JSON value
  that nests at most 128 containers deep.
- `src/valid_json.rs` — a valid JSON document within the nesting limit is
  repaired into the compact text of the same value; one nested deeper is
  refused; text after an object or array is ignored; repairing repaired text
  changes nothing.
- `tests/` — scenario tests for the repair rules and the lexer.
- `app/` — the Python extension module (`repair`, `repair_to_string`,
  `repair_json`, `loads`, `__version__`, `MAX_DEPTH`), built with PyO3.
