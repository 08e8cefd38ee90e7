//! Repair of malformed JSON text, as produced by language models and other
//! loose sources, into one compact JSON value.
//!
//! `lexer` is the byte cursor (BOM and Markdown fence trimming, trivia,
//! bare tokens, preamble scanning); `parser` is the bounded recursive-descent
//! repair that writes compact JSON. `json` defines JSON values, their compact
//! text and the JSON grammar; `encoding` proves that the repair writes UTF-8;
//! `json_laws` proves that it writes the compact text of a JSON value; and
//! `valid_json` proves that valid JSON keeps its value, that valid JSON
//! nested too deep is refused, that text after an object or array is
//! ignored, and that repairing repaired text changes nothing; `repair_rules`
//! proves the documented rules for bare keys, unterminated strings, decimals,
//! block comments and unknown escapes.
pub mod lexer;
pub mod parser;
pub mod encoding;
pub mod json;
pub mod json_laws;
pub mod valid_json;
pub mod repair_rules;
