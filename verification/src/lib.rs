//! A verified parser for the `os-release` text format: line-oriented
//! `KEY=VALUE` entries with `#` comments, blank lines, and optional single
//! quoting of values.
//!
//! The parser turns a sequence of input lines into a sequence of per-line
//! results, one result per non-blank, non-comment line, in input order. A
//! line without a `=` separator yields a malformed-line error; a line that
//! could not be read yields an I/O error; every other surviving line yields
//! a `(key, value)` pair with surrounding whitespace trimmed and one
//! matching pair of enclosing quotes stripped from the value.

pub mod text;
pub mod parser;

pub use parser::{
    LineParser, OsReleaseError, SourceLine, canonical_key, extract_variable_and_value,
    parse_os_release_lines, parse_os_release_str, trim_quotes,
};
