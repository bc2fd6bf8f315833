//! A parser for a small JSON-like literal grammar.
//!
//! The input text is split into tokens, a recursive-descent parser turns
//! the token stream into a literal-preserving [`tree::JsonValue`], and a
//! converter materializes the final [`convert::Value`] or renders the
//! tree back to compact text.

pub mod convert;
pub mod lex;
pub mod parse;
pub mod render;
pub mod roundtrip;
pub mod token;
pub mod tree;

use vstd::prelude::*;

use crate::convert::{spec_to_value, val_model, Value};
use crate::lex::{spec_lex, tokenize};
use crate::parse::{spec_parse, ParseError};
use crate::tree::{json_wf, jv_model, JsonModel, JsonValue};

verus! {

/// What parsing a whole text yields: the token stream of the text,
/// parsed as one complete value; nothing when either pass refuses.
pub open spec fn spec_parse_text(s: Seq<char>) -> Option<JsonModel> {
    match spec_lex(s, 0) {
        Some(ts) => spec_parse(ts),
        None => None,
    }
}

/// Tokenize and parse a whole text into a tree, exactly as
/// `spec_parse_text` says. The tree of a parsed text is well-formed.
pub fn parse_str(s: &str) -> (r: Result<JsonValue, ParseError>)
    ensures
        match r {
            Ok(v) => spec_parse_text(s@) == Some(jv_model(v)) && json_wf(jv_model(v)),
            Err(_) => spec_parse_text(s@) is None,
        },
{
    match tokenize(s) {
        Ok(tokens) => JsonValue::parse(&tokens),
        Err(e) => Err(e),
    }
}

/// Parse a whole text and materialize its output value in one call.
pub fn json(s: &str) -> (r: Result<Value, ParseError>)
    ensures
        match r {
            Ok(v) => (match spec_parse_text(s@) {
                Some(m) => val_model(v) == spec_to_value(m),
                None => false,
            }),
            Err(_) => spec_parse_text(s@) is None,
        },
{
    match parse_str(s) {
        Ok(tree) => Ok(tree.to_value()),
        Err(e) => Err(e),
    }
}

} // verus!
