use vstd::prelude::*;

pub mod json;
pub mod parser;

pub use json::{parse_json, JsonValue};
pub use parser::{ParseResult, Parser};

verus! {

} // verus!
