//! DSL constructors: pure functions that build matchers from structured
//! values or raw JSON text.

use vstd::prelude::*;

use crate::json::{json_of, parse};
use crate::matcher::Matcher;
use crate::path::{path_text, read_path, Path, PathError};
use crate::value::{SpecValue, Value};

verus! {

/// What a caller hands to a matcher constructor: a pre-built value, or raw
/// text to be read as JSON (and compared as a plain string when it is not
/// JSON). Normalization into a value happens once, at construction time.
pub enum Expected {
    Structured(Value),
    Text(Vec<u8>),
}

/// The value an expected input stands for: a structured value stands as it
/// is; text stands for its JSON reading, and text that does not read as
/// JSON for the string of its raw bytes.
pub open spec fn expected_value(e: Expected) -> SpecValue {
    match e {
        Expected::Structured(v) => v@,
        Expected::Text(t) => match json_of(t@) {
            Some(v) => v,
            None => SpecValue::Str(t@),
        },
    }
}

/// Normalizes an expected input into a value: a structured value stands as
/// it is; text is parsed as JSON, and text that does not parse becomes a
/// string value of the raw bytes.
pub fn normalize(e: Expected) -> (r: Value)
    ensures
        r@ == expected_value(e),
        e matches Expected::Structured(v) ==> r == v,
{
    match e {
        Expected::Structured(v) => v,
        Expected::Text(t) => {
            match parse(t.as_slice()) {
                Ok(v) => v,
                Err(_) => Value::Str(t),
            }
        },
    }
}

/// Builds the structural-equality matcher.
pub fn is(e: Expected) -> (r: Matcher)
    ensures
        r matches Matcher::Is(v) && v@ == expected_value(e),
        e matches Expected::Structured(v) ==> r == Matcher::Is(v),
{
    Matcher::Is(normalize(e))
}

/// Builds the negated structural-equality matcher.
pub fn is_not(e: Expected) -> (r: Matcher)
    ensures
        r matches Matcher::IsNot(v) && v@ == expected_value(e),
        e matches Expected::Structured(v) ==> r == Matcher::IsNot(v),
{
    Matcher::IsNot(normalize(e))
}

/// Builds the containment matcher.
pub fn contains(e: Expected) -> (r: Matcher)
    ensures
        r matches Matcher::Contains(v) && v@ == expected_value(e),
        e matches Expected::Structured(v) ==> r == Matcher::Contains(v),
{
    Matcher::Contains(normalize(e))
}

/// Builds a path-scoped matcher from a textual path and an inner matcher.
/// The path is exactly the reading of the text, construction succeeds
/// exactly when that reading exists, and the parsed path renders back to
/// exactly the given text.
pub fn json_path(text: &[u8], inner: Matcher) -> (r: Result<Matcher, PathError>)
    ensures
        r matches Ok(m) ==> m matches Matcher::JsonPath(p, i) && *i == inner && path_text(p@)
            == text@ && read_path(text@) == Some(p@),
        (r is Ok) <==> (read_path(text@) is Some),
        (text@.len() == 0) <==> (r matches Err(e) && e is Empty),
        (text@.len() > 0 && text@[0] != 0x24) <==> (r matches Err(e) && e is MissingRoot),
{
    match Path::parse(text) {
        Ok(p) => Ok(Matcher::JsonPath(p, Box::new(inner))),
        Err(e) => Err(e),
    }
}

} // verus!
