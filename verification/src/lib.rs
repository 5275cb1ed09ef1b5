//! An HTTP-assertion library: composable matchers (equality, negation,
//! containment, JSON-path-scoped matching) evaluated against a captured
//! HTTP response, with a small JSON-like value model and path evaluator.

pub mod context;
pub mod dsl;
pub mod json;
pub mod matcher;
pub mod path;
pub mod value;

pub use context::{AssertionContext, CapturedResponse, DispatchOutcome, TransportError};
pub use matcher::{Matcher, Outcome};
pub use path::Path;
pub use value::Value;
