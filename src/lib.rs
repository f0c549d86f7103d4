//! Recognises a flat string as a concatenation of extension tokens, each
//! produced by one of an ordered list of matchers, and returns the tokens
//! ordered by matcher priority.

pub mod shape;
pub mod step;
pub mod scanner;

pub use shape::{Extension, ExtensionShape, IntoExtensionShape, Matcher, SingleCharShape};
pub use step::{parse_one, ParseError};
pub use scanner::{parse, reconcile, scan, Chunk};
