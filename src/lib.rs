pub mod regex;
pub mod parser;
pub mod pattern;

pub use parser::ParseError;
pub use pattern::{MatchError, RegexPattern};
pub use regex::RegexClass;
