//! The compiler: source text to a command sequence, or to diagnostics.

pub mod brackets;
pub mod error;
pub mod parse;

pub use self::error::{format_error_message, ParseError, ParseErrors};
pub use self::parse::{parse, BFCommand};
