use crate::token::Token;
use vstd::prelude::*;

verus! {

/// Every failure of the pipeline: scanning, parsing or running a program.
#[derive(Debug)]
pub enum Error {
    /// A failure with a free-form message, raised outside the language pipeline.
    Custom(String),
    /// An unrecognized character or an unterminated literal.
    ScanError { line: usize, msg: String },
    /// A grammar violation; parsing stops at the first one.
    ParseError { line: usize, msg: String },
    /// A failure while running a program.
    RuntimeError { line: usize, msg: String },
}

pub type Result<T> = core::result::Result<T, Error>;

impl Error {
    /// A runtime error at the line of `token`.
    pub fn runtime(token: &Token, message: &str) -> (r: Error)
        ensures
            r matches Error::RuntimeError { line, msg } && line == token.line && msg@ == message@,
    {
        Error::RuntimeError { line: token.line, msg: String::from_str(message) }
    }

    /// An error with a free-form message.
    pub fn custom(value: &str) -> (r: Error)
        ensures
            r matches Error::Custom(m) && m@ == value@,
    {
        Error::Custom(String::from_str(value))
    }
}

} // verus!
