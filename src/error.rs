use vstd::prelude::*;
use vstd::string::*;

verus! {

/// An error of the parser or of the evaluator, with a human-readable
/// message. Built-in functions report theirs as evaluation errors.
#[derive(Debug, PartialEq, Eq)]
pub enum Error {
    ParseError { msg: String },
    EvalError { msg: String },
}

impl Error {
    /// `ParseError: <msg>` or `EvalError: <msg>`.
    pub fn to_string(&self) -> (r: String)
        ensures
            r@ == match self {
                Error::ParseError { msg } => "ParseError: "@ + msg@,
                Error::EvalError { msg } => "EvalError: "@ + msg@,
            },
    {
        match self {
            Error::ParseError { msg } => {
                let mut r = String::from_str("ParseError: ");
                r.append(msg.as_str());
                r
            },
            Error::EvalError { msg } => {
                let mut r = String::from_str("EvalError: ");
                r.append(msg.as_str());
                r
            },
        }
    }
}

} // verus!
