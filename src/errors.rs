use vstd::prelude::*;

verus! {

/// The errors of the engine, each with a message.
#[derive(Debug)]
pub enum GicError {
    ParseError(String),
    SemanticError(String),
    ReadlineError(String),
    ClauseError(String),
    ArithmeticError(String),
}

/// The message of an error, prefixed by its kind.
pub open spec fn error_text(e: GicError) -> Seq<char> {
    match e {
        GicError::ParseError(m) => "Parse error: "@ + m@,
        GicError::SemanticError(m) => "Semantic error: "@ + m@,
        GicError::ReadlineError(m) => "Readline error: "@ + m@,
        GicError::ClauseError(m) => "Clause error: "@ + m@,
        GicError::ArithmeticError(m) => "Arithmetic error: "@ + m@,
    }
}

impl GicError {
    /// The message, prefixed by the kind of error.
    pub fn message(&self) -> (r: String)
        ensures
            r@ == error_text(*self),
    {
        let (kind, msg) = match self {
            GicError::ParseError(m) => ("Parse error: ", m),
            GicError::SemanticError(m) => ("Semantic error: ", m),
            GicError::ReadlineError(m) => ("Readline error: ", m),
            GicError::ClauseError(m) => ("Clause error: ", m),
            GicError::ArithmeticError(m) => ("Arithmetic error: ", m),
        };
        crate::text::concat(kind, msg.as_str())
    }
}

} // verus!
