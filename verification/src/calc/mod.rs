//! The front end of a small arithmetic interpreter: a lexer from text to
//! tokens and a recursive-descent parser from tokens to a syntax tree.
//! Number literals are kept as the text that was typed; turning them into
//! floating-point values, and evaluating the tree, is left to the caller.
pub mod lexer;
pub mod parser;
pub mod laws;
pub mod brackets;


use vstd::prelude::*;

verus! {

/// What went wrong while reading an expression.
#[derive(Debug)]
pub enum CalcError {
    Unknown(String),
    Parse { value: String, reason: String },
}

/// The model of an error: its texts as character sequences.
pub enum CalcErrorV {
    Unknown(Seq<char>),
    Parse { value: Seq<char>, reason: Seq<char> },
}

impl View for CalcError {
    type V = CalcErrorV;

    open spec fn view(&self) -> CalcErrorV {
        match self {
            CalcError::Unknown(m) => CalcErrorV::Unknown(m@),
            CalcError::Parse { value, reason } => CalcErrorV::Parse {
                value: value@,
                reason: reason@,
            },
        }
    }
}

} // verus!
