use vstd::prelude::*;

pub mod ast;
pub mod codegen;
pub mod error;
pub mod lexer;
pub mod parser;
pub mod tokens;

verus! {

/// Result of every fallible stage of the pipeline.
pub type Res<T> = Result<T, error::RscError>;

} // verus!
