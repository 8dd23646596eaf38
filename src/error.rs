use vstd::prelude::*;

use crate::tokens::{Span, Token};

verus! {

/// The errors of the pipeline; the first one met stops it.
#[derive(Debug)]
pub enum RscError {
    /// A token that the grammar does not allow where it stands, with its source text.
    UnexpectedToken(Box<String>, Token),
    /// Reading the source failed; the message comes from the driver.
    Io(String),
    /// The text of a numeric literal does not fit its target type.
    ParseNum(Token),
    /// A byte that starts no token, and the span of the character it leads.
    LexicalError(u8, Span),
    /// A construct that the code generator cannot emit yet.
    Unsupported(Span),
}

/// What an error holds, with its text as characters.
pub enum ErrorView {
    UnexpectedToken(Seq<char>, Token),
    Io(Seq<char>),
    ParseNum(Token),
    LexicalError(u8, Span),
    Unsupported(Span),
}

impl View for RscError {
    type V = ErrorView;

    open spec fn view(&self) -> ErrorView {
        match self {
            RscError::UnexpectedToken(s, t) => ErrorView::UnexpectedToken((**s)@, *t),
            RscError::Io(s) => ErrorView::Io(s@),
            RscError::ParseNum(t) => ErrorView::ParseNum(*t),
            RscError::LexicalError(b, sp) => ErrorView::LexicalError(*b, *sp),
            RscError::Unsupported(sp) => ErrorView::Unsupported(*sp),
        }
    }
}

} // verus!
