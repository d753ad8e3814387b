//! Tokens: the lexical units that the scanner hands to the emitter.

use vstd::prelude::*;

verus! {

/// One lexical unit of a JSON document. Keys, strings and numbers carry the
/// bytes of the input as they stood there: a key or a string the bytes between
/// its quotes, escapes undecoded, a number its whole literal.
#[derive(Clone, Debug, PartialEq, Eq)]
pub enum Token {
    ObjectStart,
    ObjectEnd,
    ArrayStart,
    ArrayEnd,
    Key(Vec<u8>),
    String(Vec<u8>),
    Number(Vec<u8>),
    Bool(bool),
    Null,
}

/// A token as a mathematical value.
pub enum TokenView {
    ObjectStart,
    ObjectEnd,
    ArrayStart,
    ArrayEnd,
    Key(Seq<u8>),
    String(Seq<u8>),
    Number(Seq<u8>),
    Bool(bool),
    Null,
}

impl View for Token {
    type V = TokenView;

    open spec fn view(&self) -> TokenView {
        match self {
            Token::ObjectStart => TokenView::ObjectStart,
            Token::ObjectEnd => TokenView::ObjectEnd,
            Token::ArrayStart => TokenView::ArrayStart,
            Token::ArrayEnd => TokenView::ArrayEnd,
            Token::Key(b) => TokenView::Key(b@),
            Token::String(b) => TokenView::String(b@),
            Token::Number(b) => TokenView::Number(b@),
            Token::Bool(b) => TokenView::Bool(*b),
            Token::Null => TokenView::Null,
        }
    }
}

impl TokenView {
    /// Whether the token closes an object or an array.
    pub open spec fn closes(self) -> bool {
        self is ObjectEnd || self is ArrayEnd
    }
}

} // verus!
