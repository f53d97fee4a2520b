//! Tokens: the kind of a run of characters, its text and where it lies.

use crate::location::Location;
use vstd::prelude::*;

verus! {

/// What a token is.
#[derive(Debug, Clone, Copy, PartialEq, Eq, Structural)]
pub enum TokenType {
    /// A character that starts no token.
    Illegal,
    /// A letter followed by letters and decimal digits.
    Identifier,
    /// Decimal digits.
    Integer,
    /// Decimal digits with one dot among them.
    Float,
}

/// What a token holds: its kind, its text when it has one, and its span.
pub struct TokenView {
    pub kind: TokenType,
    pub lexeme: Option<Seq<char>>,
    pub location: Location,
}

/// One token of a source text.
#[derive(Debug, Clone)]
pub struct Token<'life> {
    kind: TokenType,
    lexeme: Option<&'life str>,
    location: Location,
}

impl<'life> View for Token<'life> {
    type V = TokenView;

    closed spec fn view(&self) -> TokenView {
        TokenView {
            kind: self.kind,
            lexeme: match self.lexeme {
                Some(s) => Some(s@),
                None => None,
            },
            location: self.location,
        }
    }
}

impl<'life> Token<'life> {
    /// The token of kind `kind` with text `lexeme` at `location`.
    pub fn new(kind: TokenType, lexeme: Option<&'life str>, location: Location) -> (r: Token<
        'life,
    >)
        ensures
            r@.kind == kind,
            r@.lexeme == (match lexeme {
                Some(s) => Some(s@),
                None => None::<Seq<char>>,
            }),
            r@.location == location,
    {
        Token { kind, lexeme, location }
    }

    /// The kind of the token.
    pub fn get_type(&self) -> (r: TokenType)
        ensures
            r == self@.kind,
    {
        self.kind
    }

    /// The text of the token, when it has one.
    pub fn get_lexeme(&self) -> (r: Option<&'life str>)
        ensures
            r is Some == self@.lexeme is Some,
            r matches Some(s) ==> self@.lexeme == Some(s@),
    {
        self.lexeme
    }

    /// Where the token lies.
    pub fn get_location(&self) -> (r: Location)
        ensures
            r == self@.location,
    {
        self.location
    }
}

} // verus!
