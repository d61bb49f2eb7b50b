//! The tokens that the lexer hands to the parser.
use vstd::prelude::*;

verus! {

/// One unit of the notation.
///
/// `Name` and `NameExtended` differ only in how they were written: the first
/// as a bare run of characters, the second between double quotes.
#[derive(Debug, PartialEq, Eq)]
pub enum Token {
    GroupStart,
    GroupEnd,
    Joiner,
    Separator,
    Name(String),
    NameExtended(String),
}

/// What a [`Token`] is, with its text as a sequence of characters.
pub enum TokenView {
    GroupStart,
    GroupEnd,
    Joiner,
    Separator,
    Name(Seq<char>),
    NameExtended(Seq<char>),
}

impl View for Token {
    type V = TokenView;

    open spec fn view(&self) -> TokenView {
        match self {
            Token::GroupStart => TokenView::GroupStart,
            Token::GroupEnd => TokenView::GroupEnd,
            Token::Joiner => TokenView::Joiner,
            Token::Separator => TokenView::Separator,
            Token::Name(text) => TokenView::Name(text@),
            Token::NameExtended(text) => TokenView::NameExtended(text@),
        }
    }
}

/// The views of a sequence of tokens, in the same order.
pub open spec fn token_views(tokens: Seq<Token>) -> Seq<TokenView> {
    tokens.map_values(|token: Token| token@)
}

} // verus!
