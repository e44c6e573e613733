//! What a failed parse reports.

use vstd::prelude::*;
use crate::grammar::{Expected, Stuck};
use crate::token::{Lexeme, LexicalDetail, Token, TokenClass, TokenKind, TokenView};

verus! {

/// Why a text is no expression. Offsets count bytes from the start of the
/// text.
#[derive(Clone, Copy, Debug, PartialEq, Eq, Structural)]
pub enum ParseError {
    /// The text at `offset` forms no token.
    LexicalError { offset: usize, detail: LexicalDetail },
    /// The token at `offset` cannot stand where it does.
    UnexpectedToken { offset: usize, found: TokenClass, expected: Expected },
    /// The text ends where the expression needs more.
    UnexpectedEndOfInput { expected: Expected },
    /// A token follows the complete expression, at `offset`.
    ExtraInput { offset: usize },
}

/// The class of a lexeme that is a token.
pub open spec fn class_of(lexeme: Lexeme) -> TokenClass {
    match lexeme {
        Lexeme::Number(_) => TokenClass::Number,
        Lexeme::String(_) => TokenClass::String,
        Lexeme::Keyword(keyword) => TokenClass::Keyword(keyword),
        Lexeme::Operator(symbol) => TokenClass::Operator(symbol),
        _ => TokenClass::Identifier,
    }
}

/// The error for a grammar that stopped at `stuck`, with the place of the
/// token there. Where the lexer had stopped at that token its error is the
/// one reported; past the last token stands the end of the input.
pub open spec fn report(tokens: Seq<TokenView>, stuck: Stuck) -> ParseError {
    if 0 <= stuck.index < tokens.len() {
        let token = tokens[stuck.index];
        let offset = token.offset as usize;
        match token.lexeme {
            Lexeme::Invalid(detail) => ParseError::LexicalError { offset, detail },
            Lexeme::EndOfInput => ParseError::UnexpectedEndOfInput { expected: stuck.expected },
            lexeme => if stuck.expected == Expected::EndOfInput {
                ParseError::ExtraInput { offset }
            } else {
                ParseError::UnexpectedToken {
                    offset,
                    found: class_of(lexeme),
                    expected: stuck.expected,
                }
            },
        }
    } else {
        ParseError::UnexpectedEndOfInput { expected: stuck.expected }
    }
}

/// Where the parser stopped, as the index of a token, and what it needed
/// there.
#[derive(Clone, Copy, Debug, PartialEq, Eq, Structural)]
pub struct Halt {
    pub index: usize,
    pub expected: Expected,
}

impl View for Halt {
    type V = Stuck;

    open spec fn view(&self) -> Stuck {
        Stuck { index: self.index as int, expected: self.expected }
    }
}

fn class_of_kind(kind: &TokenKind) -> (class: TokenClass)
    ensures
        class == class_of(kind@),
{
    match kind {
        TokenKind::Number(_) => TokenClass::Number,
        TokenKind::String(_) => TokenClass::String,
        TokenKind::Keyword(keyword) => TokenClass::Keyword(*keyword),
        TokenKind::Operator(symbol) => TokenClass::Operator(*symbol),
        _ => TokenClass::Identifier,
    }
}

/// The error for a parser that stopped at `halt`.
pub fn error_at(tokens: &Vec<Token>, halt: Halt) -> (error: ParseError)
    ensures
        error == report(crate::token::token_views(tokens@), halt@),
{
    if halt.index < tokens.len() {
        let token = &tokens[halt.index];
        match &token.kind {
            TokenKind::Invalid(detail) => ParseError::LexicalError {
                offset: token.offset,
                detail: *detail,
            },
            TokenKind::EndOfInput => ParseError::UnexpectedEndOfInput { expected: halt.expected },
            kind => {
                if halt.expected == Expected::EndOfInput {
                    ParseError::ExtraInput { offset: token.offset }
                } else {
                    ParseError::UnexpectedToken {
                        offset: token.offset,
                        found: class_of_kind(kind),
                        expected: halt.expected,
                    }
                }
            },
        }
    } else {
        ParseError::UnexpectedEndOfInput { expected: halt.expected }
    }
}

} // verus!
