//! Tokens: what the lexer hands to the grammar.

use vstd::prelude::*;
use crate::decimal::{Decimal, DecimalView};

verus! {

/// The operator and punctuation symbols.
#[derive(Clone, Copy, Debug, PartialEq, Eq, Structural)]
pub enum Symbol {
    /// `+`
    Plus,
    /// `-`
    Minus,
    /// `*`
    Star,
    /// `/`
    Slash,
    /// `%`
    Percent,
    /// `==`
    EqualEqual,
    /// `!=`
    NotEqual,
    /// `<`
    Less,
    /// `<=`
    LessEqual,
    /// `>`
    Greater,
    /// `>=`
    GreaterEqual,
    /// `&&`
    AndAnd,
    /// `||`
    OrOr,
    /// `!`
    Bang,
    /// `|`
    Pipe,
    /// `.`
    Dot,
    /// `[`
    LeftBracket,
    /// `]`
    RightBracket,
    /// `(`
    LeftParen,
    /// `)`
    RightParen,
    /// `,`
    Comma,
    /// `{`
    LeftBrace,
    /// `}`
    RightBrace,
    /// `:`
    Colon,
}

/// The reserved words.
#[derive(Clone, Copy, Debug, PartialEq, Eq, Structural)]
pub enum Keyword {
    True,
    False,
    Null,
}

/// Why the lexer could not form a token.
#[derive(Clone, Copy, Debug, PartialEq, Eq, Structural)]
pub enum LexicalDetail {
    /// A character that starts no token.
    UnrecognizedCharacter(char),
    /// A string literal whose closing quote is missing.
    UnterminatedString,
}

/// The class of a token, without its text: what an error names as found.
#[derive(Clone, Copy, Debug, PartialEq, Eq, Structural)]
pub enum TokenClass {
    Number,
    String,
    Identifier,
    Keyword(Keyword),
    Operator(Symbol),
}

/// What a token says, as a mathematical value.
pub enum Lexeme {
    Number(DecimalView),
    /// The text of a string literal, escapes resolved.
    String(Seq<char>),
    Identifier(Seq<char>),
    Keyword(Keyword),
    Operator(Symbol),
    EndOfInput,
    /// The text from here on forms no token.
    Invalid(LexicalDetail),
}

/// A token as a mathematical value: what it says and the byte offsets
/// between which it stands.
pub struct TokenView {
    pub lexeme: Lexeme,
    pub offset: nat,
    pub end: nat,
}

/// What a token says.
#[derive(Clone, Debug, PartialEq, Eq)]
pub enum TokenKind {
    Number(Decimal),
    /// The text of a string literal, escapes resolved.
    String(String),
    Identifier(String),
    Keyword(Keyword),
    Operator(Symbol),
    EndOfInput,
    /// The text from here on forms no token.
    Invalid(LexicalDetail),
}

impl View for TokenKind {
    type V = Lexeme;

    open spec fn view(&self) -> Lexeme {
        match self {
            TokenKind::Number(d) => Lexeme::Number(d@),
            TokenKind::String(text) => Lexeme::String(text@),
            TokenKind::Identifier(name) => Lexeme::Identifier(name@),
            TokenKind::Keyword(k) => Lexeme::Keyword(*k),
            TokenKind::Operator(s) => Lexeme::Operator(*s),
            TokenKind::EndOfInput => Lexeme::EndOfInput,
            TokenKind::Invalid(detail) => Lexeme::Invalid(*detail),
        }
    }
}

impl TokenKind {
    /// Whether the number that this token holds, if it holds one, is in
    /// canonical form.
    pub open spec fn canonical(&self) -> bool {
        match self {
            TokenKind::Number(d) => d.canonical(),
            _ => true,
        }
    }
}

/// A token: what it says, the byte offset at which it starts and the one at
/// which it ends.
#[derive(Clone, Debug, PartialEq, Eq)]
pub struct Token {
    pub kind: TokenKind,
    pub offset: usize,
    pub end: usize,
}

impl View for Token {
    type V = TokenView;

    open spec fn view(&self) -> TokenView {
        TokenView { lexeme: self.kind@, offset: self.offset as nat, end: self.end as nat }
    }
}

/// The views of the tokens of `tokens`, in order.
pub open spec fn token_views(tokens: Seq<Token>) -> Seq<TokenView> {
    tokens.map_values(|t: Token| t@)
}

/// Whether every number among `tokens` is in canonical form.
pub open spec fn canonical_tokens(tokens: Seq<Token>) -> bool {
    forall|i: int| 0 <= i < tokens.len() ==> (#[trigger] tokens[i]).kind.canonical()
}

/// What the tokens of `tokens` say, in order, without their places.
pub open spec fn lexemes(tokens: Seq<TokenView>) -> Seq<Lexeme> {
    tokens.map_values(|t: TokenView| t.lexeme)
}

} // verus!
