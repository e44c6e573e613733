//! The grammar, as functions from a sequence of lexemes to a tree.
//!
//! Binary operators bind in six levels, the loosest first: `||`; `&&`; `==`
//! and `!=`; `<`, `<=`, `>` and `>=`; `+` and `-`; `*`, `/` and `%`. All of
//! them group to the left. The prefix operators `!` and `-` bind tighter and
//! may be repeated. The suffixes `.name`, `[index]`, `|name` and
//! `|name(arguments)` bind tightest and apply from left to right. A transform
//! written with parentheses has a list of arguments, which may be empty; one
//! written without has none. The items of a list stand between commas, with
//! no comma after the last. The keys of an object are string literals.
//!
//! Each function takes a position among the lexemes and gives the tree it
//! reads there with the position after it, or the place where it stopped.
//! Where a function goes on from a position that another one has given, it
//! first tests that this position lies further on and inside the sequence.
//! That makes the definitions well founded; `lemma_expression_advances` and
//! the lemmas beside it show that the test never fails.

use vstd::prelude::*;
use crate::ast::{Ast, OpCode};
use crate::token::{Keyword, Lexeme, Symbol};

verus! {

/// What the grammar needed where it stopped.
#[derive(Clone, Copy, Debug, PartialEq, Eq, Structural)]
pub enum Expected {
    /// The start of an expression: a literal, a name, a prefix operator or an
    /// opening bracket.
    Operand,
    /// A name, after `.` or `|`.
    Identifier,
    /// A string literal, as the key of an object's entry.
    Key,
    /// This symbol.
    Symbol(Symbol),
    /// A comma or this closing symbol, after an item of a list.
    CommaOr(Symbol),
    /// Nothing more: the expression was complete.
    EndOfInput,
}

/// Where the grammar stopped, as the index of a lexeme, and what it needed
/// there.
pub struct Stuck {
    pub index: int,
    pub expected: Expected,
}

/// The lexeme at `pos`; past the last one, the end of the input.
pub open spec fn lexeme_at(t: Seq<Lexeme>, pos: int) -> Lexeme {
    if 0 <= pos < t.len() {
        t[pos]
    } else {
        Lexeme::EndOfInput
    }
}

/// Whether the lexeme at `pos` is the symbol `symbol`.
pub open spec fn symbol_at(t: Seq<Lexeme>, pos: int, symbol: Symbol) -> bool {
    lexeme_at(t, pos) == Lexeme::Operator(symbol)
}

/// The lowest and the highest level of binary operators.
pub open spec fn is_level(level: int) -> bool {
    1 <= level <= 6
}

/// The binary operator that `symbol` writes at the level `level`.
pub open spec fn binary_operator(symbol: Symbol, level: int) -> Option<OpCode> {
    match symbol {
        Symbol::OrOr => if level == 1 {
            Some(OpCode::Or)
        } else {
            None
        },
        Symbol::AndAnd => if level == 2 {
            Some(OpCode::And)
        } else {
            None
        },
        Symbol::EqualEqual => if level == 3 {
            Some(OpCode::Equal)
        } else {
            None
        },
        Symbol::NotEqual => if level == 3 {
            Some(OpCode::NotEqual)
        } else {
            None
        },
        Symbol::Less => if level == 4 {
            Some(OpCode::LessThan)
        } else {
            None
        },
        Symbol::LessEqual => if level == 4 {
            Some(OpCode::LessEqual)
        } else {
            None
        },
        Symbol::Greater => if level == 4 {
            Some(OpCode::GreaterThan)
        } else {
            None
        },
        Symbol::GreaterEqual => if level == 4 {
            Some(OpCode::GreaterEqual)
        } else {
            None
        },
        Symbol::Plus => if level == 5 {
            Some(OpCode::Add)
        } else {
            None
        },
        Symbol::Minus => if level == 5 {
            Some(OpCode::Subtract)
        } else {
            None
        },
        Symbol::Star => if level == 6 {
            Some(OpCode::Multiply)
        } else {
            None
        },
        Symbol::Slash => if level == 6 {
            Some(OpCode::Divide)
        } else {
            None
        },
        Symbol::Percent => if level == 6 {
            Some(OpCode::Modulus)
        } else {
            None
        },
        _ => None,
    }
}

/// The binary operator of the level `level` that stands at `pos`.
pub open spec fn operator_at(t: Seq<Lexeme>, pos: int, level: int) -> Option<OpCode> {
    match lexeme_at(t, pos) {
        Lexeme::Operator(symbol) => binary_operator(symbol, level),
        _ => None,
    }
}

/// The prefix operator that `symbol` writes.
pub open spec fn prefix_operator(symbol: Symbol) -> Option<OpCode> {
    match symbol {
        Symbol::Bang => Some(OpCode::Not),
        Symbol::Minus => Some(OpCode::Subtract),
        _ => None,
    }
}

/// The prefix operator that stands at `pos`.
pub open spec fn prefix_at(t: Seq<Lexeme>, pos: int) -> Option<OpCode> {
    match lexeme_at(t, pos) {
        Lexeme::Operator(symbol) => prefix_operator(symbol),
        _ => None,
    }
}

/// The failure of a function that stopped at `index` and needed `expected`.
pub open spec fn stuck<T>(index: int, expected: Expected) -> Result<T, Stuck> {
    Err(Stuck { index, expected })
}

/// An expression that starts at `pos`.
pub open spec fn expression(t: Seq<Lexeme>, pos: int) -> Result<(Ast, int), Stuck>
    decreases t.len() - pos, 30int,
{
    binary(t, pos, 1)
}

/// An expression of the binary operators from `level` up, or, above the
/// highest level, of the prefix operators.
pub open spec fn binary(t: Seq<Lexeme>, pos: int, level: int) -> Result<(Ast, int), Stuck>
    decreases t.len() - pos, (if is_level(level) {
        20 - level
    } else {
        13
    }),
{
    if !is_level(level) {
        unary(t, pos)
    } else {
        match binary(t, pos, level + 1) {
            Ok((left, p)) => if pos < p <= t.len() {
                binary_rest(t, p, level, left)
            } else {
                stuck(pos, Expected::Operand)
            },
            Err(s) => Err(s),
        }
    }
}

/// What follows the operand `left` at the level `level`: as long as an
/// operator of that level stands next, it joins what came before with the
/// operand after it.
pub open spec fn binary_rest(t: Seq<Lexeme>, pos: int, level: int, left: Ast) -> Result<
    (Ast, int),
    Stuck,
>
    decreases t.len() - pos, 0int,
{
    match operator_at(t, pos, level) {
        Some(operation) => match binary(t, pos + 1, level + 1) {
            Ok((right, p)) => if pos < p <= t.len() {
                binary_rest(
                    t,
                    p,
                    level,
                    Ast::BinaryOperation {
                        operation,
                        left: Box::new(left),
                        right: Box::new(right),
                    },
                )
            } else {
                stuck(pos, Expected::Operand)
            },
            Err(s) => Err(s),
        },
        None => Ok((left, pos)),
    }
}

/// Prefix operators, then a primary with its suffixes.
pub open spec fn unary(t: Seq<Lexeme>, pos: int) -> Result<(Ast, int), Stuck>
    decreases t.len() - pos, 10int,
{
    match prefix_at(t, pos) {
        Some(operation) => match unary(t, pos + 1) {
            Ok((operand, p)) => Ok(
                (Ast::UnaryOperation { operation, operand: Box::new(operand) }, p),
            ),
            Err(s) => Err(s),
        },
        None => postfix(t, pos),
    }
}

/// A primary with its suffixes.
pub open spec fn postfix(t: Seq<Lexeme>, pos: int) -> Result<(Ast, int), Stuck>
    decreases t.len() - pos, 9int,
{
    match primary(t, pos) {
        Ok((subject, p)) => if pos < p <= t.len() {
            postfix_rest(t, p, subject)
        } else {
            stuck(pos, Expected::Operand)
        },
        Err(s) => Err(s),
    }
}

/// One suffix of `subject` at `pos`: the tree it makes and the position after
/// it, or `None` where no suffix starts.
pub open spec fn suffix(t: Seq<Lexeme>, pos: int, subject: Ast) -> Result<Option<(Ast, int)>, Stuck>
    decreases t.len() - pos, 0int,
{
    match lexeme_at(t, pos) {
        Lexeme::Operator(Symbol::Dot) => match lexeme_at(t, pos + 1) {
            Lexeme::Identifier(ident) => Ok(
                Some((Ast::DotOperation { subject: Box::new(subject), ident }, pos + 2)),
            ),
            _ => stuck(pos + 1, Expected::Identifier),
        },
        Lexeme::Operator(Symbol::LeftBracket) => match expression(t, pos + 1) {
            Ok((index, p)) => if symbol_at(t, p, Symbol::RightBracket) {
                Ok(
                    Some(
                        (
                            Ast::IndexOperation {
                                subject: Box::new(subject),
                                index: Box::new(index),
                            },
                            p + 1,
                        ),
                    ),
                )
            } else {
                stuck(p, Expected::Symbol(Symbol::RightBracket))
            },
            Err(s) => Err(s),
        },
        Lexeme::Operator(Symbol::Pipe) => match lexeme_at(t, pos + 1) {
            Lexeme::Identifier(name) => if symbol_at(t, pos + 2, Symbol::LeftParen) {
                match list(t, pos + 3, Symbol::RightParen) {
                    Ok((args, p)) => Ok(
                        Some(
                            (
                                Ast::Transform {
                                    name,
                                    subject: Box::new(subject),
                                    args: Some(args),
                                },
                                p,
                            ),
                        ),
                    ),
                    Err(s) => Err(s),
                }
            } else {
                Ok(
                    Some(
                        (Ast::Transform { name, subject: Box::new(subject), args: None }, pos + 2),
                    ),
                )
            },
            _ => stuck(pos + 1, Expected::Identifier),
        },
        _ => Ok(None),
    }
}

/// The suffixes that follow `subject`, applied one after the other.
pub open spec fn postfix_rest(t: Seq<Lexeme>, pos: int, subject: Ast) -> Result<(Ast, int), Stuck>
    decreases t.len() - pos, 1int,
{
    match suffix(t, pos, subject) {
        Ok(Some((node, p))) => if pos < p <= t.len() {
            postfix_rest(t, p, node)
        } else {
            stuck(pos, Expected::Operand)
        },
        Ok(None) => Ok((subject, pos)),
        Err(s) => Err(s),
    }
}

/// A literal, a name, an expression in parentheses, an array or an object.
pub open spec fn primary(t: Seq<Lexeme>, pos: int) -> Result<(Ast, int), Stuck>
    decreases t.len() - pos, 8int,
{
    match lexeme_at(t, pos) {
        Lexeme::Number(value) => Ok((Ast::Number(value), pos + 1)),
        Lexeme::String(text) => Ok((Ast::String(text), pos + 1)),
        Lexeme::Identifier(name) => Ok((Ast::Identifier(name), pos + 1)),
        Lexeme::Keyword(Keyword::True) => Ok((Ast::Boolean(true), pos + 1)),
        Lexeme::Keyword(Keyword::False) => Ok((Ast::Boolean(false), pos + 1)),
        Lexeme::Keyword(Keyword::Null) => Ok((Ast::Null, pos + 1)),
        Lexeme::Operator(Symbol::LeftParen) => match expression(t, pos + 1) {
            Ok((inner, p)) => if symbol_at(t, p, Symbol::RightParen) {
                Ok((inner, p + 1))
            } else {
                stuck(p, Expected::Symbol(Symbol::RightParen))
            },
            Err(s) => Err(s),
        },
        Lexeme::Operator(Symbol::LeftBracket) => match list(t, pos + 1, Symbol::RightBracket) {
            Ok((items, p)) => Ok((Ast::Array(items), p)),
            Err(s) => Err(s),
        },
        Lexeme::Operator(Symbol::LeftBrace) => match object(t, pos + 1) {
            Ok((entries, p)) => Ok((Ast::Object(entries), p)),
            Err(s) => Err(s),
        },
        _ => stuck(pos, Expected::Operand),
    }
}

/// A list of expressions up to the symbol `close`, from the position after
/// the opening symbol.
pub open spec fn list(t: Seq<Lexeme>, pos: int, close: Symbol) -> Result<(Seq<Ast>, int), Stuck>
    decreases t.len() - pos, 32int,
{
    if symbol_at(t, pos, close) {
        Ok((Seq::empty(), pos + 1))
    } else {
        items(t, pos, close, Seq::empty())
    }
}

/// The items of a list from `pos` on, after those of `before`.
pub open spec fn items(t: Seq<Lexeme>, pos: int, close: Symbol, before: Seq<Ast>) -> Result<
    (Seq<Ast>, int),
    Stuck,
>
    decreases t.len() - pos, 31int,
{
    match expression(t, pos) {
        Ok((item, p)) => if symbol_at(t, p, close) {
            Ok((before.push(item), p + 1))
        } else if !symbol_at(t, p, Symbol::Comma) {
            stuck(p, Expected::CommaOr(close))
        } else if p > pos {
            items(t, p + 1, close, before.push(item))
        } else {
            stuck(pos, Expected::Operand)
        },
        Err(s) => Err(s),
    }
}

/// The entries of an object, from the position after the opening brace.
pub open spec fn object(t: Seq<Lexeme>, pos: int) -> Result<(Seq<(Seq<char>, Ast)>, int), Stuck>
    decreases t.len() - pos, 32int,
{
    if symbol_at(t, pos, Symbol::RightBrace) {
        Ok((Seq::empty(), pos + 1))
    } else {
        entries(t, pos, Seq::empty())
    }
}

/// The entries of an object from `pos` on, after those of `before`.
pub open spec fn entries(t: Seq<Lexeme>, pos: int, before: Seq<(Seq<char>, Ast)>) -> Result<
    (Seq<(Seq<char>, Ast)>, int),
    Stuck,
>
    decreases t.len() - pos, 31int,
{
    match lexeme_at(t, pos) {
        Lexeme::String(key) => if !symbol_at(t, pos + 1, Symbol::Colon) {
            stuck(pos + 1, Expected::Symbol(Symbol::Colon))
        } else {
            match expression(t, pos + 2) {
                Ok((value, p)) => if symbol_at(t, p, Symbol::RightBrace) {
                    Ok((before.push((key, value)), p + 1))
                } else if !symbol_at(t, p, Symbol::Comma) {
                    stuck(p, Expected::CommaOr(Symbol::RightBrace))
                } else if p > pos {
                    entries(t, p + 1, before.push((key, value)))
                } else {
                    stuck(pos, Expected::Operand)
                },
                Err(s) => Err(s),
            }
        },
        _ => stuck(pos, Expected::Key),
    }
}

/// The tree of the whole sequence: one expression, and after it the end of
/// the input.
pub open spec fn parse_lexemes(t: Seq<Lexeme>) -> Result<Ast, Stuck> {
    match expression(t, 0) {
        Ok((tree, p)) => if lexeme_at(t, p) is EndOfInput {
            Ok(tree)
        } else {
            stuck(p, Expected::EndOfInput)
        },
        Err(s) => Err(s),
    }
}

/// Whether a result that is a success starts inside `t`, at `pos`, and ends
/// after `pos` and inside `t`.
pub open spec fn advances<T>(t: Seq<Lexeme>, pos: int, result: Result<(T, int), Stuck>) -> bool {
    match result {
        Ok((_, p)) => 0 <= pos < p <= t.len(),
        Err(_) => true,
    }
}

/// Whether a result that is a success ends at `pos` or after it, inside `t`.
pub open spec fn holds<T>(t: Seq<Lexeme>, pos: int, result: Result<(T, int), Stuck>) -> bool {
    match result {
        Ok((_, p)) => pos <= p <= t.len(),
        Err(_) => true,
    }
}

/// An expression takes at least one lexeme and ends inside the sequence, so
/// the tests on positions in the grammar's functions always succeed.
pub proof fn lemma_expression_advances(t: Seq<Lexeme>, pos: int)
    ensures
        advances(t, pos, expression(t, pos)),
    decreases t.len() - pos, 30int,
{
    lemma_binary_advances(t, pos, 1);
}

/// An expression of binary operators takes at least one lexeme.
pub proof fn lemma_binary_advances(t: Seq<Lexeme>, pos: int, level: int)
    ensures
        advances(t, pos, binary(t, pos, level)),
    decreases t.len() - pos, (if is_level(level) {
        20 - level
    } else {
        13
    }),
{
    if !is_level(level) {
        lemma_unary_advances(t, pos);
    } else {
        lemma_binary_advances(t, pos, level + 1);
        match binary(t, pos, level + 1) {
            Ok((left, p)) => {
                lemma_binary_rest_holds(t, p, level, left);
            },
            Err(_) => {},
        }
    }
}

/// What follows an operand ends at `pos` or after it.
pub proof fn lemma_binary_rest_holds(t: Seq<Lexeme>, pos: int, level: int, left: Ast)
    requires
        0 <= pos <= t.len(),
    ensures
        holds(t, pos, binary_rest(t, pos, level, left)),
    decreases t.len() - pos, 0int,
{
    match operator_at(t, pos, level) {
        Some(operation) => {
            lemma_binary_advances(t, pos + 1, level + 1);
            match binary(t, pos + 1, level + 1) {
                Ok((right, p)) => {
                    lemma_binary_rest_holds(
                        t,
                        p,
                        level,
                        Ast::BinaryOperation {
                            operation,
                            left: Box::new(left),
                            right: Box::new(right),
                        },
                    );
                },
                Err(_) => {},
            }
        },
        None => {},
    }
}

/// An expression of prefix operators takes at least one lexeme.
pub proof fn lemma_unary_advances(t: Seq<Lexeme>, pos: int)
    ensures
        advances(t, pos, unary(t, pos)),
    decreases t.len() - pos, 10int,
{
    match prefix_at(t, pos) {
        Some(_) => {
            lemma_unary_advances(t, pos + 1);
        },
        None => {
            lemma_postfix_advances(t, pos);
        },
    }
}

/// A primary with its suffixes takes at least one lexeme.
pub proof fn lemma_postfix_advances(t: Seq<Lexeme>, pos: int)
    ensures
        advances(t, pos, postfix(t, pos)),
    decreases t.len() - pos, 9int,
{
    lemma_primary_advances(t, pos);
    match primary(t, pos) {
        Ok((subject, p)) => {
            lemma_postfix_rest_holds(t, p, subject);
        },
        Err(_) => {},
    }
}

/// A suffix takes at least one lexeme.
pub proof fn lemma_suffix_advances(t: Seq<Lexeme>, pos: int, subject: Ast)
    ensures
        match suffix(t, pos, subject) {
            Ok(Some((_, p))) => 0 <= pos < p <= t.len(),
            _ => true,
        },
    decreases t.len() - pos, 0int,
{
    match lexeme_at(t, pos) {
        Lexeme::Operator(Symbol::LeftBracket) => {
            lemma_expression_advances(t, pos + 1);
        },
        Lexeme::Operator(Symbol::Pipe) => {
            if symbol_at(t, pos + 2, Symbol::LeftParen) {
                lemma_list_advances(t, pos + 3, Symbol::RightParen);
            }
        },
        _ => {},
    }
}

/// The suffixes of a subject end at `pos` or after it.
pub proof fn lemma_postfix_rest_holds(t: Seq<Lexeme>, pos: int, subject: Ast)
    requires
        0 <= pos <= t.len(),
    ensures
        holds(t, pos, postfix_rest(t, pos, subject)),
    decreases t.len() - pos, 1int,
{
    lemma_suffix_advances(t, pos, subject);
    match suffix(t, pos, subject) {
        Ok(Some((node, p))) => {
            lemma_postfix_rest_holds(t, p, node);
        },
        _ => {},
    }
}

/// A primary takes at least one lexeme.
pub proof fn lemma_primary_advances(t: Seq<Lexeme>, pos: int)
    ensures
        advances(t, pos, primary(t, pos)),
    decreases t.len() - pos, 8int,
{
    match lexeme_at(t, pos) {
        Lexeme::Operator(Symbol::LeftParen) => {
            lemma_expression_advances(t, pos + 1);
        },
        Lexeme::Operator(Symbol::LeftBracket) => {
            lemma_list_advances(t, pos + 1, Symbol::RightBracket);
        },
        Lexeme::Operator(Symbol::LeftBrace) => {
            lemma_object_advances(t, pos + 1);
        },
        _ => {},
    }
}

/// A list takes at least its closing symbol.
pub proof fn lemma_list_advances(t: Seq<Lexeme>, pos: int, close: Symbol)
    ensures
        advances(t, pos, list(t, pos, close)),
    decreases t.len() - pos, 32int,
{
    if !symbol_at(t, pos, close) {
        lemma_items_advances(t, pos, close, Seq::empty());
    }
}

/// The items of a list take at least one lexeme.
pub proof fn lemma_items_advances(t: Seq<Lexeme>, pos: int, close: Symbol, before: Seq<Ast>)
    ensures
        advances(t, pos, items(t, pos, close, before)),
    decreases t.len() - pos, 31int,
{
    lemma_expression_advances(t, pos);
    match expression(t, pos) {
        Ok((item, p)) => {
            if !symbol_at(t, p, close) && symbol_at(t, p, Symbol::Comma) {
                lemma_items_advances(t, p + 1, close, before.push(item));
            }
        },
        Err(_) => {},
    }
}

/// The entries of an object take at least the closing brace.
pub proof fn lemma_object_advances(t: Seq<Lexeme>, pos: int)
    ensures
        advances(t, pos, object(t, pos)),
    decreases t.len() - pos, 32int,
{
    if !symbol_at(t, pos, Symbol::RightBrace) {
        lemma_entries_advances(t, pos, Seq::empty());
    }
}

/// The entries of an object take at least one lexeme.
pub proof fn lemma_entries_advances(t: Seq<Lexeme>, pos: int, before: Seq<(Seq<char>, Ast)>)
    ensures
        advances(t, pos, entries(t, pos, before)),
    decreases t.len() - pos, 31int,
{
    match lexeme_at(t, pos) {
        Lexeme::String(key) => {
            if symbol_at(t, pos + 1, Symbol::Colon) {
                lemma_expression_advances(t, pos + 2);
                match expression(t, pos + 2) {
                    Ok((value, p)) => {
                        if !symbol_at(t, p, Symbol::RightBrace) && symbol_at(t, p, Symbol::Comma) {
                            lemma_entries_advances(t, p + 1, before.push((key, value)));
                        }
                    },
                    Err(_) => {},
                }
            }
        },
        _ => {},
    }
}

} // verus!
