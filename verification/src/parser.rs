//! The parser: from tokens to an expression, by recursive descent over the
//! grammar's functions.

use vstd::prelude::*;
use crate::ast::{
    canonical_entries, canonical_list, entries_of, lemma_array_tree, lemma_object_tree,
    lemma_transform_tree, trees_of, Ast, Expression, OpCode,
};
use crate::error::{error_at, report, Halt, ParseError};
use crate::grammar::{
    binary, binary_operator, binary_rest, entries, expression, is_level, items,
    lemma_binary_advances, lemma_expression_advances, lemma_list_advances,
    lemma_primary_advances, lemma_suffix_advances, lexeme_at, list, object, operator_at,
    parse_lexemes, postfix, postfix_rest, prefix_at, primary, suffix, symbol_at, unary, Expected,
    Stuck,
};
use crate::lexer::{lex, tokenize};
use crate::token::{
    canonical_tokens, lexemes, token_views, Keyword, Lexeme, Symbol, Token, TokenKind, TokenView,
};

verus! {

/// What the tokens of `tokens` say, in order.
pub open spec fn lexemes_of(tokens: &Vec<Token>) -> Seq<Lexeme> {
    lexemes(token_views(tokens@))
}

/// The outcome of a parser's function as the grammar states it.
pub open spec fn step_view(step: Result<(Expression, usize), Halt>) -> Result<(Ast, int), Stuck> {
    match step {
        Ok((node, next)) => Ok((node@, next as int)),
        Err(halt) => Err(halt@),
    }
}

/// The outcome of reading a list as the grammar states it.
pub open spec fn list_view(step: Result<(Vec<Box<Expression>>, usize), Halt>) -> Result<
    (Seq<Ast>, int),
    Stuck,
> {
    match step {
        Ok((list, next)) => Ok((trees_of(list@), next as int)),
        Err(halt) => Err(halt@),
    }
}

/// The outcome of reading an object's entries as the grammar states it.
pub open spec fn object_view(step: Result<(Vec<(String, Box<Expression>)>, usize), Halt>) -> Result<
    (Seq<(Seq<char>, Ast)>, int),
    Stuck,
> {
    match step {
        Ok((list, next)) => Ok((entries_of(list@), next as int)),
        Err(halt) => Err(halt@),
    }
}

/// Whether the expression that a parser's function has read from tokens in
/// canonical form is in canonical form too.
pub open spec fn keeps_form(tokens: &Vec<Token>, step: Result<(Expression, usize), Halt>) -> bool {
    canonical_tokens(tokens@) ==> match step {
        Ok((node, _)) => node.canonical(),
        Err(_) => true,
    }
}

/// The outcome of a parse as a mathematical value.
pub open spec fn outcome_view(outcome: Result<Expression, ParseError>) -> Result<Ast, ParseError> {
    match outcome {
        Ok(node) => Ok(node@),
        Err(error) => Err(error),
    }
}

/// What parsing the tokens `tokens` gives: the tree of the grammar, or the
/// error for the place where the grammar stopped.
pub open spec fn parse_views(tokens: Seq<TokenView>) -> Result<Ast, ParseError> {
    match parse_lexemes(lexemes(tokens)) {
        Ok(tree) => Ok(tree),
        Err(stuck) => Err(report(tokens, stuck)),
    }
}

/// What parsing the text `s` gives.
pub open spec fn parse_text(s: Seq<char>) -> Result<Ast, ParseError> {
    parse_views(lex(s))
}

proof fn lemma_lexemes_of(tokens: &Vec<Token>)
    ensures
        lexemes_of(tokens).len() == tokens.len(),
        forall|i: int|
            0 <= i < tokens.len() ==> #[trigger] lexemes_of(tokens)[i] == tokens[i].kind@,
{
}

fn kind_at(tokens: &Vec<Token>, pos: usize) -> (kind: Option<&TokenKind>)
    ensures
        match kind {
            Some(k) => pos < tokens.len() && *k == tokens[pos as int].kind && k@ == lexeme_at(
                lexemes_of(tokens),
                pos as int,
            ),
            None => pos >= tokens.len() && lexeme_at(lexemes_of(tokens), pos as int)
                is EndOfInput,
        },
{
    proof {
        lemma_lexemes_of(tokens);
    }
    if pos < tokens.len() {
        Some(&tokens[pos].kind)
    } else {
        None
    }
}

fn operator_symbol(tokens: &Vec<Token>, pos: usize) -> (found: Option<Symbol>)
    ensures
        match found {
            Some(symbol) => pos < tokens.len() && lexeme_at(lexemes_of(tokens), pos as int)
                == Lexeme::Operator(symbol),
            None => !(lexeme_at(lexemes_of(tokens), pos as int) is Operator),
        },
{
    match kind_at(tokens, pos) {
        Some(TokenKind::Operator(symbol)) => Some(*symbol),
        _ => None,
    }
}

fn has_symbol(tokens: &Vec<Token>, pos: usize, symbol: Symbol) -> (found: bool)
    ensures
        found == symbol_at(lexemes_of(tokens), pos as int, symbol),
        found ==> pos < tokens.len(),
{
    match operator_symbol(tokens, pos) {
        Some(other) => other == symbol,
        None => false,
    }
}

fn name_at(tokens: &Vec<Token>, pos: usize) -> (found: Option<String>)
    ensures
        match found {
            Some(name) => pos < tokens.len() && lexeme_at(lexemes_of(tokens), pos as int)
                == Lexeme::Identifier(name@),
            None => !(lexeme_at(lexemes_of(tokens), pos as int) is Identifier),
        },
{
    match kind_at(tokens, pos) {
        Some(TokenKind::Identifier(name)) => Some(name.clone()),
        _ => None,
    }
}

fn text_at(tokens: &Vec<Token>, pos: usize) -> (found: Option<String>)
    ensures
        match found {
            Some(text) => pos < tokens.len() && lexeme_at(lexemes_of(tokens), pos as int)
                == Lexeme::String(text@),
            None => !(lexeme_at(lexemes_of(tokens), pos as int) is String),
        },
{
    match kind_at(tokens, pos) {
        Some(TokenKind::String(text)) => Some(text.clone()),
        _ => None,
    }
}

fn binary_of(symbol: Symbol, level: u8) -> (found: Option<OpCode>)
    ensures
        found == binary_operator(symbol, level as int),
{
    match symbol {
        Symbol::OrOr => if level == 1 {
            Some(OpCode::Or)
        } else {
            None
        },
        Symbol::AndAnd => if level == 2 {
            Some(OpCode::And)
        } else {
            None
        },
        Symbol::EqualEqual => if level == 3 {
            Some(OpCode::Equal)
        } else {
            None
        },
        Symbol::NotEqual => if level == 3 {
            Some(OpCode::NotEqual)
        } else {
            None
        },
        Symbol::Less => if level == 4 {
            Some(OpCode::LessThan)
        } else {
            None
        },
        Symbol::LessEqual => if level == 4 {
            Some(OpCode::LessEqual)
        } else {
            None
        },
        Symbol::Greater => if level == 4 {
            Some(OpCode::GreaterThan)
        } else {
            None
        },
        Symbol::GreaterEqual => if level == 4 {
            Some(OpCode::GreaterEqual)
        } else {
            None
        },
        Symbol::Plus => if level == 5 {
            Some(OpCode::Add)
        } else {
            None
        },
        Symbol::Minus => if level == 5 {
            Some(OpCode::Subtract)
        } else {
            None
        },
        Symbol::Star => if level == 6 {
            Some(OpCode::Multiply)
        } else {
            None
        },
        Symbol::Slash => if level == 6 {
            Some(OpCode::Divide)
        } else {
            None
        },
        Symbol::Percent => if level == 6 {
            Some(OpCode::Modulus)
        } else {
            None
        },
        _ => None,
    }
}

fn binary_at(tokens: &Vec<Token>, pos: usize, level: u8) -> (found: Option<OpCode>)
    ensures
        found == operator_at(lexemes_of(tokens), pos as int, level as int),
        found is Some ==> pos < tokens.len(),
{
    match operator_symbol(tokens, pos) {
        Some(symbol) => binary_of(symbol, level),
        None => None,
    }
}

fn prefix_of(tokens: &Vec<Token>, pos: usize) -> (found: Option<OpCode>)
    ensures
        found == prefix_at(lexemes_of(tokens), pos as int),
        found is Some ==> pos < tokens.len(),
{
    match operator_symbol(tokens, pos) {
        Some(Symbol::Bang) => Some(OpCode::Not),
        Some(Symbol::Minus) => Some(OpCode::Subtract),
        _ => None,
    }
}

fn halt<T>(index: usize, expected: Expected) -> (step: Result<T, Halt>)
    ensures
        step == Err::<T, Halt>(Halt { index, expected }),
{
    Err(Halt { index, expected })
}

/// Reads an expression that starts at the token `pos`.
pub fn parse_expression(tokens: &Vec<Token>, pos: usize) -> (step: Result<
    (Expression, usize),
    Halt,
>)
    ensures
        step_view(step) == expression(lexemes_of(tokens), pos as int),
        keeps_form(tokens, step),
    decreases tokens.len() - pos, 30int,
{
    parse_binary(tokens, pos, 1)
}

fn parse_binary(tokens: &Vec<Token>, pos: usize, level: u8) -> (step: Result<
    (Expression, usize),
    Halt,
>)
    ensures
        step_view(step) == binary(lexemes_of(tokens), pos as int, level as int),
        keeps_form(tokens, step),
    decreases tokens.len() - pos, (if is_level(level as int) {
        20 - level
    } else {
        13
    }),
{
    let ghost t = lexemes_of(tokens);
    proof {
        lemma_lexemes_of(tokens);
    }
    if level < 1 || level > 6 {
        return parse_unary(tokens, pos);
    }
    let first = parse_binary(tokens, pos, level + 1);
    proof {
        lemma_binary_advances(t, pos as int, level + 1);
    }
    let (mut left, mut p) = match first {
        Ok(found) => found,
        Err(h) => {
            return Err(h);
        },
    };
    loop
        invariant
            t == lexemes_of(tokens),
            t.len() == tokens.len(),
            is_level(level as int),
            pos < p <= tokens.len(),
            binary(t, pos as int, level as int) == binary_rest(t, p as int, level as int, left@),
            canonical_tokens(tokens@) ==> left.canonical(),
        decreases tokens.len() - p,
    {
        match binary_at(tokens, p, level) {
            None => {
                return Ok((left, p));
            },
            Some(operation) => {
                let next = parse_binary(tokens, p + 1, level + 1);
                proof {
                    lemma_binary_advances(t, p + 1, level + 1);
                }
                match next {
                    Ok((right, q)) => {
                        left = Expression::BinaryOperation {
                            operation,
                            left: Box::new(left),
                            right: Box::new(right),
                        };
                        p = q;
                    },
                    Err(h) => {
                        return Err(h);
                    },
                }
            },
        }
    }
}

fn parse_unary(tokens: &Vec<Token>, pos: usize) -> (step: Result<(Expression, usize), Halt>)
    ensures
        step_view(step) == unary(lexemes_of(tokens), pos as int),
        keeps_form(tokens, step),
    decreases tokens.len() - pos, 10int,
{
    match prefix_of(tokens, pos) {
        Some(operation) => match parse_unary(tokens, pos + 1) {
            Ok((operand, p)) => Ok(
                (Expression::UnaryOperation { operation, operand: Box::new(operand) }, p),
            ),
            Err(h) => Err(h),
        },
        None => parse_postfix(tokens, pos),
    }
}

fn parse_postfix(tokens: &Vec<Token>, pos: usize) -> (step: Result<(Expression, usize), Halt>)
    ensures
        step_view(step) == postfix(lexemes_of(tokens), pos as int),
        keeps_form(tokens, step),
    decreases tokens.len() - pos, 9int,
{
    let ghost t = lexemes_of(tokens);
    proof {
        lemma_lexemes_of(tokens);
        lemma_primary_advances(t, pos as int);
    }
    let (mut subject, mut p) = match parse_primary(tokens, pos) {
        Ok(found) => found,
        Err(h) => {
            return Err(h);
        },
    };
    loop
        invariant
            t == lexemes_of(tokens),
            t.len() == tokens.len(),
            pos < p <= tokens.len(),
            postfix(t, pos as int) == postfix_rest(t, p as int, subject@),
            canonical_tokens(tokens@) ==> subject.canonical(),
        decreases tokens.len() - p,
    {
        proof {
            lemma_suffix_advances(t, p as int, subject@);
        }
        match parse_suffix(tokens, p, subject) {
            Ok((node, Some(q))) => {
                subject = node;
                p = q;
            },
            Ok((node, None)) => {
                return Ok((node, p));
            },
            Err(h) => {
                return Err(h);
            },
        }
    }
}

/// Reads one suffix of `subject` at the token `pos`. Where none starts
/// there, the subject comes back as it went in, with no position.
fn parse_suffix(tokens: &Vec<Token>, pos: usize, subject: Expression) -> (step: Result<
    (Expression, Option<usize>),
    Halt,
>)
    requires
        0 < pos <= tokens.len(),
    ensures
        match suffix(lexemes_of(tokens), pos as int, subject@) {
            Ok(Some((tree, next))) => step matches Ok((node, Some(q))) && node@ == tree && q
                == next,
            Ok(None) => step matches Ok((node, None)) && node@ == subject@,
            Err(stuck) => step matches Err(h) && h@ == stuck,
        },
        canonical_tokens(tokens@) && subject.canonical() ==> (step matches Ok((node, _))
            ==> node.canonical()),
    decreases tokens.len() - pos, 0int,
{
    let ghost t = lexemes_of(tokens);
    proof {
        lemma_lexemes_of(tokens);
        lemma_suffix_advances(t, pos as int, subject@);
    }
    match operator_symbol(tokens, pos) {
        Some(Symbol::Dot) => match name_at(tokens, pos + 1) {
            Some(ident) => Ok(
                (Expression::DotOperation { subject: Box::new(subject), ident }, Some(pos + 2)),
            ),
            None => halt(pos + 1, Expected::Identifier),
        },
        Some(Symbol::LeftBracket) => {
            let inner = parse_expression(tokens, pos + 1);
            proof {
                lemma_expression_advances(t, pos + 1);
            }
            match inner {
                Ok((index, q)) => {
                    if has_symbol(tokens, q, Symbol::RightBracket) {
                        Ok(
                            (
                                Expression::IndexOperation {
                                    subject: Box::new(subject),
                                    index: Box::new(index),
                                },
                                Some(q + 1),
                            ),
                        )
                    } else {
                        halt(q, Expected::Symbol(Symbol::RightBracket))
                    }
                },
                Err(h) => Err(h),
            }
        },
        Some(Symbol::Pipe) => match name_at(tokens, pos + 1) {
            Some(name) => {
                if has_symbol(tokens, pos + 2, Symbol::LeftParen) {
                    let inner = parse_list(tokens, pos + 3, Symbol::RightParen);
                    proof {
                        lemma_list_advances(t, pos + 3, Symbol::RightParen);
                    }
                    match inner {
                        Ok((args, q)) => {
                            let node = Expression::Transform {
                                name,
                                subject: Box::new(subject),
                                args: Some(args),
                            };
                            proof {
                                lemma_transform_tree(node);
                            }
                            Ok((node, Some(q)))
                        },
                        Err(h) => Err(h),
                    }
                } else {
                    Ok(
                        (
                            Expression::Transform { name, subject: Box::new(subject), args: None },
                            Some(pos + 2),
                        ),
                    )
                }
            },
            None => halt(pos + 1, Expected::Identifier),
        },
        _ => Ok((subject, None)),
    }
}

fn parse_primary(tokens: &Vec<Token>, pos: usize) -> (step: Result<(Expression, usize), Halt>)
    ensures
        step_view(step) == primary(lexemes_of(tokens), pos as int),
        keeps_form(tokens, step),
    decreases tokens.len() - pos, 8int,
{
    let ghost t = lexemes_of(tokens);
    match kind_at(tokens, pos) {
        None => halt(pos, Expected::Operand),
        Some(kind) => match kind {
            TokenKind::Number(value) => Ok((Expression::Number(value.duplicate()), pos + 1)),
            TokenKind::String(text) => Ok((Expression::String(text.clone()), pos + 1)),
            TokenKind::Identifier(name) => Ok((Expression::Identifier(name.clone()), pos + 1)),
            TokenKind::Keyword(Keyword::True) => Ok((Expression::Boolean(true), pos + 1)),
            TokenKind::Keyword(Keyword::False) => Ok((Expression::Boolean(false), pos + 1)),
            TokenKind::Keyword(Keyword::Null) => Ok((Expression::Null, pos + 1)),
            TokenKind::Operator(Symbol::LeftParen) => {
                let inner = parse_expression(tokens, pos + 1);
                proof {
                    lemma_expression_advances(t, pos + 1);
                }
                match inner {
                    Ok((node, p)) => {
                        if has_symbol(tokens, p, Symbol::RightParen) {
                            Ok((node, p + 1))
                        } else {
                            halt(p, Expected::Symbol(Symbol::RightParen))
                        }
                    },
                    Err(h) => Err(h),
                }
            },
            TokenKind::Operator(Symbol::LeftBracket) => {
                match parse_list(tokens, pos + 1, Symbol::RightBracket) {
                    Ok((list, p)) => {
                        let node = Expression::Array(list);
                        proof {
                            lemma_array_tree(node);
                        }
                        Ok((node, p))
                    },
                    Err(h) => Err(h),
                }
            },
            TokenKind::Operator(Symbol::LeftBrace) => {
                match parse_object(tokens, pos + 1) {
                    Ok((list, p)) => {
                        let node = Expression::Object(list);
                        proof {
                            lemma_object_tree(node);
                        }
                        Ok((node, p))
                    },
                    Err(h) => Err(h),
                }
            },
            _ => halt(pos, Expected::Operand),
        },
    }
}

fn parse_list(tokens: &Vec<Token>, pos: usize, close: Symbol) -> (step: Result<
    (Vec<Box<Expression>>, usize),
    Halt,
>)
    ensures
        list_view(step) == list(lexemes_of(tokens), pos as int, close),
        canonical_tokens(tokens@) ==> (step matches Ok((found, _)) ==> canonical_list(found@)),
    decreases tokens.len() - pos, 32int,
{
    let ghost t = lexemes_of(tokens);
    proof {
        lemma_lexemes_of(tokens);
    }
    let mut found: Vec<Box<Expression>> = Vec::new();
    if has_symbol(tokens, pos, close) {
        assert(trees_of(found@) =~= Seq::<Ast>::empty());
        return Ok((found, pos + 1));
    }
    let mut p: usize = pos;
    assert(trees_of(found@) =~= Seq::<Ast>::empty());
    loop
        invariant
            t == lexemes_of(tokens),
            t.len() == tokens.len(),
            pos <= p,
            p == pos || p <= tokens.len(),
            list(t, pos as int, close) == items(t, p as int, close, trees_of(found@)),
            canonical_tokens(tokens@) ==> canonical_list(found@),
        decreases tokens.len() - p,
    {
        let inner = parse_expression(tokens, p);
        proof {
            lemma_expression_advances(t, p as int);
        }
        match inner {
            Ok((item, q)) => {
                let ghost before = found@;
                found.push(Box::new(item));
                assert(trees_of(found@) =~= trees_of(before).push(item@));
                if has_symbol(tokens, q, close) {
                    return Ok((found, q + 1));
                }
                if !has_symbol(tokens, q, Symbol::Comma) {
                    return halt(q, Expected::CommaOr(close));
                }
                p = q + 1;
            },
            Err(h) => {
                return Err(h);
            },
        }
    }
}

fn parse_object(tokens: &Vec<Token>, pos: usize) -> (step: Result<
    (Vec<(String, Box<Expression>)>, usize),
    Halt,
>)
    ensures
        object_view(step) == object(lexemes_of(tokens), pos as int),
        canonical_tokens(tokens@) ==> (step matches Ok((found, _)) ==> canonical_entries(found@)),
    decreases tokens.len() - pos, 32int,
{
    let ghost t = lexemes_of(tokens);
    proof {
        lemma_lexemes_of(tokens);
    }
    let mut found: Vec<(String, Box<Expression>)> = Vec::new();
    if has_symbol(tokens, pos, Symbol::RightBrace) {
        assert(entries_of(found@) =~= Seq::<(Seq<char>, Ast)>::empty());
        return Ok((found, pos + 1));
    }
    let mut p: usize = pos;
    assert(entries_of(found@) =~= Seq::<(Seq<char>, Ast)>::empty());
    loop
        invariant
            t == lexemes_of(tokens),
            t.len() == tokens.len(),
            pos <= p,
            p == pos || p <= tokens.len(),
            object(t, pos as int) == entries(t, p as int, entries_of(found@)),
            canonical_tokens(tokens@) ==> canonical_entries(found@),
        decreases tokens.len() - p,
    {
        let key = match text_at(tokens, p) {
            Some(key) => key,
            None => {
                return halt(p, Expected::Key);
            },
        };
        if !has_symbol(tokens, p + 1, Symbol::Colon) {
            return halt(p + 1, Expected::Symbol(Symbol::Colon));
        }
        let inner = parse_expression(tokens, p + 2);
        proof {
            lemma_expression_advances(t, p + 2);
        }
        match inner {
            Ok((value, q)) => {
                let ghost before = found@;
                let ghost entry = (key@, value@);
                found.push((key, Box::new(value)));
                assert(entries_of(found@) =~= entries_of(before).push(entry));
                if has_symbol(tokens, q, Symbol::RightBrace) {
                    return Ok((found, q + 1));
                }
                if !has_symbol(tokens, q, Symbol::Comma) {
                    return halt(q, Expected::CommaOr(Symbol::RightBrace));
                }
                p = q + 1;
            },
            Err(h) => {
                return Err(h);
            },
        }
    }
}

/// Parses a sequence of tokens: one expression, and after it the end of the
/// input.
pub fn parse_tokens(tokens: &Vec<Token>) -> (outcome: Result<Expression, ParseError>)
    ensures
        outcome_view(outcome) == parse_views(token_views(tokens@)),
        canonical_tokens(tokens@) ==> (outcome matches Ok(node) ==> node.canonical()),
{
    proof {
        lemma_lexemes_of(tokens);
        lemma_expression_advances(lexemes_of(tokens), 0);
    }
    match parse_expression(tokens, 0) {
        Ok((node, p)) => {
            let ended = match kind_at(tokens, p) {
                Some(TokenKind::EndOfInput) => true,
                Some(_) => false,
                None => true,
            };
            if ended {
                Ok(node)
            } else {
                Err(error_at(tokens, Halt { index: p, expected: Expected::EndOfInput }))
            }
        },
        Err(h) => Err(error_at(tokens, h)),
    }
}

/// Parsing is a function of the text alone: whatever two parses of one text
/// return, it is the same tree or the same error.
pub proof fn lemma_parse_deterministic(
    input: &str,
    first: Result<Expression, ParseError>,
    second: Result<Expression, ParseError>,
)
    requires
        outcome_view(first) == parse_text(input@),
        outcome_view(second) == parse_text(input@),
    ensures
        outcome_view(first) == outcome_view(second),
        first is Err ==> second == Err::<Expression, ParseError>(first->Err_0),
{
}

/// The parser. It holds no state: one parser serves any number of texts.
pub struct Parser {}

impl Parser {
    /// A parser.
    pub fn new() -> (parser: Self) {
        Parser {  }
    }

    /// Parses `input` as one expression.
    pub fn parse(&self, input: &str) -> (outcome: Result<Expression, ParseError>)
        ensures
            outcome_view(outcome) == parse_text(input@),
            outcome matches Ok(node) ==> node.canonical(),
    {
        let tokens = tokenize(input);
        parse_tokens(&tokens)
    }
}

} // verus!
