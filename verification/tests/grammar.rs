use jexl_parser::ast::{Expression, OpCode};
use jexl_parser::decimal::Decimal;
use jexl_parser::error::ParseError;
use jexl_parser::grammar::Expected;
use jexl_parser::lexer::tokenize;
use jexl_parser::token::{Keyword, LexicalDetail, Symbol, Token, TokenClass, TokenKind};
use jexl_parser::Parser;

fn num(n: u64) -> Box<Expression> {
    Box::new(Expression::Number(Decimal::from_u64(n)))
}

fn name(text: &str) -> Box<Expression> {
    Box::new(Expression::Identifier(text.to_string()))
}

fn binary(operation: OpCode, left: Box<Expression>, right: Box<Expression>) -> Box<Expression> {
    Box::new(Expression::BinaryOperation { operation, left, right })
}

fn parse(text: &str) -> Result<Expression, ParseError> {
    Parser::new().parse(text)
}

#[test]
fn subtraction_groups_to_the_left() {
    assert_eq!(
        parse("1-2-3"),
        Ok(*binary(OpCode::Subtract, binary(OpCode::Subtract, num(1), num(2)), num(3)))
    );
}

#[test]
fn multiplication_binds_tighter_than_addition() {
    assert_eq!(
        parse("1+2*3"),
        Ok(*binary(OpCode::Add, num(1), binary(OpCode::Multiply, num(2), num(3))))
    );
    assert_eq!(
        parse("1*2+3"),
        Ok(*binary(OpCode::Add, binary(OpCode::Multiply, num(1), num(2)), num(3)))
    );
}

#[test]
fn every_level_binds_tighter_than_the_one_before() {
    // a || b && c == d < e + f * g
    let product = binary(OpCode::Multiply, name("f"), name("g"));
    let sum = binary(OpCode::Add, name("e"), product);
    let relation = binary(OpCode::LessThan, name("d"), sum);
    let equality = binary(OpCode::Equal, name("c"), relation);
    let conjunction = binary(OpCode::And, name("b"), equality);
    assert_eq!(
        parse("a || b && c == d < e + f * g"),
        Ok(*binary(OpCode::Or, name("a"), conjunction))
    );
}

#[test]
fn each_binary_operator_has_its_code() {
    let cases = [
        ("a||b", OpCode::Or),
        ("a&&b", OpCode::And),
        ("a==b", OpCode::Equal),
        ("a!=b", OpCode::NotEqual),
        ("a<b", OpCode::LessThan),
        ("a<=b", OpCode::LessEqual),
        ("a>b", OpCode::GreaterThan),
        ("a>=b", OpCode::GreaterEqual),
        ("a+b", OpCode::Add),
        ("a-b", OpCode::Subtract),
        ("a*b", OpCode::Multiply),
        ("a/b", OpCode::Divide),
        ("a%b", OpCode::Modulus),
    ];
    for (text, operation) in cases {
        assert_eq!(parse(text), Ok(*binary(operation, name("a"), name("b"))));
    }
}

#[test]
fn parentheses_group() {
    assert_eq!(
        parse("(1+2)*3"),
        Ok(*binary(OpCode::Multiply, binary(OpCode::Add, num(1), num(2)), num(3)))
    );
    assert_eq!(parse("((a))"), Ok(*name("a")));
}

#[test]
fn suffixes_chain_from_left_to_right() {
    assert_eq!(
        parse("a.b[0]"),
        Ok(Expression::IndexOperation {
            subject: Box::new(Expression::DotOperation {
                subject: name("a"),
                ident: "b".to_string()
            }),
            index: num(0),
        })
    );
    assert_eq!(
        parse("a.b[0]|f.c"),
        Ok(Expression::DotOperation {
            subject: Box::new(Expression::Transform {
                name: "f".to_string(),
                subject: Box::new(Expression::IndexOperation {
                    subject: Box::new(Expression::DotOperation {
                        subject: name("a"),
                        ident: "b".to_string()
                    }),
                    index: num(0),
                }),
                args: None,
            }),
            ident: "c".to_string(),
        })
    );
}

#[test]
fn index_takes_any_expression() {
    assert_eq!(
        parse("a[b.c + 1]"),
        Ok(Expression::IndexOperation {
            subject: name("a"),
            index: binary(
                OpCode::Add,
                Box::new(Expression::DotOperation { subject: name("b"), ident: "c".to_string() }),
                num(1)
            ),
        })
    );
}

#[test]
fn transform_with_and_without_arguments() {
    assert_eq!(
        parse("'x'|f"),
        Ok(Expression::Transform {
            name: "f".to_string(),
            subject: Box::new(Expression::String("x".to_string())),
            args: None,
        })
    );
    assert_eq!(
        parse("'x'|f(1,2)"),
        Ok(Expression::Transform {
            name: "f".to_string(),
            subject: Box::new(Expression::String("x".to_string())),
            args: Some(vec![num(1), num(2)]),
        })
    );
}

#[test]
fn transform_with_empty_parentheses_has_an_empty_list() {
    assert_eq!(
        parse("a|f()"),
        Ok(Expression::Transform { name: "f".to_string(), subject: name("a"), args: Some(vec![]) })
    );
}

#[test]
fn transform_binds_tighter_than_binary_operators() {
    assert_eq!(
        parse("a + b|f"),
        Ok(*binary(
            OpCode::Add,
            name("a"),
            Box::new(Expression::Transform {
                name: "f".to_string(),
                subject: name("b"),
                args: None
            })
        ))
    );
}

#[test]
fn null_is_not_a_name_that_starts_alike() {
    assert_eq!(parse("null"), Ok(Expression::Null));
    assert_eq!(parse("nullish"), Ok(*name("nullish")));
    assert_eq!(parse("true"), Ok(Expression::Boolean(true)));
    assert_eq!(parse("false"), Ok(Expression::Boolean(false)));
    assert_eq!(parse("truely"), Ok(*name("truely")));
    assert_eq!(parse("_false"), Ok(*name("_false")));
}

#[test]
fn parsing_twice_gives_the_same_tree() {
    let parser = Parser::new();
    let text = "{'a': [1, 2.5, x.y|f(3)], 'b': !c}";
    assert_eq!(parser.parse(text), parser.parse(text));
    assert!(parser.parse(text).is_ok());
    assert_eq!(parser.parse("1 +"), Parser::new().parse("1 +"));
}

#[test]
fn blanks_between_tokens_change_nothing() {
    assert_eq!(parse(" a . b [ 0 ]\t|\tf ( 1 , 2 ) "), parse("a.b[0]|f(1,2)"));
    assert!(parse("a.b[0]|f(1,2)").is_ok());
    assert_eq!(parse("{ 'k' : [ 1 , 2 ] }\n"), parse("{'k':[1,2]}"));
    assert_eq!(parse("\r\n! a"), parse("!a"));
}

#[test]
fn blanks_inside_a_string_stay() {
    assert_eq!(parse("' a  b '"), Ok(Expression::String(" a  b ".to_string())));
}

#[test]
fn error_cases() {
    assert_eq!(parse("1+"), Err(ParseError::UnexpectedEndOfInput { expected: Expected::Operand }));
    assert_eq!(parse("1 2"), Err(ParseError::ExtraInput { offset: 2 }));
    assert_eq!(
        parse("'unterminated"),
        Err(ParseError::LexicalError { offset: 0, detail: LexicalDetail::UnterminatedString })
    );
}

#[test]
fn empty_text_ends_too_early() {
    assert_eq!(parse(""), Err(ParseError::UnexpectedEndOfInput { expected: Expected::Operand }));
    assert_eq!(parse("  \t"), Err(ParseError::UnexpectedEndOfInput { expected: Expected::Operand }));
}

#[test]
fn unrecognized_character_is_reported_with_its_offset() {
    assert_eq!(
        parse("1 + #"),
        Err(ParseError::LexicalError {
            offset: 4,
            detail: LexicalDetail::UnrecognizedCharacter('#')
        })
    );
    assert_eq!(
        parse("a = b"),
        Err(ParseError::LexicalError {
            offset: 2,
            detail: LexicalDetail::UnrecognizedCharacter('=')
        })
    );
    assert_eq!(
        parse("a & b"),
        Err(ParseError::LexicalError {
            offset: 2,
            detail: LexicalDetail::UnrecognizedCharacter('&')
        })
    );
}

#[test]
fn the_first_error_in_the_text_is_the_one_reported() {
    assert_eq!(parse("1 2 #"), Err(ParseError::ExtraInput { offset: 2 }));
    assert_eq!(
        parse("1 # 2 3"),
        Err(ParseError::LexicalError {
            offset: 2,
            detail: LexicalDetail::UnrecognizedCharacter('#')
        })
    );
}

#[test]
fn unexpected_token_names_what_was_found_and_needed() {
    assert_eq!(
        parse("(1 2"),
        Err(ParseError::UnexpectedToken {
            offset: 3,
            found: TokenClass::Number,
            expected: Expected::Symbol(Symbol::RightParen)
        })
    );
    assert_eq!(
        parse("1 + )"),
        Err(ParseError::UnexpectedToken {
            offset: 4,
            found: TokenClass::Operator(Symbol::RightParen),
            expected: Expected::Operand
        })
    );
    assert_eq!(
        parse("a.1"),
        Err(ParseError::UnexpectedToken {
            offset: 2,
            found: TokenClass::Number,
            expected: Expected::Identifier
        })
    );
    assert_eq!(
        parse("a|'f'"),
        Err(ParseError::UnexpectedToken {
            offset: 2,
            found: TokenClass::String,
            expected: Expected::Identifier
        })
    );
    assert_eq!(
        parse("a[1)"),
        Err(ParseError::UnexpectedToken {
            offset: 3,
            found: TokenClass::Operator(Symbol::RightParen),
            expected: Expected::Symbol(Symbol::RightBracket)
        })
    );
    assert_eq!(
        parse("[1 true]"),
        Err(ParseError::UnexpectedToken {
            offset: 3,
            found: TokenClass::Keyword(Keyword::True),
            expected: Expected::CommaOr(Symbol::RightBracket)
        })
    );
    assert_eq!(
        parse("{a: 1}"),
        Err(ParseError::UnexpectedToken {
            offset: 1,
            found: TokenClass::Identifier,
            expected: Expected::Key
        })
    );
    assert_eq!(
        parse("{'a' 1}"),
        Err(ParseError::UnexpectedToken {
            offset: 5,
            found: TokenClass::Number,
            expected: Expected::Symbol(Symbol::Colon)
        })
    );
    assert_eq!(
        parse("{'a': 1 'b': 2}"),
        Err(ParseError::UnexpectedToken {
            offset: 8,
            found: TokenClass::String,
            expected: Expected::CommaOr(Symbol::RightBrace)
        })
    );
}

#[test]
fn a_comma_after_the_last_item_is_refused() {
    assert_eq!(
        parse("[1,]"),
        Err(ParseError::UnexpectedToken {
            offset: 3,
            found: TokenClass::Operator(Symbol::RightBracket),
            expected: Expected::Operand
        })
    );
    assert_eq!(
        parse("a|f(1,)"),
        Err(ParseError::UnexpectedToken {
            offset: 6,
            found: TokenClass::Operator(Symbol::RightParen),
            expected: Expected::Operand
        })
    );
    assert_eq!(
        parse("{'a': 1,}"),
        Err(ParseError::UnexpectedToken {
            offset: 8,
            found: TokenClass::Operator(Symbol::RightBrace),
            expected: Expected::Key
        })
    );
}

#[test]
fn unclosed_brackets_end_too_early() {
    assert_eq!(
        parse("(1"),
        Err(ParseError::UnexpectedEndOfInput { expected: Expected::Symbol(Symbol::RightParen) })
    );
    assert_eq!(
        parse("[1, 2"),
        Err(ParseError::UnexpectedEndOfInput { expected: Expected::CommaOr(Symbol::RightBracket) })
    );
    assert_eq!(parse("a."), Err(ParseError::UnexpectedEndOfInput { expected: Expected::Identifier }));
    assert_eq!(parse("{"), Err(ParseError::UnexpectedEndOfInput { expected: Expected::Key }));
}

#[test]
fn offsets_count_bytes() {
    // The string literal takes four bytes: two quotes and a two-byte letter.
    assert_eq!(parse("'\u{e9}' 2"), Err(ParseError::ExtraInput { offset: 5 }));
    assert_eq!(
        parse("'\u{1F600}\u{20AC}' + \u{e9}"),
        Err(ParseError::LexicalError {
            offset: 12,
            detail: LexicalDetail::UnrecognizedCharacter('\u{e9}')
        })
    );
}

#[test]
fn empty_and_nested_literals() {
    assert_eq!(parse("[]"), Ok(Expression::Array(vec![])));
    assert_eq!(parse("{}"), Ok(Expression::Object(vec![])));
    assert_eq!(
        parse("[[1],[2]]"),
        Ok(Expression::Array(vec![
            Box::new(Expression::Array(vec![num(1)])),
            Box::new(Expression::Array(vec![num(2)])),
        ]))
    );
    assert_eq!(
        parse("{'a': {'b': []}, 'a': null}"),
        Ok(Expression::Object(vec![
            (
                "a".to_string(),
                Box::new(Expression::Object(vec![(
                    "b".to_string(),
                    Box::new(Expression::Array(vec![]))
                )]))
            ),
            ("a".to_string(), Box::new(Expression::Null)),
        ]))
    );
}

#[test]
fn prefix_operators_nest_and_bind_looser_than_suffixes() {
    assert_eq!(
        parse("!-a"),
        Ok(Expression::UnaryOperation {
            operation: OpCode::Not,
            operand: Box::new(Expression::UnaryOperation {
                operation: OpCode::Subtract,
                operand: name("a")
            }),
        })
    );
    assert_eq!(
        parse("-a.b"),
        Ok(Expression::UnaryOperation {
            operation: OpCode::Subtract,
            operand: Box::new(Expression::DotOperation {
                subject: name("a"),
                ident: "b".to_string()
            }),
        })
    );
    assert_eq!(
        parse("1 - -2"),
        Ok(*binary(
            OpCode::Subtract,
            num(1),
            Box::new(Expression::UnaryOperation { operation: OpCode::Subtract, operand: num(2) })
        ))
    );
}

#[test]
fn escapes_in_strings() {
    assert_eq!(parse(r"'it\'s'"), Ok(Expression::String("it's".to_string())));
    assert_eq!(parse(r#""say \"hi\"""#), Ok(Expression::String("say \"hi\"".to_string())));
    assert_eq!(parse(r"'a\\'"), Ok(Expression::String("a\\".to_string())));
    assert_eq!(parse(r"'a\nb'"), Ok(Expression::String("a\\nb".to_string())));
    assert_eq!(parse(r#"'a"b'"#), Ok(Expression::String("a\"b".to_string())));
    assert_eq!(parse(r#""a\'b""#), Ok(Expression::String("a\\'b".to_string())));
    assert_eq!(parse("''"), Ok(Expression::String(String::new())));
    assert_eq!(
        parse(r"'a\'"),
        Err(ParseError::LexicalError { offset: 0, detail: LexicalDetail::UnterminatedString })
    );
    assert_eq!(
        parse("1 + \"abc"),
        Err(ParseError::LexicalError { offset: 4, detail: LexicalDetail::UnterminatedString })
    );
}

#[test]
fn tokens_carry_their_byte_offsets() {
    let tokens = tokenize("a <= 'h\u{e9}' ");
    assert_eq!(
        tokens,
        vec![
            Token { kind: TokenKind::Identifier("a".to_string()), offset: 0, end: 1 },
            Token { kind: TokenKind::Operator(Symbol::LessEqual), offset: 2, end: 4 },
            Token { kind: TokenKind::String("h\u{e9}".to_string()), offset: 5, end: 10 },
            Token { kind: TokenKind::EndOfInput, offset: 11, end: 11 },
        ]
    );
}

#[test]
fn the_longer_symbol_wins() {
    let kinds: Vec<TokenKind> = tokenize("<=< >=> ==!=! &&|||").into_iter().map(|t| t.kind).collect();
    assert_eq!(
        kinds,
        vec![
            TokenKind::Operator(Symbol::LessEqual),
            TokenKind::Operator(Symbol::Less),
            TokenKind::Operator(Symbol::GreaterEqual),
            TokenKind::Operator(Symbol::Greater),
            TokenKind::Operator(Symbol::EqualEqual),
            TokenKind::Operator(Symbol::NotEqual),
            TokenKind::Operator(Symbol::Bang),
            TokenKind::Operator(Symbol::AndAnd),
            TokenKind::Operator(Symbol::OrOr),
            TokenKind::Operator(Symbol::Pipe),
            TokenKind::EndOfInput,
        ]
    );
}

#[test]
fn every_single_symbol_is_a_token() {
    let kinds: Vec<TokenKind> = tokenize("+-*/%.[](),{}:").into_iter().map(|t| t.kind).collect();
    let symbols = [
        Symbol::Plus,
        Symbol::Minus,
        Symbol::Star,
        Symbol::Slash,
        Symbol::Percent,
        Symbol::Dot,
        Symbol::LeftBracket,
        Symbol::RightBracket,
        Symbol::LeftParen,
        Symbol::RightParen,
        Symbol::Comma,
        Symbol::LeftBrace,
        Symbol::RightBrace,
        Symbol::Colon,
    ];
    let mut expected: Vec<TokenKind> = symbols.iter().map(|s| TokenKind::Operator(*s)).collect();
    expected.push(TokenKind::EndOfInput);
    assert_eq!(kinds, expected);
}

#[test]
fn the_lexer_stops_at_the_first_invalid_text() {
    let tokens = tokenize("a ? b");
    assert_eq!(tokens.len(), 2);
    assert_eq!(
        tokens[1],
        Token {
            kind: TokenKind::Invalid(LexicalDetail::UnrecognizedCharacter('?')),
            offset: 2,
            end: 3
        }
    );
}
