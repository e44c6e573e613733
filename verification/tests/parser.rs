use jexl_parser::ast::{Expression, OpCode};
use jexl_parser::decimal::Decimal;
use jexl_parser::Parser;

fn number(n: u64) -> Expression {
    Expression::Number(Decimal::from_u64(n))
}

#[test]
fn literal() {
    let parser = Parser::new();
    assert_eq!(parser.parse("1"), Ok(number(1)));
}

#[test]
fn binary_expression() {
    let parser = Parser::new();
    assert_eq!(
        parser.parse("1+2"),
        Ok(Expression::BinaryOperation {
            operation: OpCode::Add,
            left: Box::new(number(1)),
            right: Box::new(number(2)),
        }),
    );
}

#[test]
fn binary_expression_whitespace() {
    let parser = Parser::new();
    assert_eq!(parser.parse("1  +     2 "), parser.parse("1+2"),);
}

#[test]
fn transform_simple_no_args() {
    let parser = Parser::new();
    let exp = "'T_T'|lower";
    let parsed = parser.parse(exp).unwrap();
    assert_eq!(
        parsed,
        Expression::Transform {
            name: "lower".to_string(),
            subject: Box::new(Expression::String("T_T".to_string())),
            args: None
        }
    );
}

#[test]
fn transform_multiple_args() {
    let parser = Parser::new();
    let exp = "'John Doe'|split(' ')";
    let parsed = parser.parse(exp).unwrap();
    assert_eq!(
        parsed,
        Expression::Transform {
            name: "split".to_string(),
            subject: Box::new(Expression::String("John Doe".to_string())),
            args: Some(vec![Box::new(Expression::String(" ".to_string()))])
        }
    );
}

#[test]
fn trasform_way_too_many_args() {
    let parser = Parser::new();
    let exp = "123456|math(12, 35, 100, 31, 90)";
    let parsed = parser.parse(exp).unwrap();
    assert_eq!(
        parsed,
        Expression::Transform {
            name: "math".to_string(),
            subject: Box::new(number(123456)),
            args: Some(vec![
                Box::new(number(12)),
                Box::new(number(35)),
                Box::new(number(100)),
                Box::new(number(31)),
                Box::new(number(90)),
            ])
        }
    );
}

#[test]
fn test_index_op_ident() {
    let parser = Parser::new();
    let exp = "foo[0]";
    let parsed = parser.parse(exp).unwrap();
    assert_eq!(
        parsed,
        Expression::IndexOperation {
            subject: Box::new(Expression::Identifier("foo".to_string())),
            index: Box::new(number(0))
        }
    );
}

#[test]
fn test_index_op_array_literal() {
    let parser = Parser::new();
    let exp = "[1, 2, 3][0]";
    let parsed = parser.parse(exp).unwrap();
    assert_eq!(
        parsed,
        Expression::IndexOperation {
            subject: Box::new(Expression::Array(vec![
                Box::new(number(1)),
                Box::new(number(2)),
                Box::new(number(3)),
            ])),
            index: Box::new(number(0))
        }
    );
}

#[test]
fn test_dot_op_ident() {
    let parser = Parser::new();
    let exp = "foo.bar";
    let parsed = parser.parse(exp).unwrap();
    assert_eq!(
        parsed,
        Expression::DotOperation {
            subject: Box::new(Expression::Identifier("foo".to_string())),
            ident: "bar".to_string()
        }
    );
}

#[test]
fn test_dot_op_equality_with_null() {
    let parser = Parser::new();
    let exp = "foo.bar == null";
    let parsed = parser.parse(exp).unwrap();
    assert_eq!(
        parsed,
        Expression::BinaryOperation {
            operation: OpCode::Equal,
            left: Box::new(Expression::DotOperation {
                subject: Box::new(Expression::Identifier("foo".to_string())),
                ident: "bar".to_string()
            }),
            right: Box::new(Expression::Null),
        }
    );
}

#[test]
fn test_dot_op_object_literal() {
    let parser = Parser::new();
    let exp = "{'foo': 1}.foo";
    let parsed = parser.parse(exp).unwrap();
    assert_eq!(
        parsed,
        Expression::DotOperation {
            subject: Box::new(Expression::Object(vec![(
                "foo".to_string(),
                Box::new(number(1))
            )])),
            ident: "foo".to_string()
        }
    );
}

#[test]
fn test_parsing_null() {
    let parser = Parser::new();
    assert_eq!(parser.parse("null"), Ok(Expression::Null));
}
