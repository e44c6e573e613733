use jexl_parser::ast::Expression;
use jexl_parser::decimal::Decimal;
use jexl_parser::Parser;

fn parsed_number(text: &str) -> Decimal {
    match Parser::new().parse(text) {
        Ok(Expression::Number(value)) => value,
        other => panic!("{:?} is no number: {:?}", text, other),
    }
}

#[test]
fn whole_numbers_keep_their_value() {
    assert_eq!(parsed_number("0"), Decimal::from_u64(0));
    assert_eq!(parsed_number("7"), Decimal::from_u64(7));
    assert_eq!(parsed_number("123456"), Decimal::from_u64(123_456));
    assert_eq!(parsed_number("18446744073709551615"), Decimal::from_u64(u64::MAX));
}

#[test]
fn digits_and_scale_of_a_fraction() {
    let pi = parsed_number("3.14");
    assert_eq!(pi.digits(), &vec![3u8, 1, 4]);
    assert_eq!(pi.scale(), 2);
    let small = parsed_number("0.05");
    assert_eq!(small.digits(), &vec![5u8]);
    assert_eq!(small.scale(), 2);
}

#[test]
fn zeros_that_change_no_value_are_dropped() {
    assert_eq!(parsed_number("007"), Decimal::from_u64(7));
    assert_eq!(parsed_number("1.0"), Decimal::from_u64(1));
    assert_eq!(parsed_number("1.500"), parsed_number("1.5"));
    assert_eq!(parsed_number("0.0"), Decimal::from_u64(0));
    assert_eq!(parsed_number("000"), Decimal::from_u64(0));
    assert_eq!(parsed_number("10.010"), parsed_number("10.01"));
    let ten = parsed_number("10");
    assert_eq!(ten.digits(), &vec![1u8, 0]);
    assert_eq!(ten.scale(), 0);
    assert!(Decimal::from_u64(0).digits().is_empty());
}

#[test]
fn numbers_longer_than_a_machine_word_are_exact() {
    let big = parsed_number("123456789012345678901234567890.5");
    assert_eq!(big.digits().len(), 31);
    assert_eq!(big.scale(), 1);
    assert_eq!(big.digits()[30], 5);
    assert_eq!(big.digits()[0], 1);
}

#[test]
fn different_values_are_different() {
    assert_ne!(parsed_number("1.5"), parsed_number("15"));
    assert_ne!(parsed_number("0.1"), parsed_number("0.01"));
    assert_ne!(parsed_number("10"), parsed_number("1"));
}

#[test]
fn a_point_without_digits_after_it_is_no_part_of_the_number() {
    let parser = Parser::new();
    assert_eq!(
        parser.parse("1.a"),
        Ok(Expression::DotOperation {
            subject: Box::new(Expression::Number(Decimal::from_u64(1))),
            ident: "a".to_string()
        })
    );
    assert!(parser.parse("1.").is_err());
    assert!(parser.parse(".5").is_err());
}

#[test]
fn a_copy_equals_the_number_it_was_made_from() {
    let value = parsed_number("12.75");
    assert_eq!(value.duplicate(), value);
}

#[test]
fn a_number_made_of_mantissa_and_scale() {
    assert_eq!(parsed_number("1.5"), Decimal::new(15, 1));
    assert_eq!(parsed_number("1.50"), Decimal::new(150, 2));
    assert_eq!(parsed_number("0.05"), Decimal::new(5, 2));
    assert_eq!(Decimal::new(1200, 2), Decimal::from_u64(12));
    assert_eq!(Decimal::new(0, 7), Decimal::from_u64(0));
    assert_eq!(Decimal::new(120, 0), Decimal::from_u64(120));
    assert_eq!(Decimal::new(7, 3).digits(), &vec![7u8]);
    assert_eq!(Decimal::new(7, 3).scale(), 3);
}
