//! Number literals: a text that is one number literal parses to that number,
//! with its exact decimal value.

use vstd::prelude::*;
use crate::ast::Ast;
use crate::decimal::{
    all_digits, digit_of, lemma_numeral_value_push, lemma_pow10_add, lemma_trim_zeros,
    literal_decimal, numeral_value, pow10, trim_zeros,
};
use crate::error::ParseError;
use crate::grammar::{
    binary, binary_rest, expression, lemma_primary_advances, lexeme_at, operator_at,
    parse_lexemes, postfix, postfix_rest, prefix_at, primary, suffix, unary, Stuck,
};
use crate::lexer::{lex, lex_from, next_scan, number_at, placed, Scan};
use crate::parser::parse_text;
use crate::text::{is_digit, lemma_run_end_is, CharClass};
use crate::token::{lexemes, Lexeme};

verus! {

/// The text of a number literal: the digits `whole`, and, where `fraction`
/// holds any, a point and the digits `fraction`.
pub open spec fn literal_text(whole: Seq<char>, fraction: Seq<char>) -> Seq<char> {
    if fraction.len() == 0 {
        whole
    } else {
        whole + seq!['.'] + fraction
    }
}

/// The zeros at the end of `s` multiply the number by ten each.
proof fn lemma_trimmed_value(before: Seq<char>, s: Seq<char>)
    ensures
        trim_zeros(s).len() <= s.len(),
        numeral_value(before + s) == numeral_value(before + trim_zeros(s)) * pow10(
            (s.len() - trim_zeros(s).len()) as nat,
        ),
    decreases s.len(),
{
    lemma_trim_zeros(s);
    if s.len() > 0 && s.last() == '0' {
        let shorter = s.drop_last();
        lemma_trimmed_value(before, shorter);
        lemma_trim_zeros(shorter);
        assert(before + s =~= (before + shorter).push('0'));
        lemma_numeral_value_push(before + shorter, '0');
        let kept = numeral_value(before + trim_zeros(s));
        let tens = pow10((shorter.len() - trim_zeros(s).len()) as nat);
        assert(pow10((s.len() - trim_zeros(s).len()) as nat) == 10 * tens);
        assert((kept * tens) * 10 == kept * (10 * tens)) by (nonlinear_arith);
    } else {
        assert(numeral_value(before + s) * 1 == numeral_value(before + s));
    }
}

/// Where a primary ends at the end of the input, it is the whole expression.
proof fn lemma_lone_primary(t: Seq<Lexeme>, pos: int, level: int)
    requires
        primary(t, pos) is Ok,
        lexeme_at(t, primary(t, pos)->Ok_0.1) is EndOfInput,
        1 <= level <= 7,
    ensures
        binary(t, pos, level) == primary(t, pos),
    decreases 7 - level,
{
    lemma_primary_advances(t, pos);
    let (node, p) = primary(t, pos)->Ok_0;
    assert(suffix(t, p, node) == Ok::<Option<(Ast, int)>, Stuck>(None));
    assert(postfix_rest(t, p, node) == Ok::<(Ast, int), Stuck>((node, p)));
    assert(postfix(t, pos) == primary(t, pos));
    assert(prefix_at(t, pos) is None);
    assert(unary(t, pos) == primary(t, pos));
    if level <= 6 {
        lemma_lone_primary(t, pos, level + 1);
        assert(operator_at(t, p, level) is None);
        assert(binary_rest(t, p, level, node) == Ok::<(Ast, int), Stuck>((node, p)));
    }
}

/// A text that is one number literal is an expression, the number that the
/// literal writes: its mantissa over ten to its scale is what the digits of
/// the literal are over ten to the number of digits after the point, and no
/// lower scale could hold it.
pub proof fn lemma_number_literal(whole: Seq<char>, fraction: Seq<char>)
    requires
        whole.len() > 0,
        all_digits(whole),
        all_digits(fraction),
    ensures
        parse_text(literal_text(whole, fraction)) == Ok::<Ast, ParseError>(
            Ast::Number(literal_decimal(whole, fraction)),
        ),
        literal_decimal(whole, fraction).mantissa * pow10(fraction.len()) == numeral_value(
            whole + fraction,
        ) * pow10(literal_decimal(whole, fraction).scale),
        literal_decimal(whole, fraction).scale <= fraction.len(),
        literal_decimal(whole, fraction).scale > 0 ==> literal_decimal(whole, fraction).mantissa
            % 10 != 0,
{
    lemma_literal_lexemes(whole, fraction);
    let value = literal_decimal(whole, fraction);
    let t = lexemes(lex(literal_text(whole, fraction)));
    assert(t =~= seq![Lexeme::Number(value), Lexeme::EndOfInput]);
    assert(primary(t, 0) == Ok::<(Ast, int), Stuck>((Ast::Number(value), 1int)));
    lemma_lone_primary(t, 0, 1);
    assert(expression(t, 0) == primary(t, 0));
    assert(parse_lexemes(t) == Ok::<Ast, Stuck>(Ast::Number(value)));
    lemma_literal_value(whole, fraction);
}

proof fn lemma_literal_value(whole: Seq<char>, fraction: Seq<char>)
    requires
        all_digits(fraction),
    ensures
        literal_decimal(whole, fraction).mantissa * pow10(fraction.len()) == numeral_value(
            whole + fraction,
        ) * pow10(literal_decimal(whole, fraction).scale),
        literal_decimal(whole, fraction).scale <= fraction.len(),
        literal_decimal(whole, fraction).scale > 0 ==> literal_decimal(whole, fraction).mantissa
            % 10 != 0,
{
    let kept = trim_zeros(fraction);
    lemma_trim_zeros(fraction);
    lemma_trimmed_value(whole, fraction);
    let mantissa = numeral_value(whole + kept);
    let dropped = (fraction.len() - kept.len()) as nat;
    lemma_pow10_add(dropped, kept.len());
    assert(mantissa * (pow10(dropped) * pow10(kept.len())) == (mantissa * pow10(dropped)) * pow10(
        kept.len(),
    )) by (nonlinear_arith);
    if kept.len() > 0 {
        let last = kept.last();
        assert(last == fraction[kept.len() - 1]);
        assert(is_digit(last));
        assert(whole + kept =~= (whole + kept.drop_last()).push(last));
        lemma_numeral_value_push(whole + kept.drop_last(), last);
        assert(1 <= digit_of(last) <= 9);
    }
}

/// The lexemes of a number literal: the number, and the end of the input.
proof fn lemma_literal_lexemes(whole: Seq<char>, fraction: Seq<char>)
    requires
        whole.len() > 0,
        all_digits(whole),
        all_digits(fraction),
    ensures
        lexemes(lex(literal_text(whole, fraction))) == seq![
            Lexeme::Number(literal_decimal(whole, fraction)),
            Lexeme::EndOfInput,
        ],
{
    let s = literal_text(whole, fraction);
    let w = whole.len() as int;
    let n = s.len() as int;
    assert(is_digit(whole[0]));
    assert(s[0] == whole[0]);
    lemma_run_end_is(s, 0, 0, CharClass::Blank);
    assert forall|i: int| 0 <= i < w implies is_digit(#[trigger] s[i]) by {
        assert(s[i] == whole[i]);
    }
    lemma_run_end_is(s, 0, w, CharClass::Digit);
    assert(s.subrange(0, w) =~= whole);
    if fraction.len() > 0 {
        assert(s[w] == '.');
        assert(s[w + 1] == fraction[0]);
        assert forall|i: int| w + 1 <= i < n implies is_digit(#[trigger] s[i]) by {
            assert(s[i] == fraction[i - w - 1]);
        }
        lemma_run_end_is(s, w + 1, n, CharClass::Digit);
        assert(s.subrange(w + 1, n) =~= fraction);
    } else {
        assert(fraction =~= Seq::<char>::empty());
    }
    let first = Scan { lexeme: Lexeme::Number(literal_decimal(whole, fraction)), start: 0, end: n };
    assert(number_at(s, 0) == first);
    assert(next_scan(s, 0) == first);
    lemma_run_end_is(s, n, n, CharClass::Blank);
    let last = Scan { lexeme: Lexeme::EndOfInput, start: n, end: n };
    assert(next_scan(s, n) == last);
    assert(lex_from(s, n) == seq![placed(s, last)]);
    assert(lex_from(s, 0) == seq![placed(s, first)] + lex_from(s, n));
    assert(lexemes(lex(s)) =~= seq![
        Lexeme::Number(literal_decimal(whole, fraction)),
        Lexeme::EndOfInput,
    ]);
}

} // verus!
