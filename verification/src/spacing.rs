//! Blanks between tokens mean nothing: a text with one more blank at a place
//! where no token is cut in two has the same lexemes, and so the same tree.

use vstd::prelude::*;
use crate::grammar::parse_lexemes;
use crate::lexer::{
    is_last, lemma_next_scan, lemma_quoted_end, lex, lex_from, next_scan, number_at, placed,
    quoted, scan_at, symbol_at, Scan,
};
use crate::parser::parse_text;
use crate::text::{
    in_class, is_blank, is_digit, is_word_start, lemma_run_end, lemma_run_end_is, run_end,
    CharClass,
};
use crate::token::{lexemes, Lexeme, LexicalDetail, TokenView};

verus! {

/// The text `s` with the character `c` put in at the position `p`.
pub open spec fn with_blank(s: Seq<char>, p: int, c: char) -> Seq<char> {
    s.subrange(0, p).push(c) + s.subrange(p, s.len() as int)
}

/// Whether `b` holds a blank at `p` and before it what `a` holds there.
pub open spec fn same_before(a: Seq<char>, b: Seq<char>, p: int) -> bool {
    &&& 0 <= p <= a.len()
    &&& p < b.len()
    &&& is_blank(b[p])
    &&& forall|i: int| 0 <= i < p ==> #[trigger] a[i] == b[i]
}

/// Whether `b` holds from `p + 1` on what `a` holds from `p` on.
pub open spec fn shifted_after(a: Seq<char>, b: Seq<char>, p: int) -> bool {
    &&& 0 <= p <= a.len()
    &&& b.len() == a.len() + 1
    &&& forall|i: int| p <= i < a.len() ==> #[trigger] a[i] == b[i + 1]
}

/// A scan one position further on.
pub open spec fn moved(scan: Scan) -> Scan {
    Scan { lexeme: scan.lexeme, start: scan.start + 1, end: scan.end + 1 }
}

proof fn lemma_run_same(a: Seq<char>, b: Seq<char>, p: int, from: int, class: CharClass)
    requires
        same_before(a, b, p),
        0 <= from <= p,
        run_end(a, from, class) <= p,
        run_end(a, from, class) == p ==> !in_class(class, b[p]),
    ensures
        run_end(b, from, class) == run_end(a, from, class),
{
    lemma_run_end(a, from, class);
    let end = run_end(a, from, class);
    assert forall|i: int| from <= i < end implies in_class(class, #[trigger] b[i]) by {
        assert(a[i] == b[i]);
    }
    if end < p {
        assert(a[end] == b[end]);
    }
    lemma_run_end_is(b, from, end, class);
}

proof fn lemma_run_moved(a: Seq<char>, b: Seq<char>, p: int, from: int, class: CharClass)
    requires
        shifted_after(a, b, p),
        p <= from <= a.len(),
    ensures
        run_end(b, from + 1, class) == run_end(a, from, class) + 1,
{
    lemma_run_end(a, from, class);
    let end = run_end(a, from, class);
    assert forall|i: int| from + 1 <= i < end + 1 implies in_class(class, #[trigger] b[i]) by {
        assert(a[i - 1] == b[i - 1 + 1]);
    }
    if end < a.len() {
        assert(a[end] == b[end + 1]);
    }
    lemma_run_end_is(b, from + 1, end + 1, class);
}

proof fn lemma_quoted_same(
    a: Seq<char>,
    b: Seq<char>,
    p: int,
    from: int,
    quote: char,
    text: Seq<char>,
)
    requires
        same_before(a, b, p),
        0 <= from <= a.len(),
        quote != '\\',
        match quoted(a, from, quote, text) {
            Some((_, end)) => end <= p,
            None => false,
        },
    ensures
        quoted(b, from, quote, text) == quoted(a, from, quote, text),
    decreases a.len() - from,
{
    lemma_quoted_end(a, from, quote, text);
    assert(from < p);
    assert(a[from] == b[from]);
    if a[from] == quote {
    } else if a[from] == '\\' && from + 1 < a.len() && (a[from + 1] == quote || a[from + 1]
        == '\\') {
        lemma_quoted_end(a, from + 2, quote, text.push(a[from + 1]));
        assert(a[from + 1] == b[from + 1]);
        lemma_quoted_same(a, b, p, from + 2, quote, text.push(a[from + 1]));
    } else {
        lemma_quoted_end(a, from + 1, quote, text.push(a[from]));
        assert(a[from + 1] == b[from + 1]);
        lemma_quoted_same(a, b, p, from + 1, quote, text.push(a[from]));
    }
}

proof fn lemma_quoted_moved(
    a: Seq<char>,
    b: Seq<char>,
    p: int,
    from: int,
    quote: char,
    text: Seq<char>,
)
    requires
        shifted_after(a, b, p),
        p <= from <= a.len(),
    ensures
        quoted(b, from + 1, quote, text) == match quoted(a, from, quote, text) {
            Some((found, end)) => Some((found, end + 1)),
            None => None,
        },
    decreases a.len() - from,
{
    if from >= a.len() {
    } else {
        assert(a[from] == b[from + 1]);
        if from + 1 < a.len() {
            assert(a[from + 1] == b[from + 1 + 1]);
        }
        if a[from] == quote {
        } else if a[from] == '\\' && from + 1 < a.len() && (a[from + 1] == quote || a[from + 1]
            == '\\') {
            lemma_quoted_moved(a, b, p, from + 2, quote, text.push(a[from + 1]));
        } else {
            lemma_quoted_moved(a, b, p, from + 1, quote, text.push(a[from]));
        }
    }
}

proof fn lemma_symbol_same(a: Seq<char>, b: Seq<char>, p: int, q: int)
    requires
        same_before(a, b, p),
        0 <= q < p,
        match symbol_at(a, q) {
            Some((_, width)) => q + width <= p,
            None => true,
        },
    ensures
        symbol_at(b, q) == symbol_at(a, q),
{
    assert(a[q] == b[q]);
    if q + 1 < p {
        assert(a[q + 1] == b[q + 1]);
    }
}

proof fn lemma_symbol_moved(a: Seq<char>, b: Seq<char>, p: int, q: int)
    requires
        shifted_after(a, b, p),
        p <= q < a.len(),
    ensures
        symbol_at(b, q + 1) == symbol_at(a, q),
{
    assert(a[q] == b[q + 1]);
    if q + 1 < a.len() {
        assert(a[q + 1] == b[q + 1 + 1]);
    }
}

proof fn lemma_number_same(a: Seq<char>, b: Seq<char>, p: int, q: int)
    requires
        same_before(a, b, p),
        0 <= q < p,
        is_digit(a[q]),
        number_at(a, q).end <= p,
    ensures
        number_at(b, q) == number_at(a, q),
{
    lemma_run_end(a, q, CharClass::Digit);
    let dot = run_end(a, q, CharClass::Digit);
    if dot + 1 < a.len() {
        lemma_run_end(a, dot + 1, CharClass::Digit);
    }
    lemma_run_same(a, b, p, q, CharClass::Digit);
    assert(b.subrange(q, dot) =~= a.subrange(q, dot)) by {
        assert forall|i: int| q <= i < dot implies b[i] == a[i] by {
            assert(a[i] == b[i]);
        }
    }
    if dot < p {
        assert(a[dot] == b[dot]);
    }
    if dot + 1 < p {
        assert(a[dot + 1] == b[dot + 1]);
    }
    if dot + 1 < a.len() && a[dot] == '.' && is_digit(a[dot + 1]) {
        let end = run_end(a, dot + 1, CharClass::Digit);
        lemma_run_same(a, b, p, dot + 1, CharClass::Digit);
        assert(b.subrange(dot + 1, end) =~= a.subrange(dot + 1, end)) by {
            assert forall|i: int| dot + 1 <= i < end implies b[i] == a[i] by {
                assert(a[i] == b[i]);
            }
        }
    }
}

proof fn lemma_number_moved(a: Seq<char>, b: Seq<char>, p: int, q: int)
    requires
        shifted_after(a, b, p),
        p <= q < a.len(),
    ensures
        number_at(b, q + 1) == moved(number_at(a, q)),
{
    lemma_run_end(a, q, CharClass::Digit);
    let dot = run_end(a, q, CharClass::Digit);
    lemma_run_moved(a, b, p, q, CharClass::Digit);
    assert(b.subrange(q + 1, dot + 1) =~= a.subrange(q, dot)) by {
        assert forall|i: int| q <= i < dot implies b[i + 1] == a[i] by {
            assert(a[i] == b[i + 1]);
        }
    }
    if dot < a.len() {
        assert(a[dot] == b[dot + 1]);
    }
    if dot + 1 < a.len() {
        assert(a[dot + 1] == b[dot + 1 + 1]);
        lemma_run_end(a, dot + 1, CharClass::Digit);
        let end = run_end(a, dot + 1, CharClass::Digit);
        lemma_run_moved(a, b, p, dot + 1, CharClass::Digit);
        assert(b.subrange(dot + 1 + 1, end + 1) =~= a.subrange(dot + 1, end)) by {
            assert forall|i: int| dot + 1 <= i < end implies b[i + 1] == a[i] by {
                assert(a[i] == b[i + 1]);
            }
        }
    }
}

proof fn lemma_scan_same(a: Seq<char>, b: Seq<char>, p: int, q: int)
    requires
        same_before(a, b, p),
        0 <= q < p,
        scan_at(a, q).end <= p,
        scan_at(a, q).lexeme != Lexeme::Invalid(LexicalDetail::UnterminatedString),
    ensures
        scan_at(b, q) == scan_at(a, q),
{
    let c = a[q];
    assert(a[q] == b[q]);
    if is_digit(c) {
        lemma_number_same(a, b, p, q);
    } else if is_word_start(c) {
        lemma_run_end(a, q, CharClass::Word);
        let end = run_end(a, q, CharClass::Word);
        lemma_run_same(a, b, p, q, CharClass::Word);
        assert(b.subrange(q, end) =~= a.subrange(q, end)) by {
            assert forall|i: int| q <= i < end implies b[i] == a[i] by {
                assert(a[i] == b[i]);
            }
        }
    } else if c == '\'' || c == '"' {
        lemma_quoted_same(a, b, p, q + 1, c, Seq::empty());
    } else {
        lemma_symbol_same(a, b, p, q);
    }
}

proof fn lemma_scan_moved(a: Seq<char>, b: Seq<char>, p: int, q: int)
    requires
        shifted_after(a, b, p),
        p <= q < a.len(),
    ensures
        scan_at(b, q + 1) == moved(scan_at(a, q)),
{
    let c = a[q];
    assert(a[q] == b[q + 1]);
    if is_digit(c) {
        lemma_number_moved(a, b, p, q);
    } else if is_word_start(c) {
        lemma_run_end(a, q, CharClass::Word);
        let end = run_end(a, q, CharClass::Word);
        lemma_run_moved(a, b, p, q, CharClass::Word);
        assert(b.subrange(q + 1, end + 1) =~= a.subrange(q, end)) by {
            assert forall|i: int| q <= i < end implies b[i + 1] == a[i] by {
                assert(a[i] == b[i + 1]);
            }
        }
    } else if c == '\'' || c == '"' {
        lemma_quoted_moved(a, b, p, q + 1, c, Seq::empty());
    } else {
        lemma_symbol_moved(a, b, p, q);
    }
}

/// A token that ends at `p` or before it is the same in both texts.
proof fn lemma_next_same(a: Seq<char>, b: Seq<char>, p: int, from: int)
    requires
        same_before(a, b, p),
        0 <= from <= p,
        next_scan(a, from).start < p,
        next_scan(a, from).end <= p,
        next_scan(a, from).lexeme != Lexeme::Invalid(LexicalDetail::UnterminatedString),
    ensures
        next_scan(b, from) == next_scan(a, from),
{
    lemma_next_scan(a, from);
    lemma_run_same(a, b, p, from, CharClass::Blank);
    lemma_scan_same(a, b, p, run_end(a, from, CharClass::Blank));
}

/// A token that starts at `p` or after it stands one position further on in
/// the second text.
proof fn lemma_next_moved(a: Seq<char>, b: Seq<char>, p: int, from: int)
    requires
        shifted_after(a, b, p),
        p <= from <= a.len(),
    ensures
        next_scan(b, from + 1) == moved(next_scan(a, from)),
{
    lemma_next_scan(a, from);
    lemma_run_moved(a, b, p, from, CharClass::Blank);
    let start = run_end(a, from, CharClass::Blank);
    if start < a.len() {
        lemma_scan_moved(a, b, p, start);
    }
}

/// Blanks that hold `p` or end there are one more in the second text, and
/// the token after them stands one position further on.
proof fn lemma_next_across(a: Seq<char>, b: Seq<char>, p: int, from: int)
    requires
        same_before(a, b, p),
        shifted_after(a, b, p),
        0 <= from <= p <= next_scan(a, from).start,
    ensures
        next_scan(b, from) == moved(next_scan(a, from)),
{
    lemma_next_scan(a, from);
    lemma_run_end(a, from, CharClass::Blank);
    let start = run_end(a, from, CharClass::Blank);
    assert forall|i: int| from <= i < start + 1 implies in_class(
        CharClass::Blank,
        #[trigger] b[i],
    ) by {
        if i < p {
            assert(a[i] == b[i]);
        } else if i > p {
            assert(a[i - 1] == b[i - 1 + 1]);
        }
    }
    if start < a.len() {
        assert(a[start] == b[start + 1]);
        lemma_scan_moved(a, b, p, start);
    }
    lemma_run_end_is(b, from, start + 1, CharClass::Blank);
}

proof fn lemma_lexemes_cons(first: TokenView, rest: Seq<TokenView>)
    ensures
        lexemes(seq![first] + rest) == seq![first.lexeme] + lexemes(rest),
        lexemes(seq![first]) == seq![first.lexeme],
{
    assert(lexemes(seq![first] + rest) =~= seq![first.lexeme] + lexemes(rest));
    assert(lexemes(seq![first]) =~= seq![first.lexeme]);
}

/// From `p` on the second text has the lexemes of the first.
proof fn lemma_lex_moved(a: Seq<char>, b: Seq<char>, p: int, from: int)
    requires
        shifted_after(a, b, p),
        p <= from <= a.len(),
    ensures
        lexemes(lex_from(b, from + 1)) == lexemes(lex_from(a, from)),
    decreases a.len() - from,
{
    lemma_next_scan(a, from);
    lemma_next_moved(a, b, p, from);
    let scan = next_scan(a, from);
    let other = next_scan(b, from + 1);
    if is_last(scan.lexeme) {
        lemma_lexemes_cons(placed(a, scan), Seq::empty());
        lemma_lexemes_cons(placed(b, other), Seq::empty());
    } else {
        lemma_lex_moved(a, b, p, scan.end);
        lemma_lexemes_cons(placed(a, scan), lex_from(a, scan.end));
        lemma_lexemes_cons(placed(b, other), lex_from(b, other.end));
    }
}

/// Whether `p`, at `from` or after it, cuts none of the tokens that the
/// lexer finds from `from` on: it stands among the blanks before a token, at
/// the start of one or at the end of one. Every position after the opening
/// quote of a string that is not closed is inside that string.
pub open spec fn between_tokens_from(s: Seq<char>, from: int, p: int) -> bool
    decreases s.len() - from,
    when 0 <= from <= s.len()
    via between_tokens_decreases
{
    let scan = next_scan(s, from);
    if p <= scan.start {
        from <= p
    } else if p < scan.end || scan.lexeme == Lexeme::Invalid(LexicalDetail::UnterminatedString) {
        false
    } else if is_last(scan.lexeme) {
        true
    } else {
        between_tokens_from(s, scan.end, p)
    }
}

#[via_fn]
proof fn between_tokens_decreases(s: Seq<char>, from: int, p: int) {
    lemma_next_scan(s, from);
}

/// Whether the position `p` of the text `s` cuts no token.
pub open spec fn between_tokens(s: Seq<char>, p: int) -> bool {
    0 <= p <= s.len() && between_tokens_from(s, 0, p)
}

proof fn lemma_lex_same(a: Seq<char>, b: Seq<char>, p: int, from: int)
    requires
        same_before(a, b, p),
        shifted_after(a, b, p),
        0 <= from <= p,
        between_tokens_from(a, from, p),
    ensures
        lexemes(lex_from(b, from)) == lexemes(lex_from(a, from)),
    decreases a.len() - from,
{
    lemma_next_scan(a, from);
    let scan = next_scan(a, from);
    if p <= scan.start {
        lemma_next_across(a, b, p, from);
    } else {
        lemma_next_same(a, b, p, from);
    }
    let other = next_scan(b, from);
    if is_last(scan.lexeme) {
        lemma_lexemes_cons(placed(a, scan), Seq::empty());
        lemma_lexemes_cons(placed(b, other), Seq::empty());
    } else {
        if p <= scan.start {
            lemma_lex_moved(a, b, p, scan.end);
        } else {
            lemma_lex_same(a, b, p, scan.end);
        }
        lemma_lexemes_cons(placed(a, scan), lex_from(a, scan.end));
        lemma_lexemes_cons(placed(b, other), lex_from(b, other.end));
    }
}

/// A blank more between two tokens, before the first or after the last
/// changes neither the lexemes of a text nor, where the text is an
/// expression, its tree; and it makes no expression of a text that is none.
pub proof fn lemma_blank_between_tokens(s: Seq<char>, p: int, c: char)
    requires
        is_blank(c),
        between_tokens(s, p),
    ensures
        lexemes(lex(with_blank(s, p, c))) == lexemes(lex(s)),
        parse_lexemes(lexemes(lex(with_blank(s, p, c)))) == parse_lexemes(lexemes(lex(s))),
        parse_text(s) is Ok ==> parse_text(with_blank(s, p, c)) == parse_text(s),
        parse_text(with_blank(s, p, c)) is Ok ==> parse_text(s) is Ok,
{
    let b = with_blank(s, p, c);
    assert(same_before(s, b, p));
    assert(shifted_after(s, b, p));
    lemma_lex_same(s, b, p, 0);
}

} // verus!
