//! The lexer: from text to tokens.
//!
//! Blanks (space, tab, line feed, carriage return) separate tokens and mean
//! nothing else. A number is a run of digits, followed or not by a point and
//! another run of digits. A string stands between two `'` or two `"`; inside
//! it a backslash before the delimiter or before another backslash stands for
//! that character, and any other backslash for itself. A word is a letter or
//! an underscore followed by letters, digits and underscores; `true`, `false`
//! and `null` are reserved. Of two symbols that start alike the longer wins.

use vstd::prelude::*;
use crate::decimal::{all_digits, literal_decimal, Decimal};
use crate::text::{
    byte_len, byte_offset, chars_of, digit, is_digit, is_word_start,
    lemma_byte_len_is_encoded_len, lemma_byte_offset_monotonic, lemma_byte_offset_step,
    lemma_run_end, run_end, scan_run, width_of, word_start, CharClass,
};
use crate::token::{
    canonical_tokens, token_views, Keyword, Lexeme, LexicalDetail, Symbol, Token, TokenKind,
    TokenView,
};

verus! {

/// `String::push` appends the character to the end of the string.
pub assume_specification[ std::string::String::push ](s: &mut std::string::String, c: char)
    ensures
        final(s)@ == old(s)@.push(c),
;

/// One token as the lexer finds it: what it says, and the character
/// positions between which it stands.
pub struct Scan {
    pub lexeme: Lexeme,
    pub start: int,
    pub end: int,
}

/// The rest of a string literal. `from` is a position inside the literal,
/// `text` what the characters before it have given. The result is the whole
/// text and the position after the closing quote, or `None` where the quote
/// is missing.
pub open spec fn quoted(s: Seq<char>, from: int, quote: char, text: Seq<char>) -> Option<
    (Seq<char>, int),
>
    decreases s.len() - from,
{
    if from < 0 || from >= s.len() {
        None
    } else if s[from] == quote {
        Some((text, from + 1))
    } else if s[from] == '\\' && from + 1 < s.len() && (s[from + 1] == quote || s[from + 1]
        == '\\') {
        quoted(s, from + 2, quote, text.push(s[from + 1]))
    } else {
        quoted(s, from + 1, quote, text.push(s[from]))
    }
}

/// The symbol that starts at `p`, with the number of characters it takes.
pub open spec fn symbol_at(s: Seq<char>, p: int) -> Option<(Symbol, int)>
    recommends
        0 <= p < s.len(),
{
    let c = s[p];
    let followed_by = |d: char| p + 1 < s.len() && s[p + 1] == d;
    if c == '=' {
        if followed_by('=') {
            Some((Symbol::EqualEqual, 2))
        } else {
            None
        }
    } else if c == '!' {
        if followed_by('=') {
            Some((Symbol::NotEqual, 2))
        } else {
            Some((Symbol::Bang, 1))
        }
    } else if c == '<' {
        if followed_by('=') {
            Some((Symbol::LessEqual, 2))
        } else {
            Some((Symbol::Less, 1))
        }
    } else if c == '>' {
        if followed_by('=') {
            Some((Symbol::GreaterEqual, 2))
        } else {
            Some((Symbol::Greater, 1))
        }
    } else if c == '&' {
        if followed_by('&') {
            Some((Symbol::AndAnd, 2))
        } else {
            None
        }
    } else if c == '|' {
        if followed_by('|') {
            Some((Symbol::OrOr, 2))
        } else {
            Some((Symbol::Pipe, 1))
        }
    } else {
        match single_symbol(c) {
            Some(symbol) => Some((symbol, 1)),
            None => None,
        }
    }
}

/// The symbol that `c` writes by itself, among those that start no longer one.
pub open spec fn single_symbol(c: char) -> Option<Symbol> {
    if c == '+' {
        Some(Symbol::Plus)
    } else if c == '-' {
        Some(Symbol::Minus)
    } else if c == '*' {
        Some(Symbol::Star)
    } else if c == '/' {
        Some(Symbol::Slash)
    } else if c == '%' {
        Some(Symbol::Percent)
    } else if c == '.' {
        Some(Symbol::Dot)
    } else if c == '[' {
        Some(Symbol::LeftBracket)
    } else if c == ']' {
        Some(Symbol::RightBracket)
    } else if c == '(' {
        Some(Symbol::LeftParen)
    } else if c == ')' {
        Some(Symbol::RightParen)
    } else if c == ',' {
        Some(Symbol::Comma)
    } else if c == '{' {
        Some(Symbol::LeftBrace)
    } else if c == '}' {
        Some(Symbol::RightBrace)
    } else if c == ':' {
        Some(Symbol::Colon)
    } else {
        None
    }
}

/// What a word says: a keyword if it is reserved, else an identifier.
pub open spec fn word_lexeme(word: Seq<char>) -> Lexeme {
    if word == seq!['t', 'r', 'u', 'e'] {
        Lexeme::Keyword(Keyword::True)
    } else if word == seq!['f', 'a', 'l', 's', 'e'] {
        Lexeme::Keyword(Keyword::False)
    } else if word == seq!['n', 'u', 'l', 'l'] {
        Lexeme::Keyword(Keyword::Null)
    } else {
        Lexeme::Identifier(word)
    }
}

/// The number literal that starts at `p`.
pub open spec fn number_at(s: Seq<char>, p: int) -> Scan {
    let dot = run_end(s, p, CharClass::Digit);
    if dot + 1 < s.len() && s[dot] == '.' && is_digit(s[dot + 1]) {
        let end = run_end(s, dot + 1, CharClass::Digit);
        Scan {
            lexeme: Lexeme::Number(literal_decimal(s.subrange(p, dot), s.subrange(dot + 1, end))),
            start: p,
            end,
        }
    } else {
        Scan {
            lexeme: Lexeme::Number(literal_decimal(s.subrange(p, dot), Seq::empty())),
            start: p,
            end: dot,
        }
    }
}

/// The token that starts at `p`, where a character that is no blank stands.
pub open spec fn scan_at(s: Seq<char>, p: int) -> Scan
    recommends
        0 <= p < s.len(),
{
    let c = s[p];
    if is_digit(c) {
        number_at(s, p)
    } else if is_word_start(c) {
        let end = run_end(s, p, CharClass::Word);
        Scan { lexeme: word_lexeme(s.subrange(p, end)), start: p, end }
    } else if c == '\'' || c == '"' {
        match quoted(s, p + 1, c, Seq::empty()) {
            Some((text, end)) => Scan { lexeme: Lexeme::String(text), start: p, end },
            None => Scan {
                lexeme: Lexeme::Invalid(LexicalDetail::UnterminatedString),
                start: p,
                end: s.len() as int,
            },
        }
    } else {
        match symbol_at(s, p) {
            Some((symbol, width)) => Scan {
                lexeme: Lexeme::Operator(symbol),
                start: p,
                end: p + width,
            },
            None => Scan {
                lexeme: Lexeme::Invalid(LexicalDetail::UnrecognizedCharacter(c)),
                start: p,
                end: p + 1,
            },
        }
    }
}

/// The first token from the position `from` on, after the blanks there.
pub open spec fn next_scan(s: Seq<char>, from: int) -> Scan {
    let p = run_end(s, from, CharClass::Blank);
    if 0 <= p < s.len() {
        scan_at(s, p)
    } else {
        Scan { lexeme: Lexeme::EndOfInput, start: p, end: p }
    }
}

/// Whether the lexer stops at this lexeme.
pub open spec fn is_last(lexeme: Lexeme) -> bool {
    lexeme is EndOfInput || lexeme is Invalid
}

/// A scan with its places as byte offsets.
pub open spec fn placed(s: Seq<char>, scan: Scan) -> TokenView {
    TokenView {
        lexeme: scan.lexeme,
        offset: byte_offset(s, scan.start),
        end: byte_offset(s, scan.end),
    }
}

/// The tokens of `s` from the position `from` on. The last one, and no
/// other, is `EndOfInput` or `Invalid`.
pub open spec fn lex_from(s: Seq<char>, from: int) -> Seq<TokenView>
    decreases s.len() - from,
    when 0 <= from <= s.len()
    via lex_from_decreases
{
    let scan = next_scan(s, from);
    if is_last(scan.lexeme) {
        seq![placed(s, scan)]
    } else {
        seq![placed(s, scan)] + lex_from(s, scan.end)
    }
}

#[via_fn]
proof fn lex_from_decreases(s: Seq<char>, from: int) {
    lemma_next_scan(s, from);
}

/// The tokens of the text `s`.
pub open spec fn lex(s: Seq<char>) -> Seq<TokenView> {
    lex_from(s, 0)
}

/// A string literal that is closed ends after `from` and inside the text.
pub proof fn lemma_quoted_end(s: Seq<char>, from: int, quote: char, text: Seq<char>)
    requires
        0 <= from <= s.len(),
    ensures
        match quoted(s, from, quote, text) {
            Some((_, end)) => from < end <= s.len(),
            None => true,
        },
    decreases s.len() - from,
{
    if from >= s.len() {
    } else if s[from] == quote {
    } else if s[from] == '\\' && from + 1 < s.len() && (s[from + 1] == quote || s[from + 1]
        == '\\') {
        lemma_quoted_end(s, from + 2, quote, text.push(s[from + 1]));
    } else {
        lemma_quoted_end(s, from + 1, quote, text.push(s[from]));
    }
}

/// A token that is not the end of the input takes at least one character and
/// ends inside the text.
pub proof fn lemma_next_scan(s: Seq<char>, from: int)
    requires
        0 <= from <= s.len(),
    ensures
        from <= next_scan(s, from).start <= next_scan(s, from).end <= s.len(),
        next_scan(s, from).start == run_end(s, from, CharClass::Blank),
        !(next_scan(s, from).lexeme is EndOfInput) ==> next_scan(s, from).start < next_scan(
            s,
            from,
        ).end,
{
    lemma_run_end(s, from, CharClass::Blank);
    let p = run_end(s, from, CharClass::Blank);
    if p < s.len() {
        let c = s[p];
        if is_digit(c) {
            lemma_run_end(s, p, CharClass::Digit);
            let dot = run_end(s, p, CharClass::Digit);
            assert(dot > p);
            if dot + 1 < s.len() {
                lemma_run_end(s, dot + 1, CharClass::Digit);
            }
        } else if is_word_start(c) {
            lemma_run_end(s, p, CharClass::Word);
            assert(run_end(s, p, CharClass::Word) > p);
        } else if c == '\'' || c == '"' {
            lemma_quoted_end(s, p + 1, c, Seq::empty());
        } else {
        }
    }
}

/// Of the tokens of a text the last one, and no other, is `EndOfInput` or
/// `Invalid`; each starts where the one before it ended or after that, and
/// none reaches past the end of the text.
pub proof fn lemma_lex_shape(s: Seq<char>, from: int)
    requires
        0 <= from <= s.len(),
    ensures
        lex_from(s, from).len() >= 1,
        is_last(lex_from(s, from).last().lexeme),
        forall|i: int|
            0 <= i < lex_from(s, from).len() - 1 ==> !is_last(
                (#[trigger] lex_from(s, from)[i]).lexeme,
            ),
        forall|i: int|
            0 <= i < lex_from(s, from).len() ==> byte_offset(s, from) <= (#[trigger] lex_from(
                s,
                from,
            )[i]).offset <= lex_from(s, from)[i].end <= byte_len(s),
        forall|i: int|
            0 <= i < lex_from(s, from).len() - 1 ==> (#[trigger] lex_from(s, from)[i]).end
                <= lex_from(s, from)[i + 1].offset,
    decreases s.len() - from,
{
    lemma_next_scan(s, from);
    let scan = next_scan(s, from);
    lemma_byte_offset_monotonic(s, from, scan.start);
    lemma_byte_offset_monotonic(s, scan.start, scan.end);
    lemma_byte_offset_monotonic(s, scan.end, s.len() as int);
    assert(s.take(s.len() as int) =~= s);
    if !is_last(scan.lexeme) {
        lemma_lex_shape(s, scan.end);
        let rest = lex_from(s, scan.end);
        let all = lex_from(s, from);
        assert(all == seq![placed(s, scan)] + rest);
        assert forall|i: int| 0 < i < all.len() implies #[trigger] all[i] == rest[i - 1] by {}
        assert(all.last() == rest.last());
        assert forall|i: int| 0 <= i < all.len() - 1 implies (#[trigger] all[i]).end <= all[i
            + 1].offset by {
            assert(all[i + 1] == rest[i]);
            if i > 0 {
                assert(all[i] == rest[i - 1]);
            }
        }
    }
}

/// The characters of `chars` from `from` up to `to`, as a string.
pub(crate) fn text_of(chars: &Vec<char>, from: usize, to: usize) -> (text: String)
    requires
        from <= to <= chars.len(),
    ensures
        text@ == chars@.subrange(from as int, to as int),
{
    let mut text = String::new();
    let mut i: usize = from;
    while i < to
        invariant
            from <= i <= to <= chars.len(),
            text@ == chars@.subrange(from as int, i as int),
        decreases to - i,
    {
        text.push(chars[i]);
        i += 1;
        assert(text@ =~= chars@.subrange(from as int, i as int));
    }
    text
}

/// The keyword or identifier that the word `chars[from..to]` is.
fn word_kind(chars: &Vec<char>, from: usize, to: usize) -> (kind: TokenKind)
    requires
        from <= to <= chars.len(),
    ensures
        kind@ == word_lexeme(chars@.subrange(from as int, to as int)),
{
    let ghost word = chars@.subrange(from as int, to as int);
    let n: usize = to - from;
    if n == 4 && chars[from] == 't' && chars[from + 1] == 'r' && chars[from + 2] == 'u' && chars[from
        + 3] == 'e' {
        assert(word =~= seq!['t', 'r', 'u', 'e']);
        TokenKind::Keyword(Keyword::True)
    } else if n == 5 && chars[from] == 'f' && chars[from + 1] == 'a' && chars[from + 2] == 'l'
        && chars[from + 3] == 's' && chars[from + 4] == 'e' {
        assert(word =~= seq!['f', 'a', 'l', 's', 'e']);
        TokenKind::Keyword(Keyword::False)
    } else if n == 4 && chars[from] == 'n' && chars[from + 1] == 'u' && chars[from + 2] == 'l'
        && chars[from + 3] == 'l' {
        assert(word =~= seq!['n', 'u', 'l', 'l']);
        TokenKind::Keyword(Keyword::Null)
    } else {
        proof {
            let t = seq!['t', 'r', 'u', 'e'];
            let f = seq!['f', 'a', 'l', 's', 'e'];
            let z = seq!['n', 'u', 'l', 'l'];
            if word == t {
                assert(word[0] == t[0] && word[1] == t[1] && word[2] == t[2] && word[3] == t[3]);
            }
            if word == f {
                assert(word[0] == f[0] && word[1] == f[1] && word[2] == f[2] && word[3] == f[3]
                    && word[4] == f[4]);
            }
            if word == z {
                assert(word[0] == z[0] && word[1] == z[1] && word[2] == z[2] && word[3] == z[3]);
            }
        }
        TokenKind::Identifier(text_of(chars, from, to))
    }
}

/// Reads the rest of a string literal from `from`, the position after the
/// opening quote.
fn scan_quoted(chars: &Vec<char>, from: usize, quote: char) -> (found: Option<(String, usize)>)
    requires
        from <= chars.len(),
    ensures
        match (found, quoted(chars@, from as int, quote, Seq::empty())) {
            (Some(got), Some(want)) => got.0@ == want.0 && got.1 == want.1,
            (None, None) => true,
            _ => false,
        },
{
    let mut text = String::new();
    let mut i: usize = from;
    while i < chars.len()
        invariant
            from <= i <= chars.len(),
            quoted(chars@, from as int, quote, Seq::empty()) == quoted(
                chars@,
                i as int,
                quote,
                text@,
            ),
        decreases chars.len() - i,
    {
        let c = chars[i];
        if c == quote {
            return Some((text, i + 1));
        }
        if c == '\\' && i + 1 < chars.len() && (chars[i + 1] == quote || chars[i + 1] == '\\') {
            text.push(chars[i + 1]);
            i += 2;
        } else {
            text.push(c);
            i += 1;
        }
    }
    None
}

fn single(c: char) -> (found: Option<Symbol>)
    ensures
        found == single_symbol(c),
{
    if c == '+' {
        Some(Symbol::Plus)
    } else if c == '-' {
        Some(Symbol::Minus)
    } else if c == '*' {
        Some(Symbol::Star)
    } else if c == '/' {
        Some(Symbol::Slash)
    } else if c == '%' {
        Some(Symbol::Percent)
    } else if c == '.' {
        Some(Symbol::Dot)
    } else if c == '[' {
        Some(Symbol::LeftBracket)
    } else if c == ']' {
        Some(Symbol::RightBracket)
    } else if c == '(' {
        Some(Symbol::LeftParen)
    } else if c == ')' {
        Some(Symbol::RightParen)
    } else if c == ',' {
        Some(Symbol::Comma)
    } else if c == '{' {
        Some(Symbol::LeftBrace)
    } else if c == '}' {
        Some(Symbol::RightBrace)
    } else if c == ':' {
        Some(Symbol::Colon)
    } else {
        None
    }
}

/// Reads the symbol that starts at `p`.
fn scan_symbol(chars: &Vec<char>, p: usize) -> (found: Option<(Symbol, usize)>)
    requires
        p < chars.len(),
    ensures
        match symbol_at(chars@, p as int) {
            Some((symbol, width)) => found == Some((symbol, (p + width) as usize)) && p + width
                <= chars.len(),
            None => found is None,
        },
{
    let c = chars[p];
    let paired: bool = p + 1 < chars.len();
    if c == '=' {
        if paired && chars[p + 1] == '=' {
            Some((Symbol::EqualEqual, p + 2))
        } else {
            None
        }
    } else if c == '!' {
        if paired && chars[p + 1] == '=' {
            Some((Symbol::NotEqual, p + 2))
        } else {
            Some((Symbol::Bang, p + 1))
        }
    } else if c == '<' {
        if paired && chars[p + 1] == '=' {
            Some((Symbol::LessEqual, p + 2))
        } else {
            Some((Symbol::Less, p + 1))
        }
    } else if c == '>' {
        if paired && chars[p + 1] == '=' {
            Some((Symbol::GreaterEqual, p + 2))
        } else {
            Some((Symbol::Greater, p + 1))
        }
    } else if c == '&' {
        if paired && chars[p + 1] == '&' {
            Some((Symbol::AndAnd, p + 2))
        } else {
            None
        }
    } else if c == '|' {
        if paired && chars[p + 1] == '|' {
            Some((Symbol::OrOr, p + 2))
        } else {
            Some((Symbol::Pipe, p + 1))
        }
    } else {
        match single(c) {
            Some(symbol) => Some((symbol, p + 1)),
            None => None,
        }
    }
}

/// The byte offset of the position `to`, from that of the position `from`.
fn advance(chars: &Vec<char>, from: usize, to: usize, offset: usize) -> (reached: usize)
    requires
        from <= to <= chars.len(),
        offset == byte_offset(chars@, from as int),
        byte_len(chars@) <= usize::MAX,
    ensures
        reached == byte_offset(chars@, to as int),
{
    let mut i: usize = from;
    let mut reached: usize = offset;
    while i < to
        invariant
            from <= i <= to <= chars.len(),
            reached == byte_offset(chars@, i as int),
            byte_len(chars@) <= usize::MAX,
        decreases to - i,
    {
        proof {
            lemma_byte_offset_step(chars@, i as int);
            lemma_byte_offset_monotonic(chars@, i + 1, chars@.len() as int);
            assert(chars@.take(chars@.len() as int) =~= chars@);
        }
        reached += width_of(chars[i]);
        i += 1;
    }
    reached
}

/// Reads the token that starts at `p`, where a character that is no blank
/// stands, and says at which position it ends.
fn scan_token(chars: &Vec<char>, p: usize) -> (found: (TokenKind, usize))
    requires
        p < chars.len(),
    ensures
        found.0@ == scan_at(chars@, p as int).lexeme,
        found.0.canonical(),
        found.1 == scan_at(chars@, p as int).end,
        p <= found.1 <= chars.len(),
{
    let c = chars[p];
    if digit(c) {
        let dot = scan_run(chars, p, CharClass::Digit);
        proof {
            lemma_run_end(chars@, p as int, CharClass::Digit);
            assert(all_digits(chars@.subrange(p as int, dot as int)));
        }
        if dot < chars.len() && chars[dot] == '.' && dot + 1 < chars.len() && digit(
            chars[dot + 1],
        ) {
            let end = scan_run(chars, dot + 1, CharClass::Digit);
            proof {
                lemma_run_end(chars@, dot + 1, CharClass::Digit);
                assert(all_digits(chars@.subrange(dot + 1, end as int)));
            }
            (TokenKind::Number(Decimal::from_literal(chars, p, dot, end)), end)
        } else {
            (TokenKind::Number(Decimal::from_literal(chars, p, dot, dot)), dot)
        }
    } else if word_start(c) {
        let end = scan_run(chars, p, CharClass::Word);
        (word_kind(chars, p, end), end)
    } else if c == '\'' || c == '"' {
        proof {
            lemma_quoted_end(chars@, p + 1, c, Seq::empty());
        }
        match scan_quoted(chars, p + 1, c) {
            Some((text, end)) => (TokenKind::String(text), end),
            None => (TokenKind::Invalid(LexicalDetail::UnterminatedString), chars.len()),
        }
    } else {
        match scan_symbol(chars, p) {
            Some((symbol, end)) => (TokenKind::Operator(symbol), end),
            None => (TokenKind::Invalid(LexicalDetail::UnrecognizedCharacter(c)), p + 1),
        }
    }
}

/// Reads the first token from the position `pos` on, whose byte offset is
/// `offset`. Returns the token and the position at which it ends.
pub fn next_token(chars: &Vec<char>, pos: usize, offset: usize) -> (found: (Token, usize))
    requires
        pos <= chars.len(),
        offset == byte_offset(chars@, pos as int),
        byte_len(chars@) <= usize::MAX,
    ensures
        found.0@ == placed(chars@, next_scan(chars@, pos as int)),
        found.0.kind.canonical(),
        found.1 == next_scan(chars@, pos as int).end,
        pos <= found.1 <= chars.len(),
{
    let p = scan_run(chars, pos, CharClass::Blank);
    let start = advance(chars, pos, p, offset);
    if p >= chars.len() {
        (Token { kind: TokenKind::EndOfInput, offset: start, end: start }, p)
    } else {
        let (kind, end) = scan_token(chars, p);
        let stop = advance(chars, p, end, start);
        (Token { kind, offset: start, end: stop }, end)
    }
}

/// Whether the lexer stops at a token of this kind.
fn last_kind(kind: &TokenKind) -> (last: bool)
    ensures
        last == is_last(kind@),
{
    match kind {
        TokenKind::EndOfInput => true,
        TokenKind::Invalid(_) => true,
        _ => false,
    }
}

/// The tokens of `chars`.
pub fn tokenize_chars(chars: &Vec<char>) -> (tokens: Vec<Token>)
    requires
        byte_len(chars@) <= usize::MAX,
    ensures
        token_views(tokens@) == lex(chars@),
        canonical_tokens(tokens@),
{
    let mut tokens: Vec<Token> = Vec::new();
    let mut pos: usize = 0;
    let mut offset: usize = 0;
    assert(chars@.take(0) =~= Seq::<char>::empty());
    loop
        invariant_except_break
            lex(chars@) == token_views(tokens@) + lex_from(chars@, pos as int),
        invariant
            pos <= chars.len(),
            offset == byte_offset(chars@, pos as int),
            byte_len(chars@) <= usize::MAX,
            canonical_tokens(tokens@),
        ensures
            token_views(tokens@) == lex(chars@),
        decreases chars.len() - pos,
    {
        let ghost before = tokens@;
        proof {
            lemma_next_scan(chars@, pos as int);
        }
        let (token, end) = next_token(chars, pos, offset);
        let last = last_kind(&token.kind);
        offset = token.end;
        pos = end;
        tokens.push(token);
        proof {
            assert(token_views(tokens@) =~= token_views(before) + seq![token@]);
        }
        if last {
            assert(token_views(tokens@) =~= lex(chars@));
            break ;
        }
        assert(lex(chars@) =~= token_views(tokens@) + lex_from(chars@, pos as int));
    }
    tokens
}

/// The tokens of `input`.
pub fn tokenize(input: &str) -> (tokens: Vec<Token>)
    ensures
        token_views(tokens@) == lex(input@),
        canonical_tokens(tokens@),
{
    let chars = chars_of(input);
    let encoded: usize = input.as_bytes().len();
    proof {
        lemma_byte_len_is_encoded_len(input@);
        assert(byte_len(input@) == encoded);
    }
    tokenize_chars(&chars)
}

} // verus!
