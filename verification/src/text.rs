//! Characters: the classes that the lexer tells apart, and how many bytes a
//! run of characters takes in UTF-8.

use vstd::prelude::*;
use vstd::utf8::{encode_scalar, encode_utf8};
use vstd::string::{axiom_spec_iter, next_postcondition};
use vstd::std_specs::iter::IteratorSpec;

verus! {

/// The classes of characters that form runs.
#[derive(Clone, Copy, Debug, PartialEq, Eq, Structural)]
pub enum CharClass {
    /// Space, tab, line feed, carriage return.
    Blank,
    /// `0` to `9`.
    Digit,
    /// ASCII letters, digits and the underscore.
    Word,
}

/// Whether `c` separates tokens: space, tab, line feed or carriage return.
pub open spec fn is_blank(c: char) -> bool {
    c == ' ' || c == '\t' || c == '\n' || c == '\r'
}

/// Whether `c` is one of `0` to `9`.
pub open spec fn is_digit(c: char) -> bool {
    '0' <= c <= '9'
}

/// Whether `c` can start an identifier: an ASCII letter or the underscore.
pub open spec fn is_word_start(c: char) -> bool {
    ('a' <= c <= 'z') || ('A' <= c <= 'Z') || c == '_'
}

/// Whether `c` belongs to `class`.
pub open spec fn in_class(class: CharClass, c: char) -> bool {
    match class {
        CharClass::Blank => is_blank(c),
        CharClass::Digit => is_digit(c),
        CharClass::Word => is_word_start(c) || is_digit(c),
    }
}

/// The end of the run of `class` that starts at `from`: the first position
/// from there on that holds no character of the class.
pub open spec fn run_end(s: Seq<char>, from: int, class: CharClass) -> int
    decreases s.len() - from,
{
    if 0 <= from < s.len() && in_class(class, s[from]) {
        run_end(s, from + 1, class)
    } else {
        from
    }
}

/// A run ends at `from` or after it, inside the text; it holds characters
/// of its class only, and the character at its end is none.
pub proof fn lemma_run_end(s: Seq<char>, from: int, class: CharClass)
    requires
        0 <= from <= s.len(),
    ensures
        from <= run_end(s, from, class) <= s.len(),
        forall|i: int| from <= i < run_end(s, from, class) ==> in_class(class, #[trigger] s[i]),
        run_end(s, from, class) < s.len() ==> !in_class(class, s[run_end(s, from, class)]),
    decreases s.len() - from,
{
    if from < s.len() && in_class(class, s[from]) {
        lemma_run_end(s, from + 1, class);
    }
}

/// A position up to which every character from `from` on is of the class,
/// and which holds none of it, is the end of the run.
pub proof fn lemma_run_end_is(s: Seq<char>, from: int, end: int, class: CharClass)
    requires
        0 <= from <= end <= s.len(),
        forall|i: int| from <= i < end ==> in_class(class, #[trigger] s[i]),
        end < s.len() ==> !in_class(class, s[end]),
    ensures
        run_end(s, from, class) == end,
    decreases end - from,
{
    if from < end {
        lemma_run_end_is(s, from + 1, end, class);
    }
}

/// The number of bytes that `c` takes in UTF-8.
pub open spec fn utf8_width(c: char) -> nat {
    if (c as u32) < 0x80 {
        1
    } else if (c as u32) < 0x800 {
        2
    } else if (c as u32) < 0x10000 {
        3
    } else {
        4
    }
}

/// The number of bytes that `s` takes in UTF-8.
pub open spec fn byte_len(s: Seq<char>) -> nat
    decreases s.len(),
{
    if s.len() == 0 {
        0
    } else {
        byte_len(s.drop_last()) + utf8_width(s.last())
    }
}

/// The byte offset of the character position `pos` in the text `s`.
pub open spec fn byte_offset(s: Seq<char>, pos: int) -> nat {
    if 0 <= pos <= s.len() {
        byte_len(s.take(pos))
    } else {
        byte_len(s)
    }
}

/// The bytes of two texts put together are those of the one and those of
/// the other.
pub proof fn lemma_byte_len_concat(a: Seq<char>, b: Seq<char>)
    ensures
        byte_len(a + b) == byte_len(a) + byte_len(b),
    decreases b.len(),
{
    if b.len() == 0 {
        assert(a + b =~= a);
    } else {
        assert((a + b).drop_last() =~= a + b.drop_last());
        lemma_byte_len_concat(a, b.drop_last());
    }
}

/// One character on, the byte offset grows by the width of that character.
pub proof fn lemma_byte_offset_step(s: Seq<char>, pos: int)
    requires
        0 <= pos < s.len(),
    ensures
        byte_offset(s, pos + 1) == byte_offset(s, pos) + utf8_width(s[pos]),
{
    assert(s.take(pos + 1).drop_last() =~= s.take(pos));
}

/// Byte offsets grow with positions, by one at least for each character.
pub proof fn lemma_byte_offset_monotonic(s: Seq<char>, a: int, b: int)
    requires
        0 <= a <= b <= s.len(),
    ensures
        byte_offset(s, a) <= byte_offset(s, b),
        b - a <= byte_offset(s, b) - byte_offset(s, a),
    decreases b - a,
{
    if a < b {
        lemma_byte_offset_monotonic(s, a, b - 1);
        lemma_byte_offset_step(s, b - 1);
    }
}

/// `byte_len` counts the bytes of the UTF-8 encoding.
pub proof fn lemma_byte_len_is_encoded_len(s: Seq<char>)
    ensures
        byte_len(s) == encode_utf8(s).len(),
    decreases s.len(),
{
    if s.len() > 0 {
        let head = seq![s[0]];
        let tail = s.drop_first();
        assert(s =~= head + tail);
        lemma_byte_len_concat(head, tail);
        lemma_byte_len_is_encoded_len(tail);
        assert(head.drop_last() =~= Seq::<char>::empty());
        assert(byte_len(head) == utf8_width(s[0])) by {
            reveal_with_fuel(byte_len, 2);
        }
        vstd::utf8::char_is_scalar(s[0]);
        assert(encode_utf8(s) == encode_scalar(s[0] as u32) + encode_utf8(tail));
    }
}

/// Whether `c` separates tokens.
pub fn blank(c: char) -> (b: bool)
    ensures
        b == is_blank(c),
{
    c == ' ' || c == '\t' || c == '\n' || c == '\r'
}

/// Whether `c` is a digit.
pub fn digit(c: char) -> (b: bool)
    ensures
        b == is_digit(c),
{
    '0' <= c && c <= '9'
}

/// Whether `c` can start an identifier.
pub fn word_start(c: char) -> (b: bool)
    ensures
        b == is_word_start(c),
{
    ('a' <= c && c <= 'z') || ('A' <= c && c <= 'Z') || c == '_'
}

/// Whether `c` belongs to `class`.
pub fn class_holds(class: CharClass, c: char) -> (b: bool)
    ensures
        b == in_class(class, c),
{
    match class {
        CharClass::Blank => blank(c),
        CharClass::Digit => digit(c),
        CharClass::Word => word_start(c) || digit(c),
    }
}

/// Finds where the run of `class` that starts at `from` ends.
pub(crate) fn scan_run(chars: &Vec<char>, from: usize, class: CharClass) -> (end: usize)
    requires
        from <= chars.len(),
    ensures
        end == run_end(chars@, from as int, class),
        from <= end <= chars.len(),
{
    let mut i: usize = from;
    while i < chars.len() && class_holds(class, chars[i])
        invariant
            from <= i <= chars.len(),
            forall|j: int| from <= j < i ==> in_class(class, #[trigger] chars@[j]),
        decreases chars.len() - i,
    {
        i += 1;
    }
    proof {
        lemma_run_end_is(chars@, from as int, i as int, class);
    }
    i
}

/// The number of bytes that `c` takes in UTF-8.
pub fn width_of(c: char) -> (w: usize)
    ensures
        w == utf8_width(c),
{
    let code: u32 = c as u32;
    if code < 0x80 {
        1
    } else if code < 0x800 {
        2
    } else if code < 0x10000 {
        3
    } else {
        4
    }
}

/// The characters of `input`, in order.
pub fn chars_of(input: &str) -> (chars: Vec<char>)
    ensures
        chars@ == input@,
{
    broadcast use {axiom_spec_iter, next_postcondition};

    let mut chars: Vec<char> = Vec::new();
    let mut rest = input.chars();
    loop
        invariant
            chars@ + rest.remaining() == input@,
            rest.decrease() is Some,
        ensures
            chars@ == input@,
        decreases rest.decrease()->0,
    {
        let ghost before = rest.remaining();
        match rest.next() {
            Some(c) => {
                chars.push(c);
                assert(chars@ + rest.remaining() =~= chars@.drop_last() + before);
            },
            None => {
                assert(chars@ + before =~= chars@);
                break ;
            },
        }
    }
    chars
}

} // verus!
