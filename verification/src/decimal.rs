//! Exact decimal numbers, as number literals denote them.

use vstd::prelude::*;
use crate::text::is_digit;

verus! {

/// The value `mantissa / 10^scale`.
pub struct DecimalView {
    pub mantissa: nat,
    pub scale: nat,
}

/// Ten to the power `n`.
pub open spec fn pow10(n: nat) -> nat
    decreases n,
{
    if n == 0 {
        1
    } else {
        10 * pow10((n - 1) as nat)
    }
}

/// Powers of ten multiply as their exponents add.
pub proof fn lemma_pow10_add(a: nat, b: nat)
    ensures
        pow10(a + b) == pow10(a) * pow10(b),
    decreases a,
{
    if a > 0 {
        lemma_pow10_add((a - 1) as nat, b);
        assert(pow10(a + b) == 10 * pow10((a - 1 + b) as nat));
        assert(10 * (pow10((a - 1) as nat) * pow10(b)) == (10 * pow10((a - 1) as nat)) * pow10(b))
            by (nonlinear_arith);
    } else {
        assert(1 * pow10(b) == pow10(b));
    }
}

/// The number that a sequence of decimal digits denotes, most significant
/// digit first.
pub open spec fn digits_value(digits: Seq<u8>) -> nat
    decreases digits.len(),
{
    if digits.len() == 0 {
        0
    } else {
        digits_value(digits.drop_last()) * 10 + digits.last() as nat
    }
}

/// The digit that the character `c` writes.
pub open spec fn digit_of(c: char) -> u8 {
    (c as u32 - '0' as u32) as u8
}

/// The number that a run of digit characters writes.
pub open spec fn numeral_value(s: Seq<char>) -> nat {
    digits_value(s.map_values(|c: char| digit_of(c)))
}

/// `s` without the zeros at its end.
pub open spec fn trim_zeros(s: Seq<char>) -> Seq<char>
    decreases s.len(),
{
    if s.len() > 0 && s.last() == '0' {
        trim_zeros(s.drop_last())
    } else {
        s
    }
}

/// The decimal that the literal `whole.fraction` denotes, with the lowest
/// scale that can hold it.
pub open spec fn literal_decimal(whole: Seq<char>, fraction: Seq<char>) -> DecimalView {
    DecimalView {
        mantissa: numeral_value(whole + trim_zeros(fraction)),
        scale: trim_zeros(fraction).len(),
    }
}

/// Digits in canonical form: each below ten, the first not zero.
pub open spec fn canonical_digits(digits: Seq<u8>) -> bool {
    &&& forall|i: int| 0 <= i < digits.len() ==> #[trigger] digits[i] <= 9
    &&& digits.len() > 0 ==> digits[0] != 0
}

/// Whether every character of `s` is a digit.
pub open spec fn all_digits(s: Seq<char>) -> bool {
    forall|i: int| 0 <= i < s.len() ==> is_digit(#[trigger] s[i])
}

/// One more digit at the end: ten times the number before, plus the digit.
pub proof fn lemma_digits_value_push(digits: Seq<u8>, d: u8)
    ensures
        digits_value(digits.push(d)) == digits_value(digits) * 10 + d,
{
    assert(digits.push(d).drop_last() =~= digits);
}

/// One more digit character at the end: ten times the number before, plus
/// the digit it writes.
pub proof fn lemma_numeral_value_push(s: Seq<char>, c: char)
    ensures
        numeral_value(s.push(c)) == numeral_value(s) * 10 + digit_of(c),
{
    let f = |c: char| digit_of(c);
    assert(s.push(c).map_values(f) =~= s.map_values(f).push(digit_of(c)));
    lemma_digits_value_push(s.map_values(f), digit_of(c));
}

/// What `trim_zeros` keeps is the start of `s`, ends in no zero, and is
/// followed by zeros only.
pub proof fn lemma_trim_zeros(s: Seq<char>)
    ensures
        trim_zeros(s).len() <= s.len(),
        trim_zeros(s) == s.take(trim_zeros(s).len() as int),
        trim_zeros(s).len() > 0 ==> trim_zeros(s).last() != '0',
        forall|i: int| trim_zeros(s).len() <= i < s.len() ==> #[trigger] s[i] == '0',
    decreases s.len(),
{
    if s.len() > 0 && s.last() == '0' {
        lemma_trim_zeros(s.drop_last());
        let n = trim_zeros(s).len() as int;
        assert(s.drop_last().take(n) =~= s.take(n));
        assert forall|i: int| n <= i < s.len() implies #[trigger] s[i] == '0' by {
            if i < s.len() - 1 {
                assert(s.drop_last()[i] == '0');
            }
        }
    } else {
        assert(s.take(s.len() as int) =~= s);
    }
}

/// Only the number zero has no digits in canonical form.
pub proof fn lemma_zero_has_no_digits(digits: Seq<u8>)
    requires
        canonical_digits(digits),
        digits_value(digits) == 0,
    ensures
        digits.len() == 0,
    decreases digits.len(),
{
    if digits.len() > 0 {
        let front = digits.drop_last();
        if front.len() > 0 {
            assert(front[0] == digits[0]);
            assert forall|i: int| 0 <= i < front.len() implies #[trigger] front[i] <= 9 by {
                assert(front[i] == digits[i]);
            }
            lemma_zero_has_no_digits(front);
        }
    }
}

/// A number has one sequence of digits in canonical form.
pub proof fn lemma_digits_unique(a: Seq<u8>, b: Seq<u8>)
    requires
        canonical_digits(a),
        canonical_digits(b),
        digits_value(a) == digits_value(b),
    ensures
        a == b,
    decreases a.len(),
{
    if a.len() == 0 {
        lemma_zero_has_no_digits(b);
        assert(a =~= b);
    } else if b.len() == 0 {
        lemma_zero_has_no_digits(a);
    } else {
        let front_a = a.drop_last();
        let front_b = b.drop_last();
        assert(a.last() <= 9 && b.last() <= 9);
        assert(digits_value(front_a) == digits_value(front_b) && a.last() == b.last());
        assert forall|i: int| 0 <= i < front_a.len() implies #[trigger] front_a[i] <= 9 by {
            assert(front_a[i] == a[i]);
        }
        assert forall|i: int| 0 <= i < front_b.len() implies #[trigger] front_b[i] <= 9 by {
            assert(front_b[i] == b[i]);
        }
        if front_a.len() > 0 {
            assert(front_a[0] == a[0]);
        }
        if front_b.len() > 0 {
            assert(front_b[0] == b[0]);
        }
        lemma_digits_unique(front_a, front_b);
        assert(a =~= front_a.push(a.last()));
        assert(b =~= front_b.push(b.last()));
    }
}

/// A decimal number in canonical form: the digits of the mantissa without a
/// leading zero, and a scale that no trailing zero could lower.
#[derive(Clone, Debug, PartialEq, Eq)]
pub struct Decimal {
    digits: Vec<u8>,
    scale: usize,
}

impl View for Decimal {
    type V = DecimalView;

    closed spec fn view(&self) -> DecimalView {
        DecimalView { mantissa: digits_value(self.digits@), scale: self.scale as nat }
    }
}

impl Decimal {
    /// The digits of the mantissa, most significant first.
    pub closed spec fn spec_digits(&self) -> Seq<u8> {
        self.digits@
    }

    /// Canonical form: no leading zero among the digits, and with a scale
    /// above zero a last digit that is not zero.
    pub open spec fn canonical(&self) -> bool {
        &&& canonical_digits(self.spec_digits())
        &&& digits_value(self.spec_digits()) == self@.mantissa
        &&& self@.scale > 0 ==> self.spec_digits().len() > 0 && self.spec_digits().last() != 0
    }

    /// Two numbers in canonical form with the same value hold the same
    /// digits.
    pub proof fn lemma_canonical_unique(a: Decimal, b: Decimal)
        requires
            a.canonical(),
            b.canonical(),
            a@ == b@,
        ensures
            a.spec_digits() == b.spec_digits(),
    {
        lemma_digits_unique(a.spec_digits(), b.spec_digits());
    }

    /// The whole number `n`.
    pub fn from_u64(n: u64) -> (d: Decimal)
        ensures
            d@ == (DecimalView { mantissa: n as nat, scale: 0 }),
            d.canonical(),
    {
        let digits = Self::digits_of_u64(n);
        Decimal { digits, scale: 0 }
    }

    /// The number `mantissa / 10^scale`, with the lowest scale that can hold
    /// it.
    pub fn new(mantissa: u64, scale: usize) -> (d: Decimal)
        ensures
            d@.scale <= scale,
            d@.mantissa * pow10((scale - d@.scale) as nat) == mantissa,
            d@.scale > 0 ==> d@.mantissa % 10 != 0,
            d.canonical(),
    {
        let mut m: u64 = mantissa;
        let mut s: usize = scale;
        proof {
            let one = pow10(0);
            assert(m * one == mantissa) by (nonlinear_arith)
                requires
                    one == 1,
                    m == mantissa,
            ;
        }
        while s > 0 && m % 10 == 0
            invariant
                s <= scale,
                m * pow10((scale - s) as nat) == mantissa,
            decreases s,
        {
            proof {
                let tens = pow10((scale - s) as nat);
                assert(pow10((scale - (s - 1)) as nat) == 10 * tens);
                assert((m / 10) * (10 * tens) == ((m / 10) * 10) * tens) by (nonlinear_arith);
            }
            m = m / 10;
            s = s - 1;
        }
        let digits = Self::digits_of_u64(m);
        Decimal { digits, scale: s }
    }

    fn digits_of_u64(n: u64) -> (digits: Vec<u8>)
        ensures
            digits_value(digits@) == n,
            canonical_digits(digits@),
            n > 0 ==> digits.len() > 0 && digits@.last() == n % 10,
        decreases n,
    {
        if n == 0 {
            Vec::new()
        } else {
            let mut digits = Self::digits_of_u64(n / 10);
            let last: u8 = (n % 10) as u8;
            proof {
                lemma_digits_value_push(digits@, last);
            }
            digits.push(last);
            digits
        }
    }

    /// Reads the literal whose whole part is `chars[start..dot]` and whose
    /// fraction is `chars[dot + 1..end]`; with `dot == end` it has no fraction.
    pub(crate) fn from_literal(chars: &Vec<char>, start: usize, dot: usize, end: usize) -> (d: Decimal)
        requires
            start <= dot <= end <= chars.len(),
            all_digits(chars@.subrange(start as int, dot as int)),
            dot < end ==> all_digits(chars@.subrange(dot + 1, end as int)),
        ensures
            d@ == literal_decimal(
                chars@.subrange(start as int, dot as int),
                if dot < end {
                    chars@.subrange(dot + 1, end as int)
                } else {
                    Seq::empty()
                },
            ),
            d.canonical(),
    {
        let ghost whole = chars@.subrange(start as int, dot as int);
        let ghost fraction = if dot < end {
            chars@.subrange(dot + 1, end as int)
        } else {
            Seq::empty()
        };
        let from: usize = if dot < end {
            dot + 1
        } else {
            end
        };
        let mut to: usize = end;
        proof {
            lemma_trim_zeros(fraction);
            assert(fraction =~= chars@.subrange(from as int, end as int));
        }
        while to > from && chars[to - 1] == '0'
            invariant
                from <= to <= end <= chars.len(),
                fraction == chars@.subrange(from as int, end as int),
                trim_zeros(fraction) == trim_zeros(chars@.subrange(from as int, to as int)),
            decreases to - from,
        {
            proof {
                assert(chars@.subrange(from as int, to as int).drop_last() =~= chars@.subrange(
                    from as int,
                    to - 1,
                ));
            }
            to -= 1;
        }
        let ghost kept = chars@.subrange(from as int, to as int);
        assert(trim_zeros(fraction) == kept);
        let mut digits: Vec<u8> = Vec::new();
        let mut i: usize = start;
        assert(chars@.subrange(start as int, start as int) =~= Seq::<char>::empty());
        while i < dot
            invariant
                start <= i <= dot <= chars.len(),
                whole == chars@.subrange(start as int, dot as int),
                all_digits(whole),
                canonical_digits(digits@),
                digits_value(digits@) == numeral_value(chars@.subrange(start as int, i as int)),
            decreases dot - i,
        {
            let c = chars[i];
            assert(c == whole[i - start]);
            let d = Self::digit_value(c);
            proof {
                assert(chars@.subrange(start as int, i + 1) =~= chars@.subrange(
                    start as int,
                    i as int,
                ).push(c));
                lemma_numeral_value_push(chars@.subrange(start as int, i as int), c);
                lemma_digits_value_push(digits@, d);
            }
            if digits.len() > 0 || d != 0 {
                digits.push(d);
            }
            i += 1;
        }
        assert(chars@.subrange(start as int, dot as int) + chars@.subrange(from as int, from as int)
            =~= whole);
        let mut j: usize = from;
        while j < to
            invariant
                from <= j <= to <= end <= chars.len(),
                from < to ==> from == dot + 1 && dot < end,
                fraction == chars@.subrange(from as int, end as int),
                dot < end ==> all_digits(fraction),
                canonical_digits(digits@),
                digits_value(digits@) == numeral_value(
                    whole + chars@.subrange(from as int, j as int),
                ),
                j > from && digit_of(chars@[j - 1]) != 0 ==> digits.len() > 0 && digits@.last()
                    == digit_of(chars@[j - 1]),
            decreases to - j,
        {
            let c = chars[j];
            assert(c == fraction[j - from]);
            let d = Self::digit_value(c);
            proof {
                assert(whole + chars@.subrange(from as int, j + 1) =~= (whole + chars@.subrange(
                    from as int,
                    j as int,
                )).push(c));
                lemma_numeral_value_push(whole + chars@.subrange(from as int, j as int), c);
                lemma_digits_value_push(digits@, d);
            }
            if digits.len() > 0 || d != 0 {
                digits.push(d);
            }
            j += 1;
        }
        proof {
            if to > from {
                assert(kept.last() == chars@[to - 1]);
                assert(fraction[to - 1 - from] == chars@[to - 1]);
            }
        }
        Decimal { digits, scale: to - from }
    }

    fn digit_value(c: char) -> (d: u8)
        requires
            is_digit(c),
        ensures
            d == digit_of(c),
            d <= 9,
            d == 0 <==> c == '0',
    {
        let code: u32 = c as u32;
        (code - 48) as u8
    }

    /// A copy of this number.
    pub fn duplicate(&self) -> (d: Decimal)
        ensures
            d@ == self@,
            d.spec_digits() == self.spec_digits(),
    {
        let mut digits: Vec<u8> = Vec::new();
        let mut i: usize = 0;
        while i < self.digits.len()
            invariant
                i <= self.digits.len(),
                digits@ == self.digits@.take(i as int),
            decreases self.digits.len() - i,
        {
            digits.push(self.digits[i]);
            i += 1;
            assert(digits@ =~= self.digits@.take(i as int));
        }
        assert(digits@ =~= self.digits@);
        Decimal { digits, scale: self.scale }
    }

    /// The digits of the mantissa, most significant first, none for zero.
    pub fn digits(&self) -> (digits: &Vec<u8>)
        ensures
            digits@ == self.spec_digits(),
    {
        &self.digits
    }

    /// The number of digits after the decimal point.
    pub fn scale(&self) -> (scale: usize)
        ensures
            scale == self@.scale,
    {
        self.scale
    }
}

} // verus!
