//! Decimal numbers: reading the digits of an index or a quantity into a machine
//! integer, and writing a machine integer out in digits.

use crate::chars::{
    all_in, chars_of, lemma_run_end, lemma_run_end_unique, run_end, trim, trim_bounds, CharClass,
};
use vstd::prelude::*;

verus! {

/// Why a piece of text is no number of the width asked for.
#[derive(Clone, Copy, Debug, PartialEq, Eq, Structural)]
pub enum NumberError {
    /// The text is empty.
    Empty,
    /// The text holds a character that is no digit, or no digit at all.
    InvalidDigit,
    /// The digits stand for a number above the largest of the width.
    PosOverflow,
}

/// What a number error says of itself.
pub open spec fn number_message(e: NumberError) -> Seq<char> {
    match e {
        NumberError::Empty => "cannot parse integer from empty string"@,
        NumberError::InvalidDigit => "invalid digit found in string"@,
        NumberError::PosOverflow => "number too large to fit in target type"@,
    }
}

impl NumberError {
    /// The error in words.
    pub fn message(&self) -> (text: String)
        ensures
            text@ == number_message(*self),
    {
        match self {
            NumberError::Empty => "cannot parse integer from empty string".to_owned(),
            NumberError::InvalidDigit => "invalid digit found in string".to_owned(),
            NumberError::PosOverflow => "number too large to fit in target type".to_owned(),
        }
    }
}

/// What the digit `c` stands for.
pub open spec fn digit_value(c: char) -> int {
    c as int - '0' as int
}

/// The number that a sequence of digits stands for, read in base ten.
pub open spec fn decimal_value(digits: Seq<char>) -> nat
    decreases digits.len(),
{
    if digits.len() == 0 {
        0
    } else {
        (10 * decimal_value(digits.drop_last()) + digit_value(digits.last())) as nat
    }
}

/// `s` without the plus sign that may stand in front of the digits.
pub open spec fn unsigned_digits(s: Seq<char>) -> Seq<char> {
    if s.len() > 0 && s[0] == '+' {
        s.skip(1)
    } else {
        s
    }
}

/// The number up to `max` that `s` stands for. The text is an optional plus sign
/// and then digits only, at least one. Read from the left, the digits that
/// exceed `max` are reported before a character that is no digit.
pub open spec fn unsigned_value(s: Seq<char>, max: u64) -> Result<u64, NumberError> {
    let digits = unsigned_digits(s);
    let leading = digits.take(run_end(digits, 0, CharClass::Digit));
    if s.len() == 0 {
        Err(NumberError::Empty)
    } else if decimal_value(leading) > max {
        Err(NumberError::PosOverflow)
    } else if leading.len() < digits.len() || digits.len() == 0 {
        Err(NumberError::InvalidDigit)
    } else {
        Ok(decimal_value(digits) as u64)
    }
}

/// The index that the text `s` stands for.
pub open spec fn index_value(s: Seq<char>) -> Result<usize, NumberError> {
    match unsigned_value(s, usize::MAX as u64) {
        Ok(n) => Ok(n as usize),
        Err(e) => Err(e),
    }
}

/// The quantity that the text `s` stands for, whitespace around it set aside.
pub open spec fn quantity_value(s: Seq<char>) -> Result<u32, NumberError> {
    match unsigned_value(trim(s), u32::MAX as u64) {
        Ok(n) => Ok(n as u32),
        Err(e) => Err(e),
    }
}

/// One more digit at the end multiplies by ten and adds the digit.
pub proof fn lemma_decimal_value_push(digits: Seq<char>, c: char)
    ensures
        decimal_value(digits.push(c)) == (10 * decimal_value(digits) + digit_value(c)) as nat,
{
    assert(digits.push(c).drop_last() =~= digits);
}

/// A number is at least the number that its first `k` digits stand for.
pub proof fn lemma_decimal_value_prefix(digits: Seq<char>, k: int)
    requires
        0 <= k <= digits.len(),
        all_in(digits, CharClass::Digit),
    ensures
        decimal_value(digits.take(k)) <= decimal_value(digits),
    decreases digits.len() - k,
{
    if k < digits.len() {
        let d = digits.drop_last();
        assert(CharClass::Digit.contains(digits[digits.len() - 1]));
        assert(all_in(d, CharClass::Digit)) by {
            assert forall|i: int| 0 <= i < d.len() implies CharClass::Digit.contains(
                #[trigger] d[i],
            ) by {
                assert(d[i] == digits[i]);
            }
        }
        lemma_decimal_value_prefix(d, k);
        assert(d.take(k) =~= digits.take(k));
    } else {
        assert(digits.take(k) =~= digits);
    }
}

/// Reads a number up to `max` from the characters of `chars` from `from` up to `to`.
pub fn read_unsigned(chars: &Vec<char>, from: usize, to: usize, max: u64) -> (r: Result<
    u64,
    NumberError,
>)
    requires
        from <= to <= chars.len(),
    ensures
        r == unsigned_value(chars@.subrange(from as int, to as int), max),
{
    let ghost s = chars@.subrange(from as int, to as int);
    if from == to {
        return Err(NumberError::Empty);
    }
    let first: usize = if chars[from] == '+' {
        from + 1
    } else {
        from
    };
    let ghost digits = unsigned_digits(s);
    assert(digits =~= chars@.subrange(first as int, to as int));
    let mut value: u64 = 0;
    let mut i: usize = first;
    assert(digits.take(0) =~= Seq::<char>::empty());
    while i < to
        invariant
            from <= first <= i <= to <= chars.len(),
            s == chars@.subrange(from as int, to as int),
            s.len() > 0,
            digits == unsigned_digits(s),
            digits == chars@.subrange(first as int, to as int),
            all_in(digits.take(i - first), CharClass::Digit),
            value == decimal_value(digits.take(i - first)),
            value <= max,
        decreases to - i,
    {
        let c = chars[i];
        let ghost seen = digits.take(i - first);
        assert(c == digits[i - first]);
        if !CharClass::Digit.accepts(c) {
            proof {
                assert forall|j: int| 0 <= j < i - first implies CharClass::Digit.contains(
                    #[trigger] digits[j],
                ) by {
                    assert(digits[j] == seen[j]);
                }
                lemma_run_end_unique(digits, 0, CharClass::Digit, i - first);
            }
            return Err(NumberError::InvalidDigit);
        }
        let digit: u64 = (c as u64) - ('0' as u64);
        proof {
            lemma_decimal_value_push(seen, c);
            assert(seen.push(c) =~= digits.take(i + 1 - first));
            assert forall|j: int| 0 <= j < i + 1 - first implies CharClass::Digit.contains(
                #[trigger] digits.take(i + 1 - first)[j],
            ) by {
                if j < i - first {
                    assert(digits.take(i + 1 - first)[j] == seen[j]);
                }
            }
        }
        if digit > max || value > (max - digit) / 10 {
            proof {
                let more = digits.take(i + 1 - first);
                assert(decimal_value(more) > max);
                lemma_run_end_from(digits, i + 1 - first);
                let end = run_end(digits, 0, CharClass::Digit);
                lemma_run_end(digits, 0, CharClass::Digit);
                let leading = digits.take(end);
                assert(leading =~= digits.subrange(0, end));
                lemma_decimal_value_prefix(leading, i + 1 - first);
                assert(leading.take(i + 1 - first) =~= more);
            }
            return Err(NumberError::PosOverflow);
        }
        value = value * 10 + digit;
        i = i + 1;
    }
    proof {
        assert(digits.take(i - first) =~= digits);
        lemma_run_end_unique(digits, 0, CharClass::Digit, digits.len() as int);
    }
    if i == first {
        return Err(NumberError::InvalidDigit);
    }
    Ok(value)
}

/// A run of digits that starts at the front reaches at least as far as any
/// prefix made of digits only.
pub proof fn lemma_run_end_from(s: Seq<char>, k: int)
    requires
        0 <= k <= s.len(),
        all_in(s.take(k), CharClass::Digit),
    ensures
        k <= run_end(s, 0, CharClass::Digit),
{
    lemma_run_end(s, 0, CharClass::Digit);
    let end = run_end(s, 0, CharClass::Digit);
    if end < k {
        assert(s.take(k)[end] == s[end]);
    }
}

/// The digit that stands for `d`, for `d` from 0 to 9.
pub open spec fn digit_char(d: int) -> char {
    (d + '0' as int) as char
}

/// `n` written out in base ten, without leading zeros.
pub open spec fn decimal_text(n: nat) -> Seq<char>
    decreases n,
{
    if n < 10 {
        seq![digit_char(n as int)]
    } else {
        decimal_text(n / 10).push(digit_char((n % 10) as int))
    }
}

/// A number written out is digits only, and at least one.
pub proof fn lemma_decimal_text_digits(n: nat)
    ensures
        decimal_text(n).len() > 0,
        all_in(decimal_text(n), CharClass::Digit),
    decreases n,
{
    if n >= 10 {
        lemma_decimal_text_digits(n / 10);
    }
}

/// Reading back what was written out gives the number.
pub proof fn lemma_decimal_text_value(n: nat)
    ensures
        decimal_value(decimal_text(n)) == n,
    decreases n,
{
    if n < 10 {
        let c = digit_char(n as int);
        assert(digit_value(c) == n);
        assert(Seq::<char>::empty().push(c) =~= decimal_text(n));
        lemma_decimal_value_push(Seq::<char>::empty(), c);
    } else {
        let c = digit_char((n % 10) as int);
        assert(digit_value(c) == n % 10);
        lemma_decimal_text_value(n / 10);
        lemma_decimal_value_push(decimal_text(n / 10), c);
    }
}

/// A number up to `max`, written out and read again, is the same number.
pub proof fn lemma_decimal_round_trip(n: u64, max: u64)
    requires
        n <= max,
    ensures
        unsigned_value(decimal_text(n as nat), max) == Ok::<u64, NumberError>(n),
{
    let t = decimal_text(n as nat);
    lemma_decimal_text_digits(n as nat);
    lemma_decimal_text_value(n as nat);
    assert(CharClass::Digit.contains(t[0]));
    assert(unsigned_digits(t) == t);
    lemma_run_end_unique(t, 0, CharClass::Digit, t.len() as int);
    assert(t.take(t.len() as int) =~= t);
}

/// Appends `n`, written out in base ten, to `out`.
pub fn push_decimal(out: &mut String, n: u64)
    ensures
        final(out)@ == old(out)@ + decimal_text(n as nat),
    decreases n,
{
    if n >= 10 {
        push_decimal(out, n / 10);
    }
    let digit: u8 = (n % 10) as u8;
    let c: char = (48u8 + digit) as char;
    out.push(c);
    proof {
        assert(c == digit_char((n % 10) as int));
        if n < 10 {
            assert(old(out)@.push(c) =~= old(out)@ + decimal_text(n as nat));
        } else {
            assert((old(out)@ + decimal_text((n / 10) as nat)).push(c) =~= old(out)@
                + decimal_text(n as nat));
        }
    }
}

/// Reads the index of an item from its text.
pub fn parse_index(text: &str) -> (r: Result<usize, NumberError>)
    ensures
        r == index_value(text@),
{
    let chars = chars_of(text);
    assert(chars@.subrange(0, chars.len() as int) =~= chars@);
    match read_unsigned(&chars, 0, chars.len(), usize::MAX as u64) {
        Ok(n) => Ok(n as usize),
        Err(e) => Err(e),
    }
}

/// Reads the quantity of an item from its text; whitespace around the digits
/// does not count.
pub fn parse_quantity(text: &str) -> (r: Result<u32, NumberError>)
    ensures
        r == quantity_value(text@),
{
    let chars = chars_of(text);
    let (from, to) = trim_bounds(&chars);
    match read_unsigned(&chars, from, to, u32::MAX as u64) {
        Ok(n) => Ok(n as u32),
        Err(e) => Err(e),
    }
}

} // verus!
