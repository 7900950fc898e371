//! Decimal integers as they appear on the wire: written without leading zeros, read with
//! an optional sign and any number of leading zeros.

use vstd::arithmetic::power::pow;
use vstd::prelude::*;

verus! {

pub const ASCII_PLUS: u8 = 0x2b;

pub const ASCII_MINUS: u8 = 0x2d;

pub const ASCII_ZERO: u8 = 0x30;

/// The byte is one of `0` to `9`.
pub open spec fn is_digit(byte: u8) -> bool {
    0x30 <= byte <= 0x39
}

/// Every byte is a digit.
pub open spec fn all_digits(digits: Seq<u8>) -> bool {
    forall|i: int| 0 <= i < digits.len() ==> is_digit(#[trigger] digits[i])
}

/// The number that a sequence of digits stands for, most significant digit first.
pub open spec fn digits_value(digits: Seq<u8>) -> nat
    decreases digits.len(),
{
    if digits.len() == 0 {
        0
    } else {
        (digits_value(digits.drop_last()) * 10 + (digits.last() - 0x30)) as nat
    }
}

/// The shortest decimal form of a natural number.
pub open spec fn decimal(n: nat) -> Seq<u8>
    decreases n,
{
    if n < 10 {
        seq![(0x30 + n) as u8]
    } else {
        decimal(n / 10).push((0x30 + n % 10) as u8)
    }
}

/// The shortest decimal form of an integer: a minus sign, where it is negative, and the
/// decimal form of its magnitude.
pub open spec fn signed_decimal(n: int) -> Seq<u8> {
    if n < 0 {
        seq![ASCII_MINUS] + decimal((-n) as nat)
    } else {
        decimal(n as nat)
    }
}

/// The text begins with a plus or a minus sign.
pub open spec fn has_sign(text: Seq<u8>) -> bool {
    text.len() > 0 && (text[0] == ASCII_PLUS || text[0] == ASCII_MINUS)
}

/// What follows the sign, or the whole text where there is none.
pub open spec fn unsigned_part(text: Seq<u8>) -> Seq<u8> {
    if has_sign(text) {
        text.skip(1)
    } else {
        text
    }
}

/// The integer that a text stands for: an optional sign and at least one digit, nothing
/// else, with a value that an `i64` holds. `None` for any other text.
pub open spec fn integer_value(text: Seq<u8>) -> Option<int> {
    let digits = unsigned_part(text);
    let magnitude = digits_value(digits) as int;
    let value = if text.len() > 0 && text[0] == ASCII_MINUS {
        -magnitude
    } else {
        magnitude
    };
    if digits.len() > 0 && all_digits(digits) && i64::MIN <= value <= i64::MAX {
        Some(value)
    } else {
        None
    }
}

/// Dropping digits at the end never makes the number larger.
proof fn lemma_digits_value_prefix(digits: Seq<u8>, n: int)
    requires
        all_digits(digits),
        0 <= n <= digits.len(),
    ensures
        digits_value(digits.take(n)) <= digits_value(digits),
    decreases digits.len(),
{
    if n == digits.len() {
        assert(digits.take(n) =~= digits);
    } else {
        lemma_digits_value_prefix(digits.drop_last(), n);
        assert(digits.drop_last().take(n) =~= digits.take(n));
    }
}

/// The decimal form of a number is made of digits and stands for that number.
pub proof fn lemma_decimal_value(n: nat)
    ensures
        decimal(n).len() > 0,
        all_digits(decimal(n)),
        digits_value(decimal(n)) == n,
    decreases n,
{
    if n < 10 {
        let d = seq![(0x30 + n) as u8];
        assert(d.drop_last() =~= Seq::<u8>::empty());
        assert(digits_value(d.drop_last()) == 0);
    } else {
        lemma_decimal_value(n / 10);
        let front = decimal(n / 10);
        let d = front.push((0x30 + n % 10) as u8);
        assert(d.drop_last() =~= front);
    }
}

/// Reading an integer gives back what was written: the decimal form of every `i64` stands
/// for that integer.
pub proof fn lemma_integer_round_trip(n: i64)
    ensures
        integer_value(signed_decimal(n as int)) == Some(n as int),
{
    if n < 0 {
        let m = (-(n as int)) as nat;
        lemma_decimal_value(m);
        assert(signed_decimal(n as int).skip(1) =~= decimal(m));
    } else {
        lemma_decimal_value(n as nat);
        let text = decimal(n as nat);
        assert(is_digit(text[0]));
    }
}

/// No sequence of digits that stands for a number is shorter than its decimal form.
proof fn lemma_decimal_is_shortest(digits: Seq<u8>)
    requires
        digits.len() > 0,
        all_digits(digits),
    ensures
        decimal(digits_value(digits)).len() <= digits.len(),
    decreases digits.len(),
{
    let front = digits.drop_last();
    assert(is_digit(digits[digits.len() - 1]));
    if front.len() > 0 {
        lemma_decimal_is_shortest(front);
        assert(digits_value(digits) / 10 == digits_value(front));
    }
}

/// No text that stands for an integer is shorter than its decimal form.
pub proof fn lemma_signed_decimal_is_shortest(text: Seq<u8>)
    ensures
        integer_value(text) matches Some(n) ==> signed_decimal(n).len() <= text.len(),
{
    if integer_value(text) is Some {
        lemma_decimal_is_shortest(unsigned_part(text));
    }
}

/// The decimal form of an integer holds neither a carriage return nor a line feed.
pub proof fn lemma_decimal_is_printable(n: int)
    ensures
        forall|i: int|
            0 <= i < signed_decimal(n).len() ==> 0x2b <= #[trigger] signed_decimal(n)[i] <= 0x39,
{
    if n < 0 {
        lemma_decimal_value((-n) as nat);
        assert forall|i: int| 0 <= i < signed_decimal(n).len() implies 0x2b
            <= #[trigger] signed_decimal(n)[i] <= 0x39 by {
            if i > 0 {
                assert(signed_decimal(n)[i] == decimal((-n) as nat)[i - 1]);
                assert(is_digit(decimal((-n) as nat)[i - 1]));
            }
        }
    } else {
        lemma_decimal_value(n as nat);
        assert forall|i: int| 0 <= i < signed_decimal(n).len() implies 0x2b
            <= #[trigger] signed_decimal(n)[i] <= 0x39 by {
            assert(is_digit(decimal(n as nat)[i]));
        }
    }
}

/// Appends the decimal form of `n`.
pub fn push_decimal(out: &mut Vec<u8>, n: u64)
    ensures
        final(out)@ == old(out)@ + decimal(n as nat),
    decreases n,
{
    if n >= 10 {
        push_decimal(out, n / 10);
    }
    let ghost before = out@;
    out.push(ASCII_ZERO + (n % 10) as u8);
    proof {
        if n < 10 {
            assert(out@ =~= old(out)@ + decimal(n as nat));
        } else {
            assert(before == old(out)@ + decimal((n / 10) as nat));
            assert(out@ =~= old(out)@ + decimal(n as nat));
        }
    }
}

/// Appends the decimal form of `n`, with a minus sign where it is negative.
pub fn push_signed_decimal(out: &mut Vec<u8>, n: i64)
    ensures
        final(out)@ == old(out)@ + signed_decimal(n as int),
{
    if n < 0 {
        out.push(ASCII_MINUS);
        push_decimal(out, (-(n as i128)) as u64);
        assert(out@ =~= old(out)@ + signed_decimal(n as int));
    } else {
        push_decimal(out, n as u64);
    }
}

/// Reads a decimal integer: `Some` exactly for the texts that stand for an `i64`.
pub fn parse_integer(text: &[u8]) -> (result: Option<i64>)
    ensures
        result is Some <==> integer_value(text@) is Some,
        result matches Some(n) ==> integer_value(text@) == Some(n as int),
{
    let len = text.len();
    if len == 0 {
        return None;
    }
    let negative = text[0] == ASCII_MINUS;
    let start: usize = if negative || text[0] == ASCII_PLUS {
        1
    } else {
        0
    };
    let ghost digits = unsigned_part(text@);
    assert(digits =~= text@.skip(start as int));
    if start == len {
        return None;
    }
    let limit: u128 = 0x1_0000_0000_0000_0000;
    let mut magnitude: u128 = 0;
    let mut i: usize = start;
    assert(digits.take(0) =~= Seq::<u8>::empty());
    while i < len
        invariant
            len == text@.len(),
            start <= i <= len,
            start <= 1,
            digits == unsigned_part(text@),
            digits == text@.skip(start as int),
            limit == 0x1_0000_0000_0000_0000u128,
            magnitude <= limit,
            magnitude == digits_value(digits.take(i - start)),
            all_digits(digits.take(i - start)),
        decreases len - i,
    {
        let byte = text[i];
        assert(byte == digits[i - start]);
        if byte < ASCII_ZERO || byte > 0x39 {
            assert(!is_digit(digits[i - start]));
            return None;
        }
        let ghost longer = digits.take(i - start + 1);
        assert(longer.drop_last() =~= digits.take(i - start));
        assert(longer.last() == byte);
        magnitude = magnitude * 10 + (byte - ASCII_ZERO) as u128;
        assert(all_digits(longer)) by {
            assert forall|j: int| 0 <= j < longer.len() implies is_digit(
                #[trigger] longer[j],
            ) by {
                if j < i - start {
                    assert(digits.take(i - start)[j] == longer[j]);
                }
            }
        }
        if magnitude > limit {
            proof {
                if all_digits(digits) {
                    lemma_digits_value_prefix(digits, i - start + 1);
                }
            }
            return None;
        }
        i += 1;
    }
    assert(digits.take(len - start) =~= digits);
    let value: i128 = if negative {
        -(magnitude as i128)
    } else {
        magnitude as i128
    };
    if value < i64::MIN as i128 || value > i64::MAX as i128 {
        return None;
    }
    Some(value as i64)
}

/// One digit stands for the number it shows, and no digits for zero.
pub proof fn law_digit_shows_its_number(byte: u8)
    requires
        0x30 <= byte <= 0x39,
    ensures
        digits_value(seq![byte]) == byte - 0x30,
        digits_value(Seq::<u8>::empty()) == 0,
{
    assert(seq![byte].drop_last() =~= Seq::<u8>::empty());
    assert(digits_value(seq![byte].drop_last()) == 0);
}

/// Digits are positional: digits put before others count ten times as much for each of these.
pub proof fn law_digits_are_positional(front: Seq<u8>, back: Seq<u8>)
    requires
        forall|i: int| 0 <= i < front.len() ==> 0x30 <= #[trigger] front[i] <= 0x39,
        forall|i: int| 0 <= i < back.len() ==> 0x30 <= #[trigger] back[i] <= 0x39,
    ensures
        digits_value(front + back) == digits_value(front) * pow(10, back.len()) + digits_value(
            back,
        ),
    decreases back.len(),
{
    reveal(pow);
    if back.len() == 0 {
        assert(front + back =~= front);
        assert(pow(10, 0) == 1);
    } else {
        let less = back.drop_last();
        let last = back.last() - 0x30;
        assert(0x30 <= back[back.len() - 1] <= 0x39);
        law_digits_are_positional(front, less);
        assert((front + back).drop_last() =~= front + less);
        assert((front + back).last() == back.last());
        let f = digits_value(front) as int;
        let b = digits_value(less) as int;
        let p = pow(10, less.len());
        assert(pow(10, back.len()) == 10 * p);
        assert((f * p + b) * 10 + last == f * (10 * p) + (b * 10 + last)) by (nonlinear_arith);
    }
}

/// The texts that stand for an integer, and no others: digits, which may have a plus or a
/// minus sign before them, whose number lies between -2^63 and 2^63 - 1. A minus sign makes
/// the number negative.
pub proof fn law_integer_texts(digits: Seq<u8>)
    requires
        digits.len() > 0,
        forall|i: int| 0 <= i < digits.len() ==> 0x30 <= #[trigger] digits[i] <= 0x39,
    ensures
        ({
            let n = digits_value(digits) as int;
            let least = if n <= 0x8000_0000_0000_0000 {
                Some(-n)
            } else {
                None
            };
            let most = if n <= 0x7fff_ffff_ffff_ffff {
                Some(n)
            } else {
                None
            };
            &&& integer_value(digits) == most
            &&& integer_value(seq![0x2bu8] + digits) == most
            &&& integer_value(seq![0x2du8] + digits) == least
        }),
{
    assert(0x30 <= digits[0] <= 0x39);
    assert((seq![0x2bu8] + digits).skip(1) =~= digits);
    assert((seq![0x2du8] + digits).skip(1) =~= digits);
}

/// A text with anything else in it, or without a digit, stands for no integer.
pub proof fn law_other_texts_are_no_integers(text: Seq<u8>, i: int)
    requires
        text.len() == 0 || {
            &&& 0 <= i < text.len()
            &&& !(0x30 <= text[i] <= 0x39)
            &&& !(i == 0 && text.len() > 1 && (text[0] == 0x2b || text[0] == 0x2d))
        },
    ensures
        integer_value(text) is None,
{
    if text.len() > 0 {
        let digits = unsigned_part(text);
        if has_sign(text) {
            if text.len() > 1 {
                assert(digits[i - 1] == text[i]);
            }
        } else {
            assert(digits[i] == text[i]);
        }
    }
}

/// The decimal form of a number is made of digits, stands for that number, and begins with
/// a zero only where it is that one digit.
pub proof fn law_decimal_form_has_no_leading_zero(n: nat)
    ensures
        decimal(n).len() >= 1,
        forall|i: int| 0 <= i < decimal(n).len() ==> 0x30 <= #[trigger] decimal(n)[i] <= 0x39,
        digits_value(decimal(n)) == n,
        decimal(n)[0] == 0x30 ==> decimal(n).len() == 1,
    decreases n,
{
    lemma_decimal_value(n);
    assert forall|i: int| 0 <= i < decimal(n).len() implies 0x30 <= #[trigger] decimal(n)[i]
        <= 0x39 by {
        assert(is_digit(decimal(n)[i]));
    }
    if n >= 10 {
        law_decimal_form_has_no_leading_zero(n / 10);
        assert(decimal(n)[0] == decimal(n / 10)[0]);
        if n < 100 {
            assert(decimal(n / 10) == seq![(0x30 + n / 10) as u8]);
        } else {
            lemma_decimal_value(n / 10 / 10);
            assert(decimal(n / 10).len() == decimal(n / 10 / 10).len() + 1);
        }
    }
}

/// The decimal form of an integer is the one text that stands for it and is no longer than
/// any other.
pub proof fn law_decimal_form_is_canonical(n: int, text: Seq<u8>)
    requires
        -0x8000_0000_0000_0000 <= n <= 0x7fff_ffff_ffff_ffff,
    ensures
        integer_value(signed_decimal(n)) == Some(n),
        integer_value(text) == Some(n) ==> signed_decimal(n).len() <= text.len(),
        n >= 0 ==> signed_decimal(n) == decimal(n as nat),
{
    lemma_integer_round_trip(n as i64);
    lemma_signed_decimal_is_shortest(text);
}

} // verus!
