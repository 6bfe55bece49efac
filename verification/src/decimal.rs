//! Decimal numbers as they stand on the wire: strings of ASCII digits.

use vstd::prelude::*;
use crate::text::{lemma_utf8_ascii, push_text, utf8};

verus! {

/// Whether `byte` is one of the ASCII digits `0` to `9`.
pub open spec fn is_digit(byte: u8) -> bool {
    48 <= byte <= 57
}

/// The number a string of decimal digits denotes, most significant digit
/// first. `None` for the empty string and for one that holds anything but
/// digits.
pub open spec fn decimal_value(digits: Seq<u8>) -> Option<nat>
    decreases digits.len(),
{
    if digits.len() == 0 {
        None
    } else if !is_digit(digits.last()) {
        None
    } else if digits.len() == 1 {
        Some((digits[0] - 48) as nat)
    } else {
        match decimal_value(digits.drop_last()) {
            Some(high) => Some(high * 10 + (digits.last() - 48) as nat),
            None => None,
        }
    }
}

/// [`decimal_value`] where it fits 64 bits.
pub open spec fn decimal_u64(digits: Seq<u8>) -> Option<u64> {
    match decimal_value(digits) {
        Some(value) => if value <= u64::MAX {
            Some(value as u64)
        } else {
            None
        },
        None => None,
    }
}

/// The number an unsigned integer literal denotes: decimal digits, which one
/// `+` may precede.
pub open spec fn unsigned_u64(literal: Seq<u8>) -> Option<u64> {
    if literal.len() > 0 && literal[0] == 43 {
        decimal_u64(literal.subrange(1, literal.len() as int))
    } else {
        decimal_u64(literal)
    }
}

/// The decimal digits of `n`, most significant first, with no leading zero.
pub open spec fn decimal_digits(n: nat) -> Seq<u8>
    decreases n,
{
    if n < 10 {
        seq![(48 + n) as u8]
    } else {
        decimal_digits(n / 10).push((48 + n % 10) as u8)
    }
}

/// One byte that is no digit leaves a string without a value.
pub proof fn lemma_no_value_with_nondigit(digits: Seq<u8>, k: int)
    requires
        0 <= k < digits.len(),
        !is_digit(digits[k]),
    ensures
        decimal_value(digits) is None,
    decreases digits.len(),
{
    if k < digits.len() - 1 {
        lemma_no_value_with_nondigit(digits.drop_last(), k);
    }
}

/// The value of a digit string bounds the value of each of its prefixes.
pub proof fn lemma_prefix_value(digits: Seq<u8>, k: int)
    requires
        0 < k <= digits.len(),
        decimal_value(digits) is Some,
    ensures
        decimal_value(digits.take(k)) is Some,
        decimal_value(digits.take(k))->0 <= decimal_value(digits)->0,
    decreases digits.len(),
{
    if k == digits.len() {
        assert(digits.take(k) =~= digits);
    } else {
        lemma_prefix_value(digits.drop_last(), k);
        assert(digits.drop_last().take(k) =~= digits.take(k));
    }
}

/// What [`decimal_digits`] writes is digits only, and at least one.
pub proof fn lemma_digits_are_digits(n: nat)
    ensures
        decimal_digits(n).len() >= 1,
        forall|i: int|
            0 <= i < decimal_digits(n).len() ==> is_digit(#[trigger] decimal_digits(n)[i]),
    decreases n,
{
    if n >= 10 {
        lemma_digits_are_digits(n / 10);
    }
}

/// Reading back what [`decimal_digits`] writes gives the number written.
pub proof fn lemma_value_of_digits(n: nat)
    ensures
        decimal_value(decimal_digits(n)) == Some(n),
    decreases n,
{
    if n >= 10 {
        lemma_value_of_digits(n / 10);
        assert(decimal_digits(n).drop_last() =~= decimal_digits(n / 10));
    }
}

/// Reads the decimal number that stands in `bytes` from `from` up to `to`.
pub fn parse_decimal(bytes: &[u8], from: usize, to: usize) -> (value: Option<u64>)
    requires
        from <= to <= bytes@.len(),
    ensures
        value == decimal_u64(bytes@.subrange(from as int, to as int)),
{
    let ghost digits = bytes@.subrange(from as int, to as int);
    if from == to {
        return None;
    }
    let mut acc: u64 = 0;
    let mut i: usize = from;
    while i < to
        invariant
            from <= i <= to <= bytes@.len(),
            from < to,
            digits == bytes@.subrange(from as int, to as int),
            i > from ==> decimal_value(digits.take(i - from)) == Some(acc as nat),
            i == from ==> acc == 0,
        decreases to - i,
    {
        let byte = bytes[i];
        if byte < 48 || byte > 57 {
            proof {
                lemma_no_value_with_nondigit(digits, i - from);
            }
            return None;
        }
        let digit: u64 = (byte - 48) as u64;
        proof {
            assert(digits.take(i + 1 - from).drop_last() =~= digits.take(i - from));
        }
        if acc > (u64::MAX - digit) / 10 {
            proof {
                if decimal_value(digits) is Some {
                    lemma_prefix_value(digits, i + 1 - from);
                }
            }
            return None;
        }
        acc = acc * 10 + digit;
        i = i + 1;
    }
    proof {
        assert(digits.take(to - from) =~= digits);
    }
    Some(acc)
}

/// Reads an unsigned integer literal: decimal digits, which one `+` may
/// precede.
pub fn parse_unsigned(literal: &str) -> (value: Option<u64>)
    ensures
        value == unsigned_u64(utf8(literal@)),
{
    let bytes = literal.as_bytes();
    let n = bytes.len();
    if n > 0 && bytes[0] == 43 {
        parse_decimal(bytes, 1, n)
    } else {
        proof {
            assert(bytes@.subrange(0, n as int) =~= bytes@);
        }
        parse_decimal(bytes, 0, n)
    }
}

/// The text of one decimal digit.
fn digit_text(digit: u8) -> (text: &'static str)
    requires
        digit < 10,
    ensures
        utf8(text@) == seq![(48 + digit) as u8],
{
    let text = match digit {
        0 => "0",
        1 => "1",
        2 => "2",
        3 => "3",
        4 => "4",
        5 => "5",
        6 => "6",
        7 => "7",
        8 => "8",
        _ => "9",
    };
    proof {
        reveal_strlit("0");
        reveal_strlit("1");
        reveal_strlit("2");
        reveal_strlit("3");
        reveal_strlit("4");
        reveal_strlit("5");
        reveal_strlit("6");
        reveal_strlit("7");
        reveal_strlit("8");
        reveal_strlit("9");
        lemma_utf8_ascii(text@);
    }
    text
}

/// Appends the decimal digits of `n` to `out`.
pub fn push_decimal(out: &mut String, n: usize)
    ensures
        utf8(final(out)@) == utf8(old(out)@) + decimal_digits(n as nat),
    decreases n,
{
    if n >= 10 {
        push_decimal(out, n / 10);
    }
    push_text(out, digit_text((n % 10) as u8));
}

} // verus!
