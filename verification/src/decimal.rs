//! Decimal notation: the digits of a number, the number of a digit string,
//! and the proofs that the two undo each other.

use vstd::arithmetic::div_mod::lemma_fundamental_div_mod_converse;
use vstd::arithmetic::power::pow;
use vstd::prelude::*;

verus! {

/// The character that writes the digit `d`, for `d` below ten.
pub open spec fn digit_char(d: nat) -> char {
    ((d + 48) as u8) as char
}

/// The digit that the character `c` writes, for `c` from `'0'` to `'9'`.
pub open spec fn digit_value(c: char) -> nat {
    (c as u32 - 48) as nat
}

/// The character is one of `'0'` to `'9'`.
pub open spec fn is_decimal_digit(c: char) -> bool {
    '0' <= c <= '9'
}

/// Every character of the text is a decimal digit.
pub open spec fn all_decimal_digits(text: Seq<char>) -> bool {
    forall|i: int| 0 <= i < text.len() ==> is_decimal_digit(#[trigger] text[i])
}

/// The text writes a number: it is not empty and holds decimal digits only.
/// Leading zeros are allowed.
pub open spec fn is_decimal(text: Seq<char>) -> bool {
    text.len() > 0 && all_decimal_digits(text)
}

/// The text is the one way of writing its number without leading zeros: the
/// single digit `0`, or digits that start with another than `0`.
pub open spec fn is_canonical_decimal(text: Seq<char>) -> bool {
    is_decimal(text) && (text.len() == 1 || text[0] != '0')
}

/// The decimal digits of `n`, most significant first, without leading zeros;
/// zero is written `0`.
pub open spec fn decimal_digits(n: nat) -> Seq<char>
    decreases n,
{
    if n < 10 {
        seq![digit_char(n)]
    } else {
        decimal_digits(n / 10).push(digit_char(n % 10))
    }
}

/// The last `width` decimal digits of `n`, most significant first, with
/// zeros in front where `n` has fewer.
pub open spec fn padded_digits(n: nat, width: nat) -> Seq<char>
    decreases width,
{
    if width == 0 {
        Seq::empty()
    } else {
        padded_digits(n / 10, (width - 1) as nat).push(digit_char(n % 10))
    }
}

/// The number that a string of decimal digits writes, most significant digit
/// first. The empty string writes zero.
pub open spec fn decimal_value(text: Seq<char>) -> nat
    decreases text.len(),
{
    if text.len() == 0 {
        0
    } else {
        10 * decimal_value(text.drop_last()) + digit_value(text.last())
    }
}

/// The character of a digit is a decimal digit and writes that digit; it is
/// `0` for zero only.
pub proof fn lemma_digit_char_value(d: nat)
    requires
        d < 10,
    ensures
        is_decimal_digit(digit_char(d)),
        digit_value(digit_char(d)) == d,
        digit_char(d) == '0' <==> d == 0,
{
}

/// The digit of a decimal character is below ten and is written by that
/// character.
pub proof fn lemma_digit_value_char(c: char)
    requires
        is_decimal_digit(c),
    ensures
        digit_value(c) < 10,
        digit_char(digit_value(c)) == c,
{
}

/// The digits of a number form a canonical decimal text: at least one digit,
/// digits only, and no leading zero except for zero itself, which is `0`.
pub proof fn lemma_decimal_digits_canonical(n: nat)
    ensures
        is_canonical_decimal(decimal_digits(n)),
        decimal_digits(n)[0] == '0' <==> n == 0,
        n == 0 ==> decimal_digits(n) == seq!['0'],
    decreases n,
{
    if n < 10 {
        lemma_digit_char_value(n);
    } else {
        lemma_decimal_digits_canonical(n / 10);
        lemma_digit_char_value(n % 10);
    }
}

/// Reading the digits of a number gives the number back.
pub proof fn lemma_decimal_value_of_digits(n: nat)
    ensures
        decimal_value(decimal_digits(n)) == n,
    decreases n,
{
    let text = decimal_digits(n);
    if n < 10 {
        lemma_digit_char_value(n);
        assert(text.drop_last() =~= Seq::<char>::empty());
        assert(decimal_value(text.drop_last()) == 0);
    } else {
        lemma_digit_char_value(n % 10);
        lemma_decimal_value_of_digits(n / 10);
        assert(text.drop_last() =~= decimal_digits(n / 10));
    }
}

/// A text of digits that does not start with `0` writes a positive number.
pub proof fn lemma_decimal_value_positive(text: Seq<char>)
    requires
        is_decimal(text),
        text[0] != '0',
    ensures
        decimal_value(text) > 0,
    decreases text.len(),
{
    if text.len() > 1 {
        lemma_decimal_value_positive(text.drop_last());
    }
}

/// Writing the number of a canonical decimal text gives the text back.
pub proof fn lemma_digits_of_decimal_value(text: Seq<char>)
    requires
        is_canonical_decimal(text),
    ensures
        decimal_digits(decimal_value(text)) == text,
    decreases text.len(),
{
    let front = text.drop_last();
    lemma_digit_value_char(text.last());
    if text.len() == 1 {
        assert(decimal_value(front) == 0);
        assert(decimal_digits(decimal_value(text)) =~= text);
    } else {
        lemma_decimal_value_positive(front);
        lemma_digits_of_decimal_value(front);
        assert(front.push(text.last()) =~= text);
    }
}

/// Writing a number, reading the text and writing the result again gives
/// the same text: the digits of a number can be read, and they write the
/// number that was read.
pub proof fn lemma_decimal_round_trip(n: nat)
    ensures
        is_decimal(decimal_digits(n)),
        decimal_value(decimal_digits(n)) == n,
        decimal_digits(decimal_value(decimal_digits(n))) == decimal_digits(n),
{
    lemma_decimal_digits_canonical(n);
    lemma_decimal_value_of_digits(n);
}

/// A number made of a positive high part and `width` low digits is written
/// as the high part followed by the low digits, padded to `width`.
pub proof fn lemma_decimal_digits_split(high: nat, low: nat, width: nat)
    requires
        high > 0,
        low < pow(10, width),
    ensures
        decimal_digits((high * pow(10, width) + low) as nat) == decimal_digits(high)
            + padded_digits(low, width),
    decreases width,
{
    if width == 0 {
        assert(pow(10, 0) == 1) by {
            reveal(pow);
        }
        assert(high * 1 + low == high);
        assert(decimal_digits(high) + padded_digits(low, 0) =~= decimal_digits(high));
    } else {
        let p = pow(10, (width - 1) as nat);
        let n = high * pow(10, width) + low;
        assert(pow(10, width) == 10 * p) by {
            reveal(pow);
        }
        let q = high * p + low / 10;
        assert(n == 10 * q + low % 10 && low / 10 < p && q >= 1) by (nonlinear_arith)
            requires
                n == high * (10 * p) + low,
                low < 10 * p,
                high >= 1,
                0 <= low,
                q == high * p + low / 10,
        ;
        lemma_fundamental_div_mod_converse(n, 10, q, (low % 10) as int);
        lemma_decimal_digits_split(high, low / 10, (width - 1) as nat);
        assert(decimal_digits(n as nat) == decimal_digits(q as nat).push(digit_char(low % 10)));
        assert(decimal_digits(high) + padded_digits(low, width) =~= (decimal_digits(high)
            + padded_digits(low / 10, (width - 1) as nat)).push(digit_char(low % 10)));
    }
}

/// A larger number never has fewer digits.
pub proof fn lemma_decimal_digits_len_monotonic(a: nat, b: nat)
    requires
        a <= b,
    ensures
        decimal_digits(a).len() <= decimal_digits(b).len(),
    decreases b,
{
    if b >= 10 && a >= 10 {
        lemma_decimal_digits_len_monotonic(a / 10, b / 10);
    }
}

/// The number of two texts written one after the other: the first moves up
/// by as many decimal places as the second has digits.
pub proof fn lemma_decimal_value_concat(front: Seq<char>, back: Seq<char>)
    ensures
        decimal_value(front + back) == decimal_value(front) * pow(10, back.len())
            + decimal_value(back),
    decreases back.len(),
{
    if back.len() == 0 {
        assert(front + back =~= front);
        assert(pow(10, 0) == 1) by {
            reveal(pow);
        }
    } else {
        let p = pow(10, (back.len() - 1) as nat);
        let f = decimal_value(front) as int;
        let b = decimal_value(back.drop_last()) as int;
        assert((front + back).drop_last() =~= front + back.drop_last());
        lemma_decimal_value_concat(front, back.drop_last());
        assert(pow(10, back.len()) == 10 * p) by {
            reveal(pow);
        }
        assert(10 * (f * p + b) == f * (10 * p) + 10 * b) by (nonlinear_arith);
    }
}

/// A text of `k` digits writes a number below `10^k`.
pub proof fn lemma_decimal_value_bound(text: Seq<char>)
    requires
        all_decimal_digits(text),
    ensures
        decimal_value(text) < pow(10, text.len()),
    decreases text.len(),
{
    reveal(pow);
    if text.len() > 0 {
        lemma_decimal_value_bound(text.drop_last());
    }
}

} // verus!
