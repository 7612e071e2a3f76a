//! Conversion between [`BigUnsigned`] and decimal text.

use crate::big_unsigned::BigUnsigned;
use crate::decimal::{
    all_decimal_digits, decimal_digits, decimal_value, digit_char, is_decimal, is_decimal_digit,
    lemma_decimal_digits_split, lemma_decimal_value_bound, lemma_decimal_value_concat,
    padded_digits,
};
use crate::limbs::{
    canonical, lemma_base_is_power_of_ten, lemma_value_positive, lemma_value_push, limbs_in_range,
    limbs_value, BASE, LIMB_DIGITS,
};
use vstd::arithmetic::power::{lemma_pow0, lemma_pow_increases, lemma_pow_multiplies, pow};
use vstd::prelude::*;
use vstd::string::*;

verus! {

/// The one-character text of the digit `d`.
fn digit_text(d: u32) -> (text: &'static str)
    requires
        d < 10,
    ensures
        text@ == seq![digit_char(d as nat)],
{
    proof {
        reveal_strlit("0");
        reveal_strlit("1");
        reveal_strlit("2");
        reveal_strlit("3");
        reveal_strlit("4");
        reveal_strlit("5");
        reveal_strlit("6");
        reveal_strlit("7");
        reveal_strlit("8");
        reveal_strlit("9");
    }
    match d {
        0 => "0",
        1 => "1",
        2 => "2",
        3 => "3",
        4 => "4",
        5 => "5",
        6 => "6",
        7 => "7",
        8 => "8",
        _ => "9",
    }
}

/// Appends the decimal digits of `n`, without leading zeros.
fn append_digits(text: &mut String, n: u32)
    ensures
        final(text)@ == old(text)@ + decimal_digits(n as nat),
    decreases n,
{
    if n >= 10 {
        append_digits(text, n / 10);
    }
    text.append(digit_text(n % 10));
}

/// Appends the last `width` decimal digits of `n`, with zeros in front where
/// `n` has fewer.
fn append_padded(text: &mut String, n: u32, width: usize)
    ensures
        final(text)@ == old(text)@ + padded_digits(n as nat, width as nat),
    decreases width,
{
    if width > 0 {
        append_padded(text, n / 10, width - 1);
        text.append(digit_text(n % 10));
    }
}

/// The bytes are the text, one byte for each character.
pub open spec fn bytes_of_text(bytes: Seq<u8>, text: Seq<char>) -> bool {
    &&& bytes.len() == text.len()
    &&& forall|i: int| 0 <= i < text.len() ==> #[trigger] bytes[i] == text[i] as u8
}

/// The limb that the digits from `start` up to `end` write.
fn parse_limb(bytes: &[u8], start: usize, end: usize, Ghost(text): Ghost<Seq<char>>) -> (limb:
    u32)
    requires
        start <= end <= bytes@.len(),
        end - start <= LIMB_DIGITS,
        bytes_of_text(bytes@, text),
        all_decimal_digits(text),
    ensures
        limb == decimal_value(text.subrange(start as int, end as int)),
        limb < BASE,
{
    let mut value: u64 = 0;
    let mut i: usize = start;
    proof {
        assert(decimal_value(text.subrange(start as int, start as int)) == 0);
        lemma_pow0(10);
    }
    while i < end
        invariant
            start <= i <= end <= bytes@.len(),
            end - start <= LIMB_DIGITS,
            bytes_of_text(bytes@, text),
            all_decimal_digits(text),
            value == decimal_value(text.subrange(start as int, i as int)),
            value < pow(10, (i - start) as nat),
        decreases end - i,
    {
        let digit: u64 = (bytes[i] - 48) as u64;
        proof {
            let read = text.subrange(start as int, i as int);
            let next = text.subrange(start as int, i + 1);
            assert(is_decimal_digit(text[i as int]));
            assert(next.drop_last() =~= read);
            assert(next.last() == text[i as int]);
            lemma_base_is_power_of_ten();
            lemma_pow_increases(10, (i - start) as nat, LIMB_DIGITS as nat);
            lemma_decimal_value_bound(next);
        }
        value = value * 10 + digit;
        i = i + 1;
    }
    proof {
        lemma_base_is_power_of_ten();
        lemma_pow_increases(10, (end - start) as nat, LIMB_DIGITS as nat);
    }
    value as u32
}

impl BigUnsigned {
    /// The number that `text` writes in decimal digits.
    ///
    /// The text is accepted if it is not empty and holds the digits `0` to
    /// `9` only; leading zeros are allowed. Any other text gives `None`.
    pub fn from_decimal_str(text: &str) -> (parsed: Option<BigUnsigned>)
        ensures
            parsed is Some <==> is_decimal(text@),
            parsed matches Some(number) ==> number@ == decimal_value(text@) && number.wf(),
    {
        if !text.is_ascii() {
            return None;
        }
        let bytes = text.as_bytes();
        let len: usize = bytes.len();
        proof {
            broadcast use is_ascii_spec_bytes;

            assert(bytes_of_text(bytes@, text@));
        }
        if len == 0 {
            return None;
        }
        let mut checked: usize = 0;
        while checked < len
            invariant
                checked <= len,
                len == bytes@.len(),
                bytes_of_text(bytes@, text@),
                is_ascii(text),
                all_decimal_digits(text@.take(checked as int)),
            decreases len - checked,
        {
            let byte: u8 = bytes[checked];
            if byte < 48 || byte > 57 {
                proof {
                    assert(!is_decimal_digit(text@[checked as int]));
                }
                return None;
            }
            proof {
                let seen = text@.take(checked + 1);
                assert forall|i: int| 0 <= i < seen.len() implies is_decimal_digit(
                    #[trigger] seen[i],
                ) by {
                    if i < checked {
                        assert(seen[i] == text@.take(checked as int)[i]);
                    }
                }
            }
            checked = checked + 1;
        }
        proof {
            assert(text@.take(len as int) =~= text@);
        }
        let mut limbs: Vec<u32> = Vec::new();
        let mut end: usize = len;
        proof {
            assert(decimal_value(text@.subrange(len as int, len as int)) == 0);
        }
        while end > 0
            invariant
                end <= len,
                len == bytes@.len(),
                bytes_of_text(bytes@, text@),
                all_decimal_digits(text@),
                limbs_in_range(limbs@),
                end > 0 ==> len - end == LIMB_DIGITS * limbs@.len(),
                limbs_value(limbs@) == decimal_value(text@.subrange(end as int, len as int)),
            decreases end,
        {
            let start: usize = if end > LIMB_DIGITS {
                end - LIMB_DIGITS
            } else {
                0
            };
            let limb: u32 = parse_limb(bytes, start, end, Ghost(text@));
            proof {
                let count = limbs@.len();
                let front = text@.subrange(start as int, end as int);
                let back = text@.subrange(end as int, len as int);
                assert(front + back =~= text@.subrange(start as int, len as int));
                lemma_decimal_value_concat(front, back);
                lemma_base_is_power_of_ten();
                lemma_pow_multiplies(10, LIMB_DIGITS as nat, count);
                lemma_value_push(limbs@, limb);
            }
            limbs.push(limb);
            end = start;
        }
        proof {
            assert(text@.subrange(0, len as int) =~= text@);
        }
        while limbs.len() > 0 && limbs[limbs.len() - 1] == 0
            invariant
                limbs_in_range(limbs@),
                limbs_value(limbs@) == decimal_value(text@),
            decreases limbs@.len(),
        {
            proof {
                let lower = limbs@.drop_last();
                assert(lower.push(0) =~= limbs@);
                lemma_value_push(lower, 0);
            }
            limbs.pop();
        }
        Some(BigUnsigned::from_limbs(limbs))
    }

    /// The number in decimal digits, most significant first, without leading
    /// zeros; zero is `"0"`.
    pub fn to_decimal_string(&self) -> (text: String)
        ensures
            text@ == decimal_digits(self@),
    {
        let limbs = self.as_limbs();
        let len: usize = limbs.len();
        let mut text = String::new();
        if len == 0 {
            text.append(digit_text(0));
            return text;
        }
        let mut i: usize = len - 1;
        append_digits(&mut text, limbs[i]);
        proof {
            let top = limbs@.skip(i as int);
            assert(top.drop_first() =~= Seq::<u32>::empty());
            assert(limbs_value(top.drop_first()) == 0);
            assert(limbs_value(top) == limbs@[i as int]);
        }
        while i > 0
            invariant
                i < len,
                len == limbs@.len(),
                canonical(limbs@),
                text@ == decimal_digits(limbs_value(limbs@.skip(i as int))),
            decreases i,
        {
            i = i - 1;
            proof {
                let lower = limbs@.skip(i as int);
                let upper = limbs@.skip(i + 1);
                assert(lower.drop_first() =~= upper);
                assert(upper.last() == limbs@.last());
                lemma_value_positive(upper);
                lemma_base_is_power_of_ten();
                lemma_decimal_digits_split(
                    limbs_value(upper),
                    limbs@[i as int] as nat,
                    LIMB_DIGITS as nat,
                );
                assert(limbs_value(upper) * BASE == BASE * limbs_value(upper))
                    by (nonlinear_arith);
            }
            append_padded(&mut text, limbs[i], LIMB_DIGITS);
        }
        proof {
            assert(limbs@.skip(0) =~= limbs@);
        }
        text
    }
}

} // verus!
