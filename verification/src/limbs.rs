//! Limb sequences: the positional notation behind [`crate::BigUnsigned`].
//!
//! A number is written in base [`BASE`] as a sequence of limbs, least
//! significant first. This module says what number a sequence denotes, when a
//! sequence is the canonical notation of its number, and proves the facts
//! about both that the arithmetic relies on.

use vstd::arithmetic::power::pow;
use vstd::prelude::*;

verus! {

/// The radix: a power of ten, so that each limb holds a fixed number of
/// decimal digits and a number is written limb by limb.
pub const BASE: u32 = 1_000_000_000;

/// The number of decimal digits that one limb holds.
pub const LIMB_DIGITS: usize = 9;

/// Every limb is a digit of the radix, that is, below [`BASE`].
pub open spec fn limbs_in_range(limbs: Seq<u32>) -> bool {
    forall|i: int| 0 <= i < limbs.len() ==> #[trigger] limbs[i] < BASE
}

/// The canonical notation of a number: every limb is in range and the most
/// significant limb is not zero. Zero is the empty sequence.
pub open spec fn canonical(limbs: Seq<u32>) -> bool {
    &&& limbs_in_range(limbs)
    &&& limbs.len() > 0 ==> limbs.last() != 0
}

/// The number that a limb sequence denotes:
/// `limbs[0] + limbs[1] * BASE + limbs[2] * BASE^2 + ...`.
pub open spec fn limbs_value(limbs: Seq<u32>) -> nat
    decreases limbs.len(),
{
    if limbs.len() == 0 {
        0
    } else {
        limbs[0] as nat + BASE as nat * limbs_value(limbs.drop_first())
    }
}

/// The limb at position `i`, where positions past the end hold zero.
pub open spec fn limb_or_zero(limbs: Seq<u32>, i: int) -> u32 {
    if 0 <= i < limbs.len() {
        limbs[i]
    } else {
        0
    }
}

/// The `n` least significant limbs, or all of them where there are fewer.
pub open spec fn low_limbs(limbs: Seq<u32>, n: int) -> Seq<u32> {
    if n < limbs.len() {
        limbs.take(n)
    } else {
        limbs
    }
}

/// The radix is ten to the power [`LIMB_DIGITS`].
pub proof fn lemma_base_is_power_of_ten()
    ensures
        pow(10, LIMB_DIGITS as nat) == BASE,
{
    reveal_with_fuel(pow, 10);
}

/// A new most significant limb `x` adds `x * BASE^len` to the value.
pub proof fn lemma_value_push(limbs: Seq<u32>, x: u32)
    ensures
        limbs_value(limbs.push(x)) == limbs_value(limbs) + x * pow(BASE as int, limbs.len()),
    decreases limbs.len(),
{
    let pushed = limbs.push(x);
    if limbs.len() == 0 {
        assert(pushed.drop_first() =~= limbs);
        assert(limbs_value(limbs) == 0);
        assert(limbs_value(pushed) == x + BASE * limbs_value(pushed.drop_first()));
        assert(pow(BASE as int, 0) == 1) by {
            reveal(pow);
        }
    } else {
        let rest = limbs.drop_first();
        let p = pow(BASE as int, rest.len());
        let v = limbs_value(rest) as int;
        assert(pushed.drop_first() =~= rest.push(x));
        lemma_value_push(rest, x);
        assert(limbs_value(pushed) == limbs[0] + BASE * (v + x * p));
        assert(pow(BASE as int, limbs.len()) == BASE * p) by {
            reveal(pow);
        }
        assert(BASE * (v + x * p) == BASE * v + x * (BASE * p)) by (nonlinear_arith);
    }
}

/// Taking one more low limb adds that limb at its position; past the end it
/// adds nothing.
pub proof fn lemma_value_low_limbs_step(limbs: Seq<u32>, i: int)
    requires
        0 <= i,
    ensures
        limbs_value(low_limbs(limbs, i + 1)) == limbs_value(low_limbs(limbs, i)) + limb_or_zero(
            limbs,
            i,
        ) * pow(BASE as int, i as nat),
{
    if i < limbs.len() {
        assert(low_limbs(limbs, i + 1) =~= limbs.take(i).push(limbs[i]));
        lemma_value_push(limbs.take(i), limbs[i]);
    } else {
        assert(0 * pow(BASE as int, i as nat) == 0) by (nonlinear_arith);
    }
}

/// A canonical sequence with at least one limb denotes a positive number.
pub proof fn lemma_value_positive(limbs: Seq<u32>)
    requires
        canonical(limbs),
        limbs.len() > 0,
    ensures
        limbs_value(limbs) > 0,
    decreases limbs.len(),
{
    let rest = limbs.drop_first();
    if rest.len() == 0 {
        assert(limbs.last() == limbs[0]);
    } else {
        assert(rest.last() == limbs.last());
        lemma_value_positive(rest);
        assert(BASE as nat * limbs_value(rest) > 0) by (nonlinear_arith)
            requires
                limbs_value(rest) > 0,
        ;
    }
}

/// A number has one canonical notation only.
pub proof fn lemma_canonical_unique(a: Seq<u32>, b: Seq<u32>)
    requires
        canonical(a),
        canonical(b),
        limbs_value(a) == limbs_value(b),
    ensures
        a == b,
    decreases a.len(),
{
    if a.len() == 0 {
        if b.len() > 0 {
            lemma_value_positive(b);
        }
        assert(a =~= b);
    } else if b.len() == 0 {
        lemma_value_positive(a);
    } else {
        let ra = a.drop_first();
        let rb = b.drop_first();
        let va = limbs_value(ra) as int;
        let vb = limbs_value(rb) as int;
        assert(a[0] == b[0] && va == vb) by (nonlinear_arith)
            requires
                a[0] + BASE * va == b[0] + BASE * vb,
                a[0] < BASE,
                b[0] < BASE,
                0 <= va,
                0 <= vb,
        ;
        assert(ra.len() > 0 ==> ra.last() == a.last());
        assert(rb.len() > 0 ==> rb.last() == b.last());
        lemma_canonical_unique(ra, rb);
        assert(a =~= seq![a[0]] + ra);
        assert(b =~= seq![b[0]] + rb);
    }
}

} // verus!
