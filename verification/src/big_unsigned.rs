//! An unsigned integer of unbounded size.

use crate::limbs::{
    canonical, lemma_canonical_unique, lemma_value_low_limbs_step, lemma_value_push, limb_or_zero,
    limbs_in_range, limbs_value, low_limbs, BASE,
};
use vstd::arithmetic::power::{lemma_pow0, pow};
use vstd::prelude::*;
use vstd::std_specs::cmp::PartialEqSpecImpl;

verus! {

/// A non-negative integer of any size.
///
/// The number is held as limbs in base [`BASE`], least significant first, in
/// canonical notation: no limb reaches the base and the most significant limb
/// is not zero, so that zero is the empty sequence and every number has
/// exactly one representation.
#[derive(Debug)]
pub struct BigUnsigned {
    limbs: Vec<u32>,
}

impl View for BigUnsigned {
    type V = nat;

    /// The number that the value stands for.
    open spec fn view(&self) -> nat {
        limbs_value(self.limbs())
    }
}

impl BigUnsigned {
    /// The limbs of the representation, least significant first.
    pub closed spec fn limbs(&self) -> Seq<u32> {
        self.limbs@
    }

    /// The representation is canonical. Every value that executable code can
    /// hold satisfies this.
    #[verifier::type_invariant]
    pub open spec fn wf(&self) -> bool {
        canonical(self.limbs())
    }

    /// The value whose representation is `limbs`.
    pub(crate) fn from_limbs(limbs: Vec<u32>) -> (big: BigUnsigned)
        requires
            canonical(limbs@),
        ensures
            big.limbs() == limbs@,
    {
        BigUnsigned { limbs }
    }

    /// The limbs of the representation.
    pub(crate) fn as_limbs(&self) -> (limbs: &Vec<u32>)
        ensures
            limbs@ == self.limbs(),
            canonical(limbs@),
    {
        proof {
            use_type_invariant(self);
        }
        &self.limbs
    }

    /// The big integer equal to the machine integer `value`.
    pub fn from_small(value: u64) -> (big: BigUnsigned)
        ensures
            big@ == value,
            big.wf(),
    {
        let mut limbs: Vec<u32> = Vec::new();
        let mut rest: u64 = value;
        proof {
            lemma_pow0(BASE as int);
        }
        while rest > 0
            invariant
                limbs_in_range(limbs@),
                limbs_value(limbs@) + rest * pow(BASE as int, limbs@.len()) == value,
                rest == 0 && limbs@.len() > 0 ==> limbs@.last() != 0,
            decreases rest,
        {
            let limb: u32 = (rest % (BASE as u64)) as u32;
            let higher: u64 = rest / (BASE as u64);
            proof {
                let p = pow(BASE as int, limbs@.len());
                assert(limb == rest % 1_000_000_000);
                lemma_value_push(limbs@, limb);
                assert(pow(BASE as int, (limbs@.len() + 1) as nat) == BASE * p) by {
                    reveal(pow);
                }
                assert(limb * p + higher * (BASE * p) == rest * p) by (nonlinear_arith)
                    requires
                        rest == higher * BASE + limb,
                ;
            }
            limbs.push(limb);
            rest = higher;
        }
        BigUnsigned { limbs }
    }

    /// The sum of the two numbers, as a new value.
    ///
    /// Limbs are added from the least significant up, each with the carry of
    /// the one before; where one operand has run out its limbs count as zero,
    /// and a carry out of the last position becomes one more limb.
    pub fn add(&self, other: &BigUnsigned) -> (sum: BigUnsigned)
        ensures
            sum@ == self@ + other@,
            sum.wf(),
    {
        proof {
            use_type_invariant(self);
            use_type_invariant(other);
            lemma_pow0(BASE as int);
        }
        let len_a: usize = self.limbs.len();
        let len_b: usize = other.limbs.len();
        let len: usize = if len_a < len_b { len_b } else { len_a };
        let mut limbs: Vec<u32> = Vec::with_capacity(len);
        let mut carry: u32 = 0;
        let mut i: usize = 0;
        while i < len
            invariant
                i <= len,
                len_a == self.limbs@.len(),
                len_b == other.limbs@.len(),
                len == if len_a < len_b { len_b } else { len_a },
                limbs_in_range(self.limbs@),
                limbs_in_range(other.limbs@),
                limbs@.len() == i,
                limbs_in_range(limbs@),
                carry <= 1,
                limbs_value(limbs@) + carry * pow(BASE as int, i as nat) == limbs_value(
                    low_limbs(self.limbs@, i as int),
                ) + limbs_value(low_limbs(other.limbs@, i as int)),
                i > 0 && carry == 0 ==> limbs@[i - 1] >= limb_or_zero(self.limbs@, i - 1)
                    && limbs@[i - 1] >= limb_or_zero(other.limbs@, i - 1),
            decreases len - i,
        {
            let x: u32 = if i < len_a { self.limbs[i] } else { 0 };
            let y: u32 = if i < len_b { other.limbs[i] } else { 0 };
            let total: u32 = x + y + carry;
            let (limb, carry_out): (u32, u32) = if total >= BASE {
                (total - BASE, 1)
            } else {
                (total, 0)
            };
            proof {
                let p = pow(BASE as int, i as nat);
                lemma_value_push(limbs@, limb);
                lemma_value_low_limbs_step(self.limbs@, i as int);
                lemma_value_low_limbs_step(other.limbs@, i as int);
                assert(pow(BASE as int, (i + 1) as nat) == BASE * p) by {
                    reveal(pow);
                }
                assert(limb * p + carry_out * (BASE * p) == carry * p + x * p + y * p)
                    by (nonlinear_arith)
                    requires
                        limb + carry_out * BASE == x + y + carry,
                ;
            }
            limbs.push(limb);
            carry = carry_out;
            i = i + 1;
        }
        if carry != 0 {
            proof {
                lemma_value_push(limbs@, carry);
            }
            limbs.push(carry);
        }
        BigUnsigned { limbs }
    }
}

/// Two values that stand for the same number have the same limbs: the
/// representation of a number is unique.
pub proof fn lemma_equal_numbers_equal_limbs(a: BigUnsigned, b: BigUnsigned)
    requires
        a.wf(),
        b.wf(),
        a@ == b@,
    ensures
        a.limbs() == b.limbs(),
{
    lemma_canonical_unique(a.limbs(), b.limbs());
}

/// Addition is commutative: where `ab` is the sum of `a` and `b` and `ba`
/// the sum of `b` and `a`, the two are the same number with the same limbs.
pub proof fn lemma_add_commutative(
    a: BigUnsigned,
    b: BigUnsigned,
    ab: BigUnsigned,
    ba: BigUnsigned,
)
    requires
        ab.wf(),
        ba.wf(),
        ab@ == a@ + b@,
        ba@ == b@ + a@,
    ensures
        ab@ == ba@,
        ab.limbs() == ba.limbs(),
{
    lemma_equal_numbers_equal_limbs(ab, ba);
}

/// Addition is associative: where `left` is the sum of `ab = a + b` and `c`,
/// and `right` the sum of `a` and `bc = b + c`, the two are the same number
/// with the same limbs.
pub proof fn lemma_add_associative(
    a: BigUnsigned,
    b: BigUnsigned,
    c: BigUnsigned,
    ab: BigUnsigned,
    bc: BigUnsigned,
    left: BigUnsigned,
    right: BigUnsigned,
)
    requires
        left.wf(),
        right.wf(),
        ab@ == a@ + b@,
        bc@ == b@ + c@,
        left@ == ab@ + c@,
        right@ == a@ + bc@,
    ensures
        left@ == right@,
        left.limbs() == right.limbs(),
{
    lemma_equal_numbers_equal_limbs(left, right);
}

/// Zero is the identity of addition: the sum of `a` and a zero is the same
/// number as `a`, with the same limbs.
pub proof fn lemma_add_zero(a: BigUnsigned, zero: BigUnsigned, sum: BigUnsigned)
    requires
        a.wf(),
        sum.wf(),
        zero@ == 0,
        sum@ == a@ + zero@,
    ensures
        sum@ == a@,
        sum.limbs() == a.limbs(),
{
    lemma_equal_numbers_equal_limbs(sum, a);
}

impl Clone for BigUnsigned {
    /// A copy with the same limbs, and so the same number.
    fn clone(&self) -> (copy: BigUnsigned)
        ensures
            copy.limbs() == self.limbs(),
            copy@ == self@,
            copy.wf(),
    {
        proof {
            use_type_invariant(self);
        }
        BigUnsigned { limbs: self.limbs.clone() }
    }
}

impl PartialEq for BigUnsigned {
    /// Whether the two values stand for the same number. As the notation is
    /// canonical, that is the case exactly when their limbs agree.
    fn eq(&self, other: &BigUnsigned) -> (equal: bool) {
        proof {
            use_type_invariant(self);
            use_type_invariant(other);
            if self@ == other@ {
                lemma_canonical_unique(self.limbs@, other.limbs@);
            }
        }
        let len: usize = self.limbs.len();
        if len != other.limbs.len() {
            return false;
        }
        let mut i: usize = 0;
        while i < len
            invariant
                i <= len,
                len == self.limbs@.len(),
                len == other.limbs@.len(),
                self@ == other@ ==> self.limbs@ == other.limbs@,
                forall|j: int| 0 <= j < i ==> self.limbs@[j] == other.limbs@[j],
            decreases len - i,
        {
            if self.limbs[i] != other.limbs[i] {
                return false;
            }
            i = i + 1;
        }
        proof {
            assert(self.limbs@ =~= other.limbs@);
        }
        true
    }
}

impl Eq for BigUnsigned {

}

impl PartialEqSpecImpl for BigUnsigned {
    open spec fn obeys_eq_spec() -> bool {
        true
    }

    /// `==` compares the numbers.
    open spec fn eq_spec(&self, other: &BigUnsigned) -> bool {
        self@ == other@
    }
}

} // verus!
