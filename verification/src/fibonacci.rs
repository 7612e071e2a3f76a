//! The Fibonacci sequence: its definition, and the generator that computes
//! any term of it exactly.

use crate::big_unsigned::{lemma_equal_numbers_equal_limbs, BigUnsigned};
use crate::decimal::{decimal_digits, lemma_decimal_digits_len_monotonic};
use vstd::prelude::*;

verus! {

/// The Fibonacci numbers: `F(0) = 0`, `F(1) = 1`, and every later term is the
/// sum of the two before it.
pub open spec fn fib(n: nat) -> nat
    decreases n,
{
    if n < 2 {
        n
    } else {
        fib((n - 2) as nat) + fib((n - 1) as nat)
    }
}

/// The largest index whose Fibonacci number fits in 32 bits, and so in a
/// `usize` on every machine.
pub const MAX_SMALL_INDEX: usize = 47;

/// Every term from the third on is the sum of its two predecessors.
pub proof fn lemma_fib_recurrence(n: nat)
    ensures
        fib(n + 2) == fib(n) + fib(n + 1),
{
}

/// The generator obeys the recurrence: where `f0`, `f1` and `f2` are the terms
/// at `n`, `n + 1` and `n + 2`, and `sum` is the sum of the first two, `f2`
/// and `sum` are the same number with the same limbs.
pub proof fn lemma_fibonacci_recurrence(
    n: nat,
    f0: BigUnsigned,
    f1: BigUnsigned,
    f2: BigUnsigned,
    sum: BigUnsigned,
)
    requires
        f2.wf(),
        sum.wf(),
        f0@ == fib(n),
        f1@ == fib(n + 1),
        f2@ == fib(n + 2),
        sum@ == f0@ + f1@,
    ensures
        f2@ == sum@,
        f2.limbs() == sum.limbs(),
{
    lemma_fib_recurrence(n);
    lemma_equal_numbers_equal_limbs(f2, sum);
}

/// The sequence never decreases.
pub proof fn lemma_fib_monotonic(i: nat, j: nat)
    requires
        i <= j,
    ensures
        fib(i) <= fib(j),
    decreases j,
{
    if i < j {
        lemma_fib_monotonic(i, (j - 1) as nat);
        if j >= 2 {
            assert(fib(j) == fib((j - 2) as nat) + fib((j - 1) as nat));
        }
    }
}

/// A later term never has fewer decimal digits than an earlier one.
pub proof fn lemma_fib_digits_monotonic(earlier: nat, later: nat)
    requires
        earlier < later,
    ensures
        decimal_digits(fib(earlier)).len() <= decimal_digits(fib(later)).len(),
{
    lemma_fib_monotonic(earlier, later);
    lemma_decimal_digits_len_monotonic(fib(earlier), fib(later));
}

/// Up to [`MAX_SMALL_INDEX`] the terms fit in 32 bits.
pub proof fn lemma_fib_small(n: nat)
    requires
        n <= MAX_SMALL_INDEX,
    ensures
        fib(n) <= u32::MAX,
{
    assert(fib(6) == 8 && fib(7) == 13) by {
        reveal_with_fuel(fib, 8);
    }
    assert(fib(12) == 144 && fib(13) == 233) by {
        reveal_with_fuel(fib, 6);
    }
    assert(fib(18) == 2584 && fib(19) == 4181) by {
        reveal_with_fuel(fib, 6);
    }
    assert(fib(24) == 46368 && fib(25) == 75025) by {
        reveal_with_fuel(fib, 6);
    }
    assert(fib(30) == 832040 && fib(31) == 1346269) by {
        reveal_with_fuel(fib, 6);
    }
    assert(fib(36) == 14930352 && fib(37) == 24157817) by {
        reveal_with_fuel(fib, 6);
    }
    assert(fib(42) == 267914296 && fib(43) == 433494437) by {
        reveal_with_fuel(fib, 6);
    }
    assert(fib(47) == 2971215073) by {
        reveal_with_fuel(fib, 5);
    }
    lemma_fib_monotonic(n, 47);
}

/// The `n`-th Fibonacci number, exact for every index.
///
/// The generator keeps the pair `(F(k-1), F(k))` and advances it one index
/// per addition, so it makes `n - 1` additions for `n >= 1` and none for
/// `n = 0`.
pub fn fibonacci(n: usize) -> (result: BigUnsigned)
    ensures
        result@ == fib(n as nat),
        result.wf(),
{
    if n == 0 {
        return BigUnsigned::from_small(0);
    }
    let mut prev = BigUnsigned::from_small(0);
    let mut curr = BigUnsigned::from_small(1);
    let mut k: usize = 1;
    while k < n
        invariant
            1 <= k <= n,
            prev@ == fib((k - 1) as nat),
            curr@ == fib(k as nat),
            curr.wf(),
        decreases n - k,
    {
        let next = prev.add(&curr);
        prev = curr;
        curr = next;
        k = k + 1;
    }
    curr
}

/// The `n`-th Fibonacci number as a machine integer, by the recurrence
/// itself.
///
/// This is the definition run as written: the number of calls grows as fast
/// as the result, so it serves small indices only. [`fibonacci`] is the
/// generator to use. The result has to fit in a `usize`; by
/// [`lemma_fib_small`] every index up to [`MAX_SMALL_INDEX`] does so on any
/// machine.
pub fn recursive_fibonacci(n: usize) -> (result: usize)
    requires
        fib(n as nat) <= usize::MAX,
    ensures
        result == fib(n as nat),
    decreases n,
{
    if n < 2 {
        return n;
    }
    proof {
        lemma_fib_monotonic((n - 1) as nat, n as nat);
        lemma_fib_monotonic((n - 2) as nat, n as nat);
    }
    recursive_fibonacci(n - 1) + recursive_fibonacci(n - 2)
}

} // verus!
