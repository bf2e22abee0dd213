//! Powers of ten.

use vstd::prelude::*;

verus! {

/// `10^k` for `k >= 0`, `1` below that.
pub open spec fn pow10(k: int) -> int
    decreases k,
{
    if k <= 0 {
        1
    } else {
        10 * pow10(k - 1)
    }
}

/// A power of ten is at least one.
pub proof fn lemma_pow10_positive(k: int)
    ensures
        pow10(k) >= 1,
    decreases k,
{
    if k > 0 {
        lemma_pow10_positive(k - 1);
    }
}

/// Powers of ten grow with the exponent.
pub proof fn lemma_pow10_monotone(a: int, b: int)
    requires
        a <= b,
    ensures
        pow10(a) <= pow10(b),
    decreases b - a,
{
    lemma_pow10_positive(a);
    if a < b {
        lemma_pow10_monotone(a, b - 1);
        lemma_pow10_positive(b - 1);
    }
}

/// Some powers of ten written out.
pub proof fn lemma_pow10_values()
    ensures
        pow10(22) == 10_000_000_000_000_000_000_000,
        pow10(38) == 100_000_000_000_000_000_000_000_000_000_000_000_000,
        pow10(39) == 1_000_000_000_000_000_000_000_000_000_000_000_000_000,
{
    assert(pow10(11) == 100_000_000_000) by {
        reveal_with_fuel(pow10, 12);
    }
    assert(pow10(22) == 10 * (10 * (10 * (10 * (10 * (10 * (10 * (10 * (10 * (10 * (10 * pow10(
        11,
    )))))))))))) by {
        reveal_with_fuel(pow10, 12);
    }
    assert(pow10(33) == 10 * (10 * (10 * (10 * (10 * (10 * (10 * (10 * (10 * (10 * (10 * pow10(
        22,
    )))))))))))) by {
        reveal_with_fuel(pow10, 12);
    }
    assert(pow10(38) == 10 * (10 * (10 * (10 * (10 * pow10(33)))))) by {
        reveal_with_fuel(pow10, 6);
    }
}

/// Computes `10^n`.
pub fn power_of_ten(n: u32) -> (p: u128)
    requires
        n <= 38,
    ensures
        p == pow10(n as int),
{
    let mut p: u128 = 1;
    let mut i: u32 = 0;
    while i < n
        invariant
            i <= n <= 38,
            p == pow10(i as int),
        decreases n - i,
    {
        proof {
            lemma_pow10_values();
            lemma_pow10_monotone(i as int + 1, 38);
        }
        p = p * 10;
        i = i + 1;
    }
    p
}

} // verus!
