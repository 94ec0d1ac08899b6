//! Scaling by powers of ten, capped at `2^64`.
use crate::decimal::{lemma_capped_step, lemma_pow10_monotone, min_nat, pow10};
use vstd::prelude::*;

verus! {

pub open spec fn cap64() -> nat {
    0x1_0000_0000_0000_0000
}

pub proof fn lemma_pow10_20()
    ensures
        pow10(20) == 100_000_000_000_000_000_000,
        pow10(13) == 10_000_000_000_000,
{
    reveal_with_fuel(pow10, 21);
}

/// Multiplying by more than `10^20` saturates anything that is not zero.
pub proof fn lemma_mul_pow10_saturates(x: nat, u: nat)
    requires
        u >= 20,
    ensures
        min_nat(x * pow10(u), cap64()) == min_nat(x * pow10(20), cap64()),
{
    lemma_pow10_20();
    lemma_pow10_monotone(20, u);
    if x > 0 {
        assert(x * pow10(u) >= pow10(u)) by (nonlinear_arith)
            requires
                x >= 1,
        ;
        assert(x * pow10(20) >= pow10(20)) by (nonlinear_arith)
            requires
                x >= 1,
        ;
    }
}

/// `min(x * 10^u, 2^64)`.
pub fn mul_pow10_capped(x: u128, u: u128) -> (r: u128)
    requires
        x <= cap64(),
    ensures
        r == min_nat((x as nat) * pow10(u as nat), cap64()),
{
    let steps: u128 = if u < 20 {
        u
    } else {
        20
    };
    let mut y = x;
    let mut i: u128 = 0;
    assert(pow10(0) == 1);
    assert((x as nat) * 1 == x as nat);
    while i < steps
        invariant
            i <= steps <= 20,
            x <= cap64(),
            y == min_nat((x as nat) * pow10(i as nat), cap64()),
        decreases steps - i,
    {
        proof {
            lemma_capped_step((x as nat) * pow10(i as nat), 0, cap64());
            assert((x as nat) * pow10((i + 1) as nat) == ((x as nat) * pow10(i as nat)) * 10) by (nonlinear_arith)
                requires
                    pow10((i + 1) as nat) == 10 * pow10(i as nat),
            ;
        }
        let z = y * 10;
        y = if z < 0x1_0000_0000_0000_0000u128 {
            z
        } else {
            0x1_0000_0000_0000_0000u128
        };
        i = i + 1;
    }
    proof {
        if u >= 20 {
            lemma_mul_pow10_saturates(x as nat, u as nat);
        }
    }
    y
}

} // verus!
