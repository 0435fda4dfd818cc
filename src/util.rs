//! Small integer helpers.
use vstd::prelude::*;
use vstd::arithmetic::power2::{pow2, lemma_pow2_unfold, lemma_pow2_pos};

verus! {

/// `n` is two raised to some natural exponent.
pub open spec fn is_pow2_value(n: nat) -> bool {
    exists|k: nat| pow2(k) == n
}

proof fn lemma_bits_odd(n: u64)
    requires
        n > 1,
        n % 2 == 1,
    ensures
        n & ((n - 1) as u64) != 0,
{
    assert(n > 1 && n % 2 == 1 ==> n & ((n - 1) as u64) != 0) by (bit_vector);
}

proof fn lemma_bits_even(n: u64)
    requires
        n > 1,
        n % 2 == 0,
    ensures
        (n & ((n - 1) as u64) == 0) == ((n / 2) & ((n / 2 - 1) as u64) == 0),
{
    assert(n > 1 && n % 2 == 0 ==> ((n & ((n - 1) as u64) == 0) == ((n / 2) & ((n / 2 - 1) as u64) == 0)))
        by (bit_vector);
}

/// The bit trick `n & (n - 1) == 0` characterises the positive powers of two.
proof fn lemma_bit_trick(n: u64)
    requires
        n > 0,
    ensures
        (n & ((n - 1) as u64) == 0) == is_pow2_value(n as nat),
    decreases n,
{
    if n == 1 {
        assert(1u64 & 0u64 == 0) by (bit_vector);
        assert(pow2(0) == 1) by {
            vstd::arithmetic::power2::lemma_pow2(0);
            vstd::arithmetic::power::lemma_pow0(2);
        }
    } else if n % 2 == 1 {
        lemma_bits_odd(n);
        if is_pow2_value(n as nat) {
            let k = choose|k: nat| pow2(k) == n as nat;
            if k == 0 {
                vstd::arithmetic::power2::lemma_pow2(0);
                vstd::arithmetic::power::lemma_pow0(2);
            } else {
                lemma_pow2_unfold(k);
            }
        }
    } else {
        let m: u64 = n / 2;
        lemma_bits_even(n);
        lemma_bit_trick(m);
        if is_pow2_value(m as nat) {
            let k = choose|k: nat| pow2(k) == m as nat;
            lemma_pow2_unfold(k + 1);
            assert(pow2(k + 1) == n as nat);
        }
        if is_pow2_value(n as nat) {
            let k = choose|k: nat| pow2(k) == n as nat;
            if k == 0 {
                vstd::arithmetic::power2::lemma_pow2(0);
                vstd::arithmetic::power::lemma_pow0(2);
            } else {
                lemma_pow2_unfold(k);
                assert(pow2((k - 1) as nat) == m as nat);
            }
        }
    }
}

/// Whether `n` is a power of two (1, 2, 4, ...); zero is not.
pub fn is_power_of_2(n: usize) -> (r: bool)
    ensures
        r == is_pow2_value(n as nat),
{
    if n == 0 {
        proof {
            if is_pow2_value(0) {
                let k = choose|k: nat| pow2(k) == 0;
                lemma_pow2_pos(k);
            }
        }
        false
    } else {
        let m: u64 = n as u64;
        proof {
            lemma_bit_trick(m);
        }
        (m & (m - 1)) == 0
    }
}

} // verus!
