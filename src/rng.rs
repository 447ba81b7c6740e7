use vstd::prelude::*;

verus! {

/// Multiplier of the linear-congruential step.
pub const MULTIPLIER: u64 = 1103515245;

/// Increment of the linear-congruential step.
pub const INCREMENT: u64 = 12345;

/// Modulus of the linear-congruential step, 2^31.
pub const MODULUS: u64 = 2147483648;

/// The state that follows `state`: `(state * 1103515245 + 12345) mod 2^31`.
pub open spec fn next_state(state: int) -> int {
    (state * MULTIPLIER + INCREMENT) % (MODULUS as int)
}

/// One step of the generator. The state is threaded by the caller.
pub fn next_seed(state: u64) -> (r: u64)
    ensures
        r == next_state(state as int),
        r < MODULUS,
{
    let low = state % MODULUS;
    proof {
        let s = state as int;
        let m = MODULUS as int;
        let a = MULTIPLIER as int;
        vstd::arithmetic::div_mod::lemma_mod_bound(s, m);
        vstd::arithmetic::div_mod::lemma_mul_mod_noop_left(s, a, m);
        vstd::arithmetic::div_mod::lemma_add_mod_noop(s * a, INCREMENT as int, m);
        vstd::arithmetic::div_mod::lemma_add_mod_noop((s % m) * a, INCREMENT as int, m);
        vstd::arithmetic::div_mod::lemma_mod_twice(INCREMENT as int, m);
        assert(low * MULTIPLIER < 0x8000_0000u64 * 0x8000_0000u64) by (nonlinear_arith)
            requires low < 0x8000_0000u64;
    }
    (low * MULTIPLIER + INCREMENT) % MODULUS
}

} // verus!
