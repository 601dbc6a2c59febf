//! A small deterministic pseudo-random stream for procedural matrix
//! construction. Randomness is an injectable capability here: the caller
//! passes a seed, the stream it determines is defined exactly by the spec
//! functions below, and two equal seeds give equal matrices.

use vstd::prelude::*;

verus! {

/// Multiplier of the linear congruential step.
pub const LCG_MUL: u64 = 6364136223846793005;

/// Increment of the linear congruential step.
pub const LCG_INC: u64 = 1442695040888963407;

/// The modulus of the 64-bit state: 2^64.
pub const LCG_RANGE: u128 = 0x1_0000_0000_0000_0000;

/// One step of the linear congruential generator.
pub open spec fn lcg_next(s: nat) -> nat {
    (((s * LCG_MUL + LCG_INC) as int) % (LCG_RANGE as int)) as nat
}

/// The generator state after `k` steps from `seed`.
pub open spec fn lcg_iter(seed: nat, k: nat) -> nat
    decreases k,
{
    if k == 0 {
        seed
    } else {
        lcg_next(lcg_iter(seed, (k - 1) as nat))
    }
}

/// The `k`-th element of the stream drawn from `seed`: the top 31 bits of
/// the `k + 1`-st state, a non-negative value below 2^31.
pub open spec fn rand_elem(seed: nat, k: nat) -> int {
    lcg_iter(seed, k + 1) as int / 0x2_0000_0000
}

/// One executable generator step.
pub(crate) fn lcg_step(s: u64) -> (r: u64)
    ensures
        r as nat == lcg_next(s as nat),
{
    let m = s.wrapping_mul(LCG_MUL);
    let r = m.wrapping_add(LCG_INC);
    proof {
        let range = LCG_RANGE as int;
        let prod = s as int * LCG_MUL as int;
        assert(m as int == prod % range);
        vstd::arithmetic::div_mod::lemma_add_mod_noop(prod, LCG_INC as int, range);
        vstd::arithmetic::div_mod::lemma_small_mod(LCG_INC as nat, range as nat);
        assert((m as int + LCG_INC as int) % range == (prod + LCG_INC as int) % range);
        vstd::arithmetic::div_mod::lemma_small_mod(
            (m as int + LCG_INC as int) as nat % (range as nat),
            range as nat,
        );
        assert(r as int == (m as int + LCG_INC as int) % range);
    }
    r
}

/// The executable value of the `k`-th element: states are advanced by the
/// caller, which passes the `k + 1`-st state in.
pub(crate) fn lcg_elem(state: u64) -> (r: i64)
    ensures
        r as int == state as int / 0x2_0000_0000,
        0 <= r < 0x8000_0000,
{
    (state / 0x2_0000_0000) as i64
}

} // verus!
