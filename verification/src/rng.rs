//! Deterministic pseudo-random generation.
//!
//! Generated text must be bit-identical across runs and platforms for a
//! fixed seed, so the generator is a fixed, fully specified mixing
//! function (SplitMix64) rather than an opaque system generator.
use vstd::prelude::*;

verus! {

/// Increment added to the state before each output (the SplitMix64 constant).
pub const GOLDEN_GAMMA: u64 = 0x9E3779B97F4A7C15;

pub const MIX_MUL_1: u64 = 0xBF58476D1CE4E5B9;

pub const MIX_MUL_2: u64 = 0x94D049BB133111EB;

/// The state reached after one draw from state `s`.
pub open spec fn next_state(s: u64) -> u64 {
    vstd::wrapping::u64_specs::wrapping_add(s, GOLDEN_GAMMA)
}

/// The value output when the generator's state is `s`: the SplitMix64
/// finalizer (xor-shift and multiply rounds).
pub open spec fn output_of(s: u64) -> u64 {
    let z1 = vstd::wrapping::u64_specs::wrapping_mul(s ^ (s >> 30u64), MIX_MUL_1);
    let z2 = vstd::wrapping::u64_specs::wrapping_mul(z1 ^ (z1 >> 27u64), MIX_MUL_2);
    z2 ^ (z2 >> 31u64)
}

/// The state after `k` draws from seed `seed`.
pub open spec fn state_after(seed: u64, k: nat) -> u64
    decreases k,
{
    if k == 0 {
        seed
    } else {
        next_state(state_after(seed, (k - 1) as nat))
    }
}

/// The value of the `k`-th draw (numbered from 0) from seed `seed`.
pub open spec fn draw(seed: u64, k: nat) -> u64 {
    output_of(state_after(seed, k + 1))
}

/// A deterministic pseudo-random generator with 64-bit state.
pub struct SmRng {
    state: u64,
}

impl View for SmRng {
    type V = u64;

    closed spec fn view(&self) -> u64 {
        self.state
    }
}

impl SmRng {
    pub fn from_seed(seed: u64) -> (r: SmRng)
        ensures
            r@ == seed,
    {
        SmRng { state: seed }
    }

    /// Advance the state by one step and return the output for the new state.
    pub fn next_u64(&mut self) -> (x: u64)
        ensures
            final(self)@ == next_state(old(self)@),
            x == output_of(next_state(old(self)@)),
    {
        self.state = self.state.wrapping_add(GOLDEN_GAMMA);
        let z0 = self.state;
        let z1 = (z0 ^ (z0 >> 30u64)).wrapping_mul(MIX_MUL_1);
        let z2 = (z1 ^ (z1 >> 27u64)).wrapping_mul(MIX_MUL_2);
        z2 ^ (z2 >> 31u64)
    }
}

/// Map a 64-bit draw to an index below `n`: the integer part of
/// `x / 2^64` scaled by `n`.
pub open spec fn spec_below(x: u64, n: nat) -> nat {
    (x as nat) * n / 0x1_0000_0000_0000_0000nat
}

/// Reduce a uniform 64-bit draw to a uniform index in `0..n`.
pub fn below(x: u64, n: usize) -> (i: usize)
    requires
        n > 0,
    ensures
        i == spec_below(x, n as nat),
        i < n,
{
    proof {
        assert((x as nat) * (n as nat) / 0x1_0000_0000_0000_0000nat < n as nat)
            by (nonlinear_arith)
            requires x < 0x1_0000_0000_0000_0000nat, n > 0,
        ;
    }
    (((x as u128) * (n as u128)) / 0x1_0000_0000_0000_0000u128) as usize
}

} // verus!
