//! SplitMix64: a 64-bit state generator with a fixed algorithm, so that a replay with the
//! same seed is bit-identical.

use vstd::prelude::*;

verus! {

pub const SPLITMIX_GAMMA: u64 = 0x9E3779B97F4A7C15;

pub const SPLITMIX_MUL_1: u64 = 0xBF58476D1CE4E5B9;

pub const SPLITMIX_MUL_2: u64 = 0x94D049BB133111EB;

/// The state after one step: the state plus the golden gamma, modulo 2^64.
pub open spec fn splitmix_advance(state: u64) -> u64 {
    ((state as nat + SPLITMIX_GAMMA as nat) % 0x1_0000_0000_0000_0000) as u64
}

/// Multiplication modulo 2^64.
pub open spec fn mul_mod64(a: u64, b: u64) -> u64 {
    ((a as nat * b as nat) % 0x1_0000_0000_0000_0000) as u64
}

/// The output mix applied to an advanced state.
pub open spec fn splitmix_mix(z: u64) -> u64 {
    let z1 = mul_mod64(z ^ (z >> 30u64), SPLITMIX_MUL_1);
    let z2 = mul_mod64(z1 ^ (z1 >> 27u64), SPLITMIX_MUL_2);
    z2 ^ (z2 >> 31u64)
}

/// The state after `k` steps from `seed`.
pub open spec fn splitmix_state_after(seed: u64, k: nat) -> u64
    decreases k,
{
    if k == 0 {
        seed
    } else {
        splitmix_advance(splitmix_state_after(seed, (k - 1) as nat))
    }
}

/// The output of call number `k` (counting from zero) of a generator seeded with `seed`.
pub open spec fn splitmix_output(seed: u64, k: nat) -> u64 {
    splitmix_mix(splitmix_state_after(seed, k + 1))
}

/// Jumping ahead: after `k` calls the state is `seed + k * gamma` modulo 2^64, so the next
/// output is the first output of a generator seeded with
/// `seed.wrapping_add(k.wrapping_mul(gamma))`. Only the seed and the number of calls
/// decide an output, so generators with equal seeds give equal sequences.
pub proof fn law_splitmix_jump_ahead(seed: u64, k: u64)
    ensures
        splitmix_state_after(seed, k as nat) == seed.wrapping_add(k.wrapping_mul(SPLITMIX_GAMMA)),
        splitmix_output(seed, k as nat) == splitmix_output(seed.wrapping_add(k.wrapping_mul(SPLITMIX_GAMMA)), 0),
        forall|other: u64, j: nat| other == seed ==> #[trigger] splitmix_output(other, j) == splitmix_output(seed, j),
{
    let m: int = 0x1_0000_0000_0000_0000;
    lemma_state_after_closed(seed, k as nat);
    let x: int = (k as int * SPLITMIX_GAMMA as int) % m;
    assert(k.wrapping_mul(SPLITMIX_GAMMA) as int == x);
    vstd::arithmetic::div_mod::lemma_add_mod_noop_right(seed as int, k as int * SPLITMIX_GAMMA as int, m);
    assert(0 <= x < m);
    assert(seed.wrapping_add(k.wrapping_mul(SPLITMIX_GAMMA)) as int == (seed as int + x) % m);
    let s1 = seed.wrapping_add(k.wrapping_mul(SPLITMIX_GAMMA));
    assert(splitmix_state_after(s1, 0) == s1);
    assert(splitmix_state_after(s1, 1) == splitmix_advance(s1));
    assert(splitmix_state_after(seed, k as nat + 1) == splitmix_advance(splitmix_state_after(seed, k as nat)));
}

/// The state after `k` steps in closed form.
proof fn lemma_state_after_closed(seed: u64, k: nat)
    ensures
        splitmix_state_after(seed, k) as int == (seed as int + k * SPLITMIX_GAMMA as int) % 0x1_0000_0000_0000_0000,
    decreases k,
{
    let m: int = 0x1_0000_0000_0000_0000;
    if k == 0 {
        vstd::arithmetic::div_mod::lemma_small_mod(seed as nat, m as nat);
    } else {
        lemma_state_after_closed(seed, (k - 1) as nat);
        let prev: int = seed as int + (k - 1) * SPLITMIX_GAMMA as int;
        vstd::arithmetic::div_mod::lemma_add_mod_noop(prev, SPLITMIX_GAMMA as int, m);
        vstd::arithmetic::div_mod::lemma_small_mod(SPLITMIX_GAMMA as nat, m as nat);
        assert(prev + SPLITMIX_GAMMA as int == seed as int + k * SPLITMIX_GAMMA as int) by (nonlinear_arith)
            requires
                prev == seed as int + (k - 1) * SPLITMIX_GAMMA as int,
        ;
        let before = splitmix_state_after(seed, (k - 1) as nat);
        assert(splitmix_state_after(seed, k) as int == (before as int + SPLITMIX_GAMMA as int) % m);
    }
}

/// Deterministic pseudo-random generator.
#[derive(Clone, Debug)]
pub struct SplitMix64 {
    state: u64,
}

impl View for SplitMix64 {
    type V = u64;

    closed spec fn view(&self) -> u64 {
        self.state
    }
}

impl SplitMix64 {
    /// A generator whose state is the seed.
    pub fn new(seed: u64) -> (r: Self)
        ensures
            r@ == seed,
    {
        SplitMix64 { state: seed }
    }

    /// Advance the state by the gamma and return the mixed state.
    pub fn next_u64(&mut self) -> (r: u64)
        ensures
            final(self)@ == splitmix_advance(old(self)@),
            r == splitmix_mix(final(self)@),
    {
        self.state = self.state.wrapping_add(SPLITMIX_GAMMA);
        let z0 = self.state;
        let z1 = (z0 ^ (z0 >> 30)).wrapping_mul(SPLITMIX_MUL_1);
        let z2 = (z1 ^ (z1 >> 27)).wrapping_mul(SPLITMIX_MUL_2);
        z2 ^ (z2 >> 31)
    }
}

} // verus!
