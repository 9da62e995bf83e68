//! The 48-bit linear congruential generator that drives negative sampling.

use vstd::arithmetic::div_mod::{lemma_add_mod_noop, lemma_mod_mod};
use vstd::prelude::*;

verus! {

/// Multiplier of the generator.
pub const LCG_MULTIPLIER: u64 = 25214903917;

/// Increment of the generator.
pub const LCG_INCREMENT: u64 = 11;

/// Mask that keeps the low 48 bits of the state.
pub const LCG_MASK: u64 = 281474976710655;

/// `2^48`, the modulus of the generator.
pub open spec fn lcg_modulus() -> int {
    0x1_0000_0000_0000
}

/// One step of the generator: `(s * 25214903917 + 11) mod 2^48`.
#[verifier::opaque]
pub open spec fn lcg_step(s: u64) -> u64 {
    ((s * 25214903917 + 11) % lcg_modulus()) as u64
}

/// The state after `n` steps from `s`.
pub open spec fn lcg_iterate(s: u64, n: nat) -> u64
    decreases n,
{
    if n == 0 {
        s
    } else {
        lcg_step(lcg_iterate(s, (n - 1) as nat))
    }
}

/// `a + b` steps of the generator are `a` steps followed by `b` steps.
pub proof fn lemma_lcg_iterate_add(s: u64, a: nat, b: nat)
    ensures
        lcg_iterate(lcg_iterate(s, a), b) == lcg_iterate(s, a + b),
    decreases b,
{
    if b > 0 {
        lemma_lcg_iterate_add(s, a, (b - 1) as nat);
    }
}

/// The 32-bit word that a state hands to the sampler: bits 16 to 47.
pub open spec fn random_word_of(s: u64) -> u32 {
    (s >> 16u64) as u32
}

proof fn lemma_wrapped_step(s: u64, w: u64, v: u64)
    requires
        w == (s * 25214903917) % 0x1_0000_0000_0000_0000,
        v == (w + 11) % 0x1_0000_0000_0000_0000,
    ensures
        (v as int) % lcg_modulus() == (s * 25214903917 + 11) % lcg_modulus(),
{
    let big: int = 0x1_0000_0000_0000_0000;
    let m: int = lcg_modulus();
    assert(big == m * 0x1_0000);
    lemma_mod_mod(w as int + 11, m, 0x1_0000);
    lemma_mod_mod(s * 25214903917, m, 0x1_0000);
    lemma_add_mod_noop(w as int, 11, m);
    lemma_add_mod_noop(s * 25214903917, 11, m);
}

/// Advances the generator by one step.
pub fn next_random(cur_random: u64) -> (r: u64)
    ensures
        r == lcg_step(cur_random),
{
    let w = cur_random.wrapping_mul(LCG_MULTIPLIER);
    let v = w.wrapping_add(LCG_INCREMENT);
    let r = v & LCG_MASK;
    assert(v & 281474976710655u64 == v % 0x1_0000_0000_0000) by (bit_vector);
    proof {
        lemma_wrapped_step(cur_random, w, v);
        reveal(lcg_step);
    }
    r
}

/// The random word that a state contributes to a negative draw.
pub fn random_word(cur_random: u64) -> (r: u32)
    ensures
        r == random_word_of(cur_random),
{
    (cur_random >> 16u64) as u32
}

} // verus!
