//! Self-contained deterministic RNG (SplitMix64).
//!
//! Panorama determinism must not depend on a third-party generator's stream, so a tiny, fully
//! specified generator drives both the fixed descriptor test-pair pattern and the per-pair RANSAC
//! sampling.

use vstd::prelude::*;

verus! {

/// The additive constant of SplitMix64 (the 64-bit golden-ratio gamma).
pub const GAMMA: u64 = 0x9E37_79B9_7F4A_7C15;

/// SplitMix64's output finalizer applied to a (new) state.
pub open spec fn spec_mix(s: u64) -> u64 {
    let z1 = vstd::wrapping::u64_specs::wrapping_mul(s ^ (s >> 30u64), 0xBF58_476D_1CE4_E5B9u64);
    let z2 = vstd::wrapping::u64_specs::wrapping_mul(z1 ^ (z1 >> 27u64), 0x94D0_49BB_1331_11EBu64);
    z2 ^ (z2 >> 31u64)
}

/// The state after one step: `s + GAMMA` modulo 2^64.
pub open spec fn spec_step(s: u64) -> u64 {
    vstd::wrapping::u64_specs::wrapping_add(s, GAMMA)
}

/// SplitMix64 generator. Deterministic given the seed.
pub struct SplitMix64 {
    pub state: u64,
}

impl SplitMix64 {
    /// A generator whose first output is the finalizer of `seed + GAMMA`.
    pub fn new(seed: u64) -> (r: Self)
        ensures
            r.state == seed,
    {
        SplitMix64 { state: seed }
    }

    /// Advance the state by `GAMMA` (wrapping) and return the finalized new state.
    pub fn next_u64(&mut self) -> (r: u64)
        ensures
            final(self).state == spec_step(old(self).state),
            r == spec_mix(final(self).state),
    {
        self.state = self.state.wrapping_add(GAMMA);
        let mut z = self.state;
        z = (z ^ (z >> 30)).wrapping_mul(0xBF58_476D_1CE4_E5B9);
        z = (z ^ (z >> 27)).wrapping_mul(0x94D0_49BB_1331_11EB);
        z ^ (z >> 31)
    }

    /// Uniform-ish integer in `[0, n)`: the next output reduced modulo `n`.
    pub fn gen_range(&mut self, n: usize) -> (r: usize)
        requires
            n > 0,
        ensures
            final(self).state == spec_step(old(self).state),
            r as int == spec_mix(final(self).state) as int % n as int,
            r < n,
    {
        let v = self.next_u64();
        (v % (n as u64)) as usize
    }
}

/// The state after `k` steps from `s`.
pub open spec fn spec_steps(s: u64, k: nat) -> u64
    decreases k,
{
    if k == 0 {
        s
    } else {
        spec_step(spec_steps(s, (k - 1) as nat))
    }
}

/// The `k`-th output (counting from 1) of the generator made by `SplitMix64::new(seed)`: each call
/// of `next_u64` steps the state once and returns the finalizer of the new state, so after `k`
/// calls the state is [`spec_steps`]`(seed, k)` and the `k`-th output is its finalizer. That state
/// is `seed + k·GAMMA` modulo 2^64, so the `k`-th output is the finalizer of that sum, whatever came
/// before; two generators made from one seed give the same stream.
pub proof fn law_kth_output(seed: u64, k: nat)
    ensures
        spec_steps(seed, k) as int == (seed as int + k * GAMMA as int) % two64(),
        k >= 1 ==> spec_mix(spec_steps(seed, k)) == spec_mix(((seed as int + k * GAMMA as int) % two64()) as u64),
    decreases k,
{
    if k == 0 {
        vstd::arithmetic::div_mod::lemma_small_mod(seed as nat, two64() as nat);
    } else {
        law_kth_output(seed, (k - 1) as nat);
        let prev = spec_steps(seed, (k - 1) as nat);
        let a = seed as int + (k - 1) * GAMMA as int;
        assert(spec_step(prev) as int == (prev as int + GAMMA as int) % two64());
        vstd::arithmetic::div_mod::lemma_add_mod_noop(a, GAMMA as int, two64());
        vstd::arithmetic::div_mod::lemma_small_mod(GAMMA as nat, two64() as nat);
        vstd::arithmetic::div_mod::lemma_mod_twice(a, two64());
        assert(a + GAMMA as int == seed as int + k * GAMMA as int) by (nonlinear_arith)
            requires
                a == seed as int + (k - 1) * GAMMA as int,
        ;
    }
}

// ── Inverting the generator ───────────────────────────────────────────────────────────────────
//
// Every state is reached (the state advances by an odd constant modulo 2^64) and the finalizer is
// a bijection, so every 64-bit output comes up within 2^64 steps. `pick4` relies on this to end.

/// 2^64.
pub open spec fn two64() -> int {
    0x1_0000_0000_0000_0000
}

/// The inverse of `GAMMA` modulo 2^64.
pub open spec fn gamma_inv() -> int {
    0xF1DE_83E1_9937_733D
}

/// The inverse of the finalizer.
pub open spec fn spec_unmix(t: u64) -> u64 {
    let z2 = t ^ (t >> 31u64) ^ (t >> 62u64);
    let z1x = vstd::wrapping::u64_specs::wrapping_mul(z2, 0x319642B2D24D8EC3u64);
    let z1 = z1x ^ (z1x >> 27u64) ^ (z1x >> 54u64);
    let sx = vstd::wrapping::u64_specs::wrapping_mul(z1, 0x96DE1B173F119089u64);
    sx ^ (sx >> 30u64) ^ (sx >> 60u64)
}

proof fn lemma_mul_inverse(a: u64, c: u64, cinv: u64)
    requires
        (c as int * cinv as int) % two64() == 1,
    ensures
        vstd::wrapping::u64_specs::wrapping_mul(vstd::wrapping::u64_specs::wrapping_mul(a, cinv), c) == a,
{
    let m = two64();
    let x = a as int * cinv as int;
    vstd::arithmetic::div_mod::lemma_mul_mod_noop_left(x, c as int, m);
    vstd::arithmetic::mul::lemma_mul_is_associative(a as int, cinv as int, c as int);
    vstd::arithmetic::div_mod::lemma_mul_mod_noop_right(a as int, cinv as int * c as int, m);
    vstd::arithmetic::mul::lemma_mul_is_commutative(cinv as int, c as int);
    vstd::arithmetic::div_mod::lemma_small_mod(a as nat, m as nat);
}

/// The finalizer undoes [`spec_unmix`]: every output value has a state that produces it.
pub proof fn lemma_mix_unmix(t: u64)
    ensures
        spec_mix(spec_unmix(t)) == t,
{
    let z2 = t ^ (t >> 31u64) ^ (t >> 62u64);
    let z1x = vstd::wrapping::u64_specs::wrapping_mul(z2, 0x319642B2D24D8EC3u64);
    let z1 = z1x ^ (z1x >> 27u64) ^ (z1x >> 54u64);
    let sx = vstd::wrapping::u64_specs::wrapping_mul(z1, 0x96DE1B173F119089u64);
    let s = sx ^ (sx >> 30u64) ^ (sx >> 60u64);
    assert(s ^ (s >> 30u64) == sx) by (bit_vector)
        requires
            s == sx ^ (sx >> 30u64) ^ (sx >> 60u64),
    ;
    lemma_mul_inverse(z1, 0xBF58_476D_1CE4_E5B9u64, 0x96DE1B173F119089u64);
    assert(z1 ^ (z1 >> 27u64) == z1x) by (bit_vector)
        requires
            z1 == z1x ^ (z1x >> 27u64) ^ (z1x >> 54u64),
    ;
    lemma_mul_inverse(z2, 0x94D0_49BB_1331_11EBu64, 0x319642B2D24D8EC3u64);
    assert(z2 ^ (z2 >> 31u64) == t) by (bit_vector)
        requires
            z2 == t ^ (t >> 31u64) ^ (t >> 62u64),
    ;
}

/// How many steps lead from state `from` to state `to`.
pub open spec fn steps_between(from: u64, to: u64) -> int {
    ((to as int - from as int) * gamma_inv()) % two64()
}

/// No steps lead from a state exactly to itself, and any other state is further on.
pub proof fn lemma_steps_zero(from: u64, to: u64)
    ensures
        0 <= steps_between(from, to) < two64(),
        steps_between(from, to) == 0 <==> from == to,
{
    let m = two64();
    let d = to as int - from as int;
    vstd::arithmetic::div_mod::lemma_mod_bound(d * gamma_inv(), m);
    if steps_between(from, to) == 0 {
        // d·γ⁻¹ ≡ 0, so d ≡ d·γ⁻¹·γ ≡ 0 (mod 2^64).
        let x = d * gamma_inv();
        vstd::arithmetic::div_mod::lemma_mul_mod_noop_left(x, GAMMA as int, m);
        vstd::arithmetic::mul::lemma_mul_is_associative(d, gamma_inv(), GAMMA as int);
        vstd::arithmetic::div_mod::lemma_mul_mod_noop_right(d, gamma_inv() * GAMMA as int, m);
        assert((gamma_inv() * GAMMA as int) % m == 1);
        assert((0 * GAMMA as int) % m == 0);
        assert(d % m == 0);
        vstd::arithmetic::div_mod::lemma_fundamental_div_mod(d, m);
        assert(-m < d < m);
        assert(d == m * (d / m));
        if d / m > 0 {
            vstd::arithmetic::mul::lemma_mul_inequality(1, d / m, m);
        } else if d / m < 0 {
            vstd::arithmetic::mul::lemma_mul_inequality(d / m, -1, m);
        }
    }
}

/// A step brings a state one step closer to any state that is not the current one.
pub proof fn lemma_steps_step(from: u64, to: u64)
    requires
        steps_between(from, to) >= 1,
    ensures
        steps_between(spec_step(from), to) == steps_between(from, to) - 1,
{
    let m = two64();
    let d = to as int - from as int;
    let next = spec_step(from);
    let c: int = if from as int + GAMMA as int > u64::MAX { 1 } else { 0 };
    assert(next as int == from as int + GAMMA as int - c * m);
    let d2 = to as int - next as int;
    assert(d2 == d - GAMMA as int + c * m);
    // d2·γ⁻¹ = d·γ⁻¹ − γ·γ⁻¹ + c·m·γ⁻¹, and γ·γ⁻¹ = 1 + q·m.
    let q: int = 10771413168148108919;
    assert(GAMMA as int * gamma_inv() == 1 + q * m);
    assert(d2 * gamma_inv() == d * gamma_inv() - 1 + (c * gamma_inv() - q) * m) by (nonlinear_arith)
        requires
            d2 == d - GAMMA as int + c * m,
            GAMMA as int * gamma_inv() == 1 + q * m,
    ;
    vstd::arithmetic::div_mod::lemma_mod_multiples_vanish(
        c * gamma_inv() - q,
        d * gamma_inv() - 1,
        m,
    );
    assert((m * (c * gamma_inv() - q) + (d * gamma_inv() - 1)) == d2 * gamma_inv());
    // (x − 1) mod m = (x mod m) − 1 when x mod m ≥ 1.
    let x = d * gamma_inv();
    vstd::arithmetic::div_mod::lemma_fundamental_div_mod(x, m);
    vstd::arithmetic::div_mod::lemma_mod_bound(x, m);
    let r = x % m;
    assert(x - 1 == m * (x / m) + (r - 1));
    vstd::arithmetic::div_mod::lemma_mod_multiples_vanish(x / m, r - 1, m);
    vstd::arithmetic::div_mod::lemma_small_mod((r - 1) as nat, m as nat);
}

} // verus!
