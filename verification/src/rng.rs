//! SplitMix64: the small deterministic generator behind the noise helper.
use vstd::prelude::*;

verus! {

/// Increment added to the state before every draw (the 64-bit golden gamma).
pub const GOLDEN_GAMMA: u64 = 0x9e37_79b9_7f4a_7c15u64;

/// Multiplier of the first mixing round.
pub const MIX_MULTIPLIER_1: u64 = 0xbf58_476d_1ce4_e5b9u64;

/// Multiplier of the second mixing round.
pub const MIX_MULTIPLIER_2: u64 = 0x94d0_49bb_1331_11ebu64;

/// 2^64, the modulus of the state arithmetic.
pub open spec fn two_to_64() -> nat {
    0x1_0000_0000_0000_0000nat
}

/// `a * b` reduced modulo 2^64.
pub open spec fn mul_mod64(a: u64, b: u64) -> u64 {
    ((a as nat * b as nat) % two_to_64()) as u64
}

/// The state after one draw: `state + GOLDEN_GAMMA` modulo 2^64.
pub open spec fn advance(state: u64) -> u64 {
    ((state as nat + GOLDEN_GAMMA as nat) % two_to_64()) as u64
}

/// The output function applied to an advanced state.
pub open spec fn mix(state: u64) -> u64 {
    let z1 = mul_mod64(state ^ (state >> 30u64), MIX_MULTIPLIER_1);
    let z2 = mul_mod64(z1 ^ (z1 >> 27u64), MIX_MULTIPLIER_2);
    z2 ^ (z2 >> 31u64)
}

/// The state after `n` draws from a generator seeded with `seed`.
pub open spec fn state_after(seed: u64, n: nat) -> u64
    decreases n,
{
    if n == 0 {
        seed
    } else {
        advance(state_after(seed, (n - 1) as nat))
    }
}

/// The `k`-th value (counting from 0) drawn from a generator seeded with `seed`.
pub open spec fn draw(seed: u64, k: nat) -> u64 {
    mix(state_after(seed, k + 1))
}

/// After `n` draws the state is `seed + n * GOLDEN_GAMMA` modulo 2^64:
/// the generator walks a fixed arithmetic progression.
pub proof fn lemma_state_after(seed: u64, n: nat)
    ensures
        state_after(seed, n) as nat == (seed as nat + n * GOLDEN_GAMMA as nat) % two_to_64(),
    decreases n,
{
    let m = two_to_64() as int;
    let g = GOLDEN_GAMMA as int;
    if n == 0 {
        vstd::arithmetic::div_mod::lemma_small_mod(seed as nat, two_to_64());
    } else {
        let p = (n - 1) as nat;
        lemma_state_after(seed, p);
        let before = seed as int + p * g;
        assert(n * g == p * g + g) by (nonlinear_arith)
            requires
                n == p + 1,
        ;
        vstd::arithmetic::div_mod::lemma_add_mod_noop_right(g, before, m);
        assert((before % m + g) % m == (before + g) % m);
        assert(state_after(seed, n) as int == (state_after(seed, p) as int + g) % m);
    }
}

/// The `k`-th draw depends on nothing but the seed and `k`: it is the mixed
/// value of `seed + (k + 1) * GOLDEN_GAMMA` modulo 2^64.
pub proof fn lemma_draw(seed: u64, k: nat)
    ensures
        draw(seed, k) == mix(
            ((seed as nat + (k + 1) * GOLDEN_GAMMA as nat) % two_to_64()) as u64,
        ),
{
    lemma_state_after(seed, k + 1);
}

/// Inverse of `MIX_MULTIPLIER_1` modulo 2^64.
pub const MIX_INVERSE_1: u64 = 0x96de_1b17_3f11_9089u64;

/// Inverse of `MIX_MULTIPLIER_2` modulo 2^64.
pub const MIX_INVERSE_2: u64 = 0x3196_42b2_d24d_8ec3u64;

/// Multiplying by `c` modulo 2^64 is undone by multiplying by its inverse.
proof fn lemma_mul_mod64_undo(x: u64, c: u64, inv: u64)
    requires
        (c as nat * inv as nat) % two_to_64() == 1,
    ensures
        mul_mod64(mul_mod64(x, c), inv) == x,
{
    let m = two_to_64() as int;
    let xi = x as int;
    let ci = c as int;
    let ii = inv as int;
    vstd::arithmetic::div_mod::lemma_mul_mod_noop_left(xi * ci, ii, m);
    vstd::arithmetic::mul::lemma_mul_is_associative(xi, ci, ii);
    vstd::arithmetic::div_mod::lemma_mul_mod_noop_right(xi, ci * ii, m);
    vstd::arithmetic::div_mod::lemma_small_mod(x as nat, m as nat);
    assert(((xi * ci) % m) * ii % m == xi % m);
}

/// Multiplication by an invertible constant modulo 2^64 is injective.
proof fn lemma_mul_mod64_injective(a: u64, b: u64, c: u64, inv: u64)
    requires
        (c as nat * inv as nat) % two_to_64() == 1,
        mul_mod64(a, c) == mul_mod64(b, c),
    ensures
        a == b,
{
    lemma_mul_mod64_undo(a, c, inv);
    lemma_mul_mod64_undo(b, c, inv);
}

/// The output function is injective: distinct states give distinct outputs.
pub proof fn lemma_mix_injective(a: u64, b: u64)
    requires
        mix(a) == mix(b),
    ensures
        a == b,
{
    vstd::arithmetic::div_mod::lemma_fundamental_div_mod_converse(
        MIX_MULTIPLIER_1 as int * MIX_INVERSE_1 as int,
        two_to_64() as int,
        8125545580553827436,
        1,
    );
    vstd::arithmetic::div_mod::lemma_fundamental_div_mod_converse(
        MIX_MULTIPLIER_2 as int * MIX_INVERSE_2 as int,
        two_to_64() as int,
        2077064247507883091,
        1,
    );
    let a1 = mul_mod64(a ^ (a >> 30u64), MIX_MULTIPLIER_1);
    let b1 = mul_mod64(b ^ (b >> 30u64), MIX_MULTIPLIER_1);
    let a2 = mul_mod64(a1 ^ (a1 >> 27u64), MIX_MULTIPLIER_2);
    let b2 = mul_mod64(b1 ^ (b1 >> 27u64), MIX_MULTIPLIER_2);
    assert(a2 ^ (a2 >> 31u64) == b2 ^ (b2 >> 31u64) ==> a2 == b2) by (bit_vector);
    lemma_mul_mod64_injective(a1 ^ (a1 >> 27u64), b1 ^ (b1 >> 27u64), MIX_MULTIPLIER_2, MIX_INVERSE_2);
    let c1 = a1 ^ (a1 >> 27u64);
    let d1 = b1 ^ (b1 >> 27u64);
    assert(c1 == d1 ==> a1 == b1) by (bit_vector)
        requires
            c1 == a1 ^ (a1 >> 27u64),
            d1 == b1 ^ (b1 >> 27u64),
    ;
    lemma_mul_mod64_injective(a ^ (a >> 30u64), b ^ (b >> 30u64), MIX_MULTIPLIER_1, MIX_INVERSE_1);
    let c0 = a ^ (a >> 30u64);
    let d0 = b ^ (b >> 30u64);
    assert(c0 == d0 ==> a == b) by (bit_vector)
        requires
            c0 == a ^ (a >> 30u64),
            d0 == b ^ (b >> 30u64),
    ;
}

/// Two generators produce the same `k`-th draw only when their seeds are
/// equal; so distinct seeds give distinct sequences.
pub proof fn lemma_draw_injective(a: u64, b: u64, k: nat)
    requires
        draw(a, k) == draw(b, k),
    ensures
        a == b,
{
    lemma_mix_injective(state_after(a, k + 1), state_after(b, k + 1));
    lemma_state_after(a, k + 1);
    lemma_state_after(b, k + 1);
    let m = two_to_64() as int;
    let c = ((k + 1) * GOLDEN_GAMMA as nat) as int;
    let r = c % m;
    vstd::arithmetic::div_mod::lemma_add_mod_noop_right(a as int, c, m);
    vstd::arithmetic::div_mod::lemma_add_mod_noop_right(b as int, c, m);
    vstd::arithmetic::div_mod::lemma_mod_bound(c, m);
    let ai = a as int;
    let bi = b as int;
    if ai + r >= m {
        vstd::arithmetic::div_mod::lemma_fundamental_div_mod_converse(ai + r, m, 1, ai + r - m);
    } else {
        vstd::arithmetic::div_mod::lemma_fundamental_div_mod_converse(ai + r, m, 0, ai + r);
    }
    if bi + r >= m {
        vstd::arithmetic::div_mod::lemma_fundamental_div_mod_converse(bi + r, m, 1, bi + r - m);
    } else {
        vstd::arithmetic::div_mod::lemma_fundamental_div_mod_converse(bi + r, m, 0, bi + r);
    }
}

/// SplitMix64 pseudorandom generator.
#[derive(Clone, Copy, Debug)]
pub struct SplitMix64 {
    state: u64,
}

impl View for SplitMix64 {
    type V = u64;

    /// The internal state.
    closed spec fn view(&self) -> u64 {
        self.state
    }
}

impl SplitMix64 {
    /// A generator whose state is `seed`.
    pub fn new(seed: u64) -> (rng: Self)
        ensures
            rng@ == seed,
    {
        SplitMix64 { state: seed }
    }

    /// Advance the state by the golden gamma and return the mixed state.
    pub fn next_u64(&mut self) -> (out: u64)
        ensures
            final(self)@ == advance(old(self)@),
            out == mix(final(self)@),
    {
        self.state = self.state.wrapping_add(GOLDEN_GAMMA);
        let mut z = self.state;
        z = (z ^ (z >> 30)).wrapping_mul(MIX_MULTIPLIER_1);
        z = (z ^ (z >> 27)).wrapping_mul(MIX_MULTIPLIER_2);
        z ^ (z >> 31)
    }

    /// The top 24 bits of the next 64-bit draw: the numerator of a uniform
    /// sample `out / 2^24` in `[0, 1)`.
    pub fn next_u24(&mut self) -> (out: u32)
        ensures
            final(self)@ == advance(old(self)@),
            out == mix(final(self)@) >> 40u64,
            out < 0x100_0000,
    {
        let raw = self.next_u64();
        let value = raw >> 40;
        assert(raw >> 40u64 < 0x100_0000) by (bit_vector);
        value as u32
    }
}

} // verus!
