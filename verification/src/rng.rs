//! A tiny deterministic PRNG.
//!
//! HNSW construction is randomised (each vector is assigned a random layer), and
//! benchmarks generate random data. Both need to be *reproducible*: a given seed
//! must always produce the same index and the same numbers. SplitMix64 is small,
//! fast, and good enough for both jobs.

use crate::float::{Double, Single, DOUBLE_EXPONENT_STEP, DOUBLE_ONE, SINGLE_ONE};
use crate::exact::{double_one, gap};
use vstd::arithmetic::power2::pow2;
use vstd::prelude::*;

verus! {

/// The increment between two consecutive states.
pub const GAMMA: u64 = 0x9E37_79B9_7F4A_7C15;

/// The state that follows `state`.
pub open spec fn next_state(state: u64) -> u64 {
    state.wrapping_add(GAMMA)
}

/// The value drawn on reaching `state`.
pub open spec fn scramble(state: u64) -> u64 {
    let y = (state ^ (state >> 30)).wrapping_mul(0xBF58_476D_1CE4_E5B9);
    let z = (y ^ (y >> 27)).wrapping_mul(0x94D0_49BB_1331_11EB);
    z ^ (z >> 31)
}

/// The state `n` draws after `state`.
pub open spec fn state_after(state: u64, n: nat) -> u64
    decreases n,
{
    if n == 0 {
        state
    } else {
        next_state(state_after(state, (n - 1) as nat))
    }
}

/// The midpoint of the `b`-th of `2^53` equal steps of the unit interval,
/// `(2b + 1) / 2^54`, rounded to nearest. The last midpoint would round up to
/// one; it is the largest double below one instead.
pub open spec fn open_unit_bits(b: nat) -> int {
    let rounded = Double::nat_bits(2 * b + 1) - 54 * DOUBLE_EXPONENT_STEP;
    if rounded < DOUBLE_ONE {
        rounded
    } else {
        DOUBLE_ONE - 1
    }
}

/// A [SplitMix64](https://prng.di.unimi.it/splitmix64.c) pseudo-random generator.
#[derive(Debug)]
pub struct SplitMix64 {
    state: u64,
}

impl View for SplitMix64 {
    type V = u64;

    closed spec fn view(&self) -> u64 {
        self.state
    }
}

impl Clone for SplitMix64 {
    fn clone(&self) -> (copy: SplitMix64)
        ensures
            copy@ == self@,
    {
        SplitMix64 { state: self.state }
    }
}

impl SplitMix64 {
    /// Create a generator seeded with `seed`.
    pub fn new(seed: u64) -> (rng: SplitMix64)
        ensures
            rng@ == seed,
    {
        SplitMix64 { state: seed }
    }

    /// The state, from which a generator can be created that continues this one.
    pub fn state(&self) -> (state: u64)
        ensures
            state == self@,
    {
        self.state
    }

    /// Draw the next raw 64-bit value.
    pub fn next_u64(&mut self) -> (value: u64)
        ensures
            final(self)@ == next_state(old(self)@),
            value == scramble(final(self)@),
    {
        self.state = self.state.wrapping_add(GAMMA);
        let mut z: u64 = self.state;
        z = (z ^ (z >> 30)).wrapping_mul(0xBF58_476D_1CE4_E5B9);
        z = (z ^ (z >> 27)).wrapping_mul(0x94D0_49BB_1331_11EB);
        z ^ (z >> 31)
    }

    /// Draw a uniform single-precision number in `[0, 1)` from the top 24 random
    /// bits.
    pub fn next_f32(&mut self) -> (value: Single)
        ensures
            final(self)@ == next_state(old(self)@),
            value.is_ratio((scramble(final(self)@) >> 40) as nat, 24),
            0 <= value.bits < SINGLE_ONE,
    {
        let drawn: u64 = self.next_u64();
        assert(drawn >> 40 < 0x100_0000) by (bit_vector);
        Single::from_unit_fraction((drawn >> 40) as u32)
    }

    /// Draw a uniform double-precision number in the *open* interval `(0, 1)`.
    ///
    /// The result is never zero, so it is safe to take its logarithm, as the
    /// HNSW layer-assignment formula does.
    pub fn next_f64_open(&mut self) -> (value: Double)
        ensures
            final(self)@ == next_state(old(self)@),
            value.bits == open_unit_bits((scramble(final(self)@) >> 11) as nat),
            0 < value.bits < DOUBLE_ONE,
    {
        let drawn: u64 = self.next_u64();
        assert(drawn >> 11 < 0x20_0000_0000_0000) by (bit_vector);
        let b: u64 = drawn >> 11;
        let midpoint = Double::from_u64(2 * b + 1);
        let rounded: u64 = midpoint.to_bits() - 54 * DOUBLE_EXPONENT_STEP;
        if rounded < DOUBLE_ONE {
            Double::from_bits(rounded)
        } else {
            Double::from_bits(DOUBLE_ONE - 1)
        }
    }
}

/// A seed determines every draw: generators that hold the same state draw the
/// same values for ever.
pub proof fn law_deterministic_for_a_seed(a: SplitMix64, b: SplitMix64, n: nat)
    requires
        a@ == b@,
    ensures
        state_after(a@, n) == state_after(b@, n),
        scramble(state_after(a@, n)) == scramble(state_after(b@, n)),
{
}

/// A number and itself shifted can be told apart: the combination of the two
/// determines the number.
proof fn lemma_shifts_mix(x: u64, y: u64)
    ensures
        x ^ (x >> 30) == y ^ (y >> 30) ==> x == y,
        x ^ (x >> 27) == y ^ (y >> 27) ==> x == y,
        x ^ (x >> 31) == y ^ (y >> 31) ==> x == y,
{
    assert(x ^ (x >> 30) == y ^ (y >> 30) ==> x == y) by (bit_vector);
    assert(x ^ (x >> 27) == y ^ (y >> 27) ==> x == y) by (bit_vector);
    assert(x ^ (x >> 31) == y ^ (y >> 31) ==> x == y) by (bit_vector);
}

/// Multiplying by a number that has an inverse loses nothing.
proof fn lemma_product_determines(x: u64, y: u64, c: u64, inverse: u64)
    requires
        (c * inverse) % 0x1_0000_0000_0000_0000 == 1,
        x.wrapping_mul(c) == y.wrapping_mul(c),
    ensures
        x == y,
{
    let m = 0x1_0000_0000_0000_0000int;
    assert((x * c) % m == (y * c) % m);
    assert forall|z: u64| #[trigger] (((z * c) % m) * inverse) % m == z by {
        vstd::arithmetic::div_mod::lemma_mul_mod_noop_left(z * c, inverse as int, m);
        vstd::arithmetic::mul::lemma_mul_is_associative(z as int, c as int, inverse as int);
        vstd::arithmetic::div_mod::lemma_mul_mod_noop_right(z as int, c * inverse, m);
    }
    assert((((x * c) % m) * inverse) % m == x);
    assert((((y * c) % m) * inverse) % m == y);
}

/// Different states draw different values.
pub proof fn law_different_states_draw_different_values(a: u64, b: u64)
    requires
        a != b,
    ensures
        scramble(a) != scramble(b),
{
    if scramble(a) == scramble(b) {
        let p = (a ^ (a >> 30)).wrapping_mul(0xBF58_476D_1CE4_E5B9);
        let q = (b ^ (b >> 30)).wrapping_mul(0xBF58_476D_1CE4_E5B9);
        let u = (p ^ (p >> 27)).wrapping_mul(0x94D0_49BB_1331_11EB);
        let v = (q ^ (q >> 27)).wrapping_mul(0x94D0_49BB_1331_11EB);
        lemma_shifts_mix(u, v);
        lemma_product_determines(
            p ^ (p >> 27),
            q ^ (q >> 27),
            0x94D0_49BB_1331_11EB,
            0x3196_42B2_D24D_8EC3,
        );
        lemma_shifts_mix(p, q);
        lemma_product_determines(
            a ^ (a >> 30),
            b ^ (b >> 30),
            0xBF58_476D_1CE4_E5B9,
            0x96DE_1B17_3F11_9089,
        );
        lemma_shifts_mix(a, b);
    }
}

/// How a value is drawn from a state: one step of the generator adds an odd number to
/// the state, wrapping around, and the value is that sum after two rounds of mixing a
/// number with itself shifted and multiplying it, and one more mixing.
pub proof fn law_draws_are_mixed_steps(state: u64)
    ensures
        next_state(state) == (state + 0x9E37_79B9_7F4A_7C15) % 0x1_0000_0000_0000_0000,
        ({
            let a = state ^ (state >> 30);
            let b = ((a * 0xBF58_476D_1CE4_E5B9) % 0x1_0000_0000_0000_0000) as u64;
            let c = b ^ (b >> 27);
            let d = ((c * 0x94D0_49BB_1331_11EB) % 0x1_0000_0000_0000_0000) as u64;
            scramble(state) == d ^ (d >> 31)
        }),
{
}

/// Draws one after the other: the state after one more draw follows from the one
/// before, so that `n` draws add the step `n` times.
pub proof fn law_states_follow_one_another(state: u64, n: nat)
    ensures
        state_after(state, 0) == state,
        state_after(state, n + 1) == next_state(state_after(state, n)),
        state_after(state, n) == (state + n * 0x9E37_79B9_7F4A_7C15) % 0x1_0000_0000_0000_0000,
    decreases n,
{
    let m = 0x1_0000_0000_0000_0000int;
    let g = 0x9E37_79B9_7F4A_7C15int;
    if n > 0 {
        law_states_follow_one_another(state, (n - 1) as nat);
        let before = state + (n - 1) * g;
        assert(before + g == state + n * g) by (nonlinear_arith)
            requires
                before == state + (n - 1) * g,
        ;
        vstd::arithmetic::div_mod::lemma_add_mod_noop(before, g, m);
        vstd::arithmetic::div_mod::lemma_small_mod(g as nat, m as nat);
    } else {
        assert(0 * g == 0);
    }
}

/// A draw from the open unit interval is the midpoint of one of two to the power of
/// fifty-three equal steps, `(2 * b + 1) / 2^54`: exactly so in the lower half, and off
/// by less than one step in the upper. It is above zero and below one.
pub proof fn law_open_draws_are_midpoints(b: nat)
    requires
        b < 0x20_0000_0000_0000,
    ensures
        ({
            let x = Double { bits: open_unit_bits(b) as u64 };
            &&& x.finite()
            &&& 0 < x.units() < double_one()
            &&& gap(x.units() * 0x40_0000_0000_0000, ((2 * b + 1) * double_one()) as int) < 2
                * double_one()
            &&& b < 0x10_0000_0000_0000 ==> x.units() * 0x40_0000_0000_0000 == (2 * b + 1)
                * double_one()
        }),
{
    let n = (2 * b + 1) as nat;
    let one = double_one() as int;
    let x = Double { bits: open_unit_bits(b) as u64 };
    let y = Double { bits: Double::nat_bits(n) as u64 };
    let z = Double { bits: (Double::nat_bits(n) - 54 * DOUBLE_EXPONENT_STEP) as u64 };
    let whole = Double { bits: DOUBLE_ONE };
    vstd::arithmetic::power2::lemma_pow2_pos(1074);
    crate::exact::lemma_natural_double(n);
    crate::exact::lemma_lower_exponent(z, y);
    crate::exact::law_integers_become_the_nearest_double(1);
    assert(Double::int_bits(1) == DOUBLE_ONE) by {
        vstd::arithmetic::power2::lemma2_to64();
        vstd::arithmetic::power2::lemma2_to64_rest();
    }
    assert(whole.units() == one);
    let g = gap(y.units(), n * one);
    assert(n * one < 0x40_0000_0000_0000 * one) by (nonlinear_arith)
        requires
            n < 0x40_0000_0000_0000,
            one > 0,
    ;
    assert(g < 2 * one) by (nonlinear_arith)
        requires
            g * 0x20_0000_0000_0000 <= n * one,
            n * one < 0x40_0000_0000_0000 * one,
    ;
    if z.bits < DOUBLE_ONE {
        assert(x == z);
        crate::exact::law_double_units_are_ordered(x, whole);
        assert(n * one >= one) by (nonlinear_arith)
            requires
                n >= 1,
                one > 0,
        ;
        assert(y.units() > 0) by {
            if y.units() <= 0 {
                assert(g == n * one - y.units());
                assert(false) by (nonlinear_arith)
                    requires
                        g >= n * one,
                        g * 0x20_0000_0000_0000 <= n * one,
                        n * one >= one,
                        one > 0,
                ;
            }
        }
        assert(x.units() > 0);
    } else {
        assert(z.units() >= one) by {
            crate::exact::law_double_units_are_ordered(z, whole);
        }
        assert(y.units() >= 0x40_0000_0000_0000 * one);
        assert(n == 0x3F_FFFF_FFFF_FFFF) by {
            assert(n * one > 0x40_0000_0000_0000 * one - 2 * one);
            assert(n > 0x40_0000_0000_0000 - 2) by (nonlinear_arith)
                requires
                    n * one > 0x40_0000_0000_0000 * one - 2 * one,
                    one > 0,
            ;
        }
        let below = Double { bits: (DOUBLE_ONE - 1) as u64 };
        assert(x == below);
        crate::exact::law_double_units_are_ordered(x, whole);
        assert(x.units() * 0x40_0000_0000_0000 == (n - 1) * one) by {
            vstd::arithmetic::power2::lemma2_to64();
            vstd::arithmetic::power2::lemma2_to64_rest();
            vstd::arithmetic::power2::lemma_pow2_adds(1021, 53);
            let p = pow2(1021);
            assert(x.significand() == 0x1F_FFFF_FFFF_FFFF && x.scale() == 1022);
            assert((0x1F_FFFF_FFFF_FFFF * p) * 0x40_0000_0000_0000 == 0x3F_FFFF_FFFF_FFFE * (p
                * 0x20_0000_0000_0000)) by (nonlinear_arith);
        }
        assert((n - 1) * one == n * one - one) by (nonlinear_arith);
        assert(x.units() > 0) by (nonlinear_arith)
            requires
                x.units() * 0x40_0000_0000_0000 == (n - 1) * one,
                n > 1,
                one > 0,
        ;
    }
}

} // verus!
