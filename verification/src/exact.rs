//! What single-precision numbers stand for, and operations that are exact.
//!
//! Every finite number is a whole multiple of the smallest positive one, which
//! is one over two to the power of 149. Here numbers are told by that multiple,
//! so that sums, products and quotients can be spoken of without rounding.

use crate::float::{
    round_shift, top_bit, Double, Single, DOUBLE_EXPONENT_STEP, SINGLE_EXPONENT_STEP,
};
use crate::metric::{result_of, Op};
use vstd::arithmetic::power2::pow2;
use vstd::prelude::*;

verus! {

/// The number one, in multiples of the smallest positive number.
pub open spec fn one() -> nat {
    pow2(149)
}

impl Single {
    /// How many times the smallest positive number this finite number is.
    pub open spec fn units(self) -> int {
        let size = (self.significand() * pow2((self.scale() - 1) as nat)) as int;
        if self.negative() {
            -size
        } else {
            size
        }
    }
}

/// `f` carries out the operation on finite numbers without rounding. A square
/// root is spoken of by its first operand.
pub open spec fn is_exact<F>(f: F, op: Op, x: Single, y: Single) -> bool where
    F: Fn(Op, Single, Single) -> Single,
 {
    let r = result_of(f, op, x, y);
    &&& r.finite()
    &&& match op {
        Op::Add => r.units() == x.units() + y.units(),
        Op::Sub => r.units() == x.units() - y.units(),
        Op::Mul => r.units() * one() == x.units() * y.units(),
        Op::Div => r.units() * y.units() == x.units() * one(),
        Op::Sqrt => r.units() >= 0 && r.units() * r.units() == x.units() * one(),
    }
}

/// The distance between two whole numbers.
pub open spec fn gap(a: int, b: int) -> int {
    if a < b {
        b - a
    } else {
        a - b
    }
}

/// The next encoding stands for a larger number.
proof fn lemma_next_is_larger(a: Single, b: Single)
    requires
        !a.negative(),
        !b.negative(),
        b.finite(),
        b.bits == a.bits + 1,
    ensures
        a.units() < b.units(),
{
    let step = SINGLE_EXPONENT_STEP as int;
    let e = a.bits as int / step;
    let fraction = a.bits as int % step;
    vstd::arithmetic::power2::lemma2_to64();
    if fraction + 1 < step {
        vstd::arithmetic::div_mod::lemma_fundamental_div_mod_converse(
            b.bits as int,
            step,
            e,
            fraction + 1,
        );
        assert(b.significand() == a.significand() + 1);
        let p = pow2((a.scale() - 1) as nat);
        vstd::arithmetic::power2::lemma_pow2_pos((a.scale() - 1) as nat);
        assert((a.significand() + 1) * p > a.significand() * p) by (nonlinear_arith)
            requires
                p > 0,
        ;
    } else {
        vstd::arithmetic::div_mod::lemma_fundamental_div_mod_converse(
            b.bits as int,
            step,
            e + 1,
            0,
        );
        assert(b.significand() == step && b.scale() == e + 1);
        if e == 0 {
            let p = pow2(0);
            assert(a.scale() == 1 && a.significand() == step - 1);
            assert(step * p > (step - 1) * p) by (nonlinear_arith)
                requires
                    p > 0,
            ;
        } else {
            let p = pow2((e - 1) as nat);
            vstd::arithmetic::power2::lemma_pow2_pos((e - 1) as nat);
            vstd::arithmetic::power2::lemma_pow2_unfold(e as nat);
            assert(a.scale() == e && a.significand() == 2 * step - 1);
            assert(step * (2 * p) > (2 * step - 1) * p) by (nonlinear_arith)
                requires
                    p > 0,
            ;
        }
    }
}

/// Encodings without a sign stand for numbers in their order.
proof fn lemma_sizes_are_ordered(a: Single, b: Single)
    requires
        !a.negative(),
        !b.negative(),
        b.finite(),
        a.bits <= b.bits,
    ensures
        a.units() <= b.units(),
        a.bits < b.bits ==> a.units() < b.units(),
    decreases b.bits - a.bits,
{
    if a.bits < b.bits {
        let before = Single { bits: (b.bits - 1) as u32 };
        lemma_sizes_are_ordered(a, before);
        lemma_next_is_larger(before, b);
    }
}

/// Finite numbers compare as the multiples that they are, and zero is none.
pub proof fn law_units_are_ordered(a: Single, b: Single)
    requires
        a.finite(),
        b.finite(),
    ensures
        a.less(b) <==> a.units() < b.units(),
        a.equal(b) <==> a.units() == b.units(),
{
    let x = a.absolute();
    let y = b.absolute();
    let zero = Single { bits: 0 };
    assert(zero.units() == 0) by {
        assert(zero.significand() == 0);
        assert(0 * pow2((zero.scale() - 1) as nat) == 0) by (nonlinear_arith);
    }
    assert(a.magnitude() == x.magnitude() && b.magnitude() == y.magnitude());
    assert(a.units() == x.units() || a.units() == -x.units());
    assert(b.units() == y.units() || b.units() == -y.units());
    lemma_sizes_are_ordered(zero, x);
    lemma_sizes_are_ordered(zero, y);
    if x.bits <= y.bits {
        lemma_sizes_are_ordered(x, y);
    } else {
        lemma_sizes_are_ordered(y, x);
    }
}

/// The highest bit of a number bounds it from both sides.
proof fn lemma_top_bit(n: nat)
    requires
        n > 0,
    ensures
        pow2(top_bit(n)) <= n < 2 * pow2(top_bit(n)),
    decreases n,
{
    vstd::arithmetic::power2::lemma2_to64();
    if n >= 2 {
        lemma_top_bit(n / 2);
        vstd::arithmetic::power2::lemma_pow2_unfold(top_bit(n));
    }
}

/// The encoding of a byte stands for that many times one.
pub proof fn law_bytes_are_whole_numbers(n: nat)
    requires
        n <= 255,
    ensures
        ({
            let x = Single { bits: Single::byte_bits(n) as u32 };
            x.finite() && !x.negative() && x.units() == n * one()
        }),
{
    let x = Single { bits: Single::byte_bits(n) as u32 };
    if n == 0 {
        assert(x.significand() == 0);
        assert(0 * pow2((x.scale() - 1) as nat) == 0) by (nonlinear_arith);
        assert(0 * one() == 0) by (nonlinear_arith);
    } else {
        let t = top_bit(n);
        let step = SINGLE_EXPONENT_STEP as int;
        lemma_top_bit(n);
        vstd::arithmetic::power2::lemma2_to64();
        if t > 7 {
            if t > 8 {
                vstd::arithmetic::power2::lemma_pow2_strictly_increases(8, t);
            }
            assert(false);
        }
        let u = pow2(t);
        let v = pow2((23 - t) as nat);
        let m = n * v;
        vstd::arithmetic::power2::lemma_pow2_adds(t, (23 - t) as nat);
        vstd::arithmetic::power2::lemma_pow2_pos((23 - t) as nat);
        assert(u * v <= m < 2 * (u * v)) by (nonlinear_arith)
            requires
                m == n * v,
                u <= n < 2 * u,
                v > 0,
        ;
        let e = t + 127;
        assert(Single::byte_bits(n) == e * step + (m - step));
        assert(x.magnitude() == e * step + (m - step));
        vstd::arithmetic::div_mod::lemma_fundamental_div_mod_converse(
            x.magnitude(),
            step,
            e as int,
            m - step,
        );
        assert(x.scale() == e && x.significand() == m);
        let w = pow2((t + 126) as nat);
        vstd::arithmetic::power2::lemma_pow2_adds((23 - t) as nat, (t + 126) as nat);
        assert((n * v) * w == n * (v * w)) by (nonlinear_arith);
    }
}

/// The nearest whole number is at most one half away.
pub proof fn law_nearest_integer_is_near(x: Single)
    requires
        !x.negative(),
        x.finite(),
    ensures
        2 * gap((x.nearest_integer() * one()) as int, x.units()) <= one(),
        x.nearest_integer() == (2 * x.units() + one()) / (2 * one() as int),
{
    let sig = x.significand();
    let scale = x.scale();
    let p = pow2((scale - 1) as nat);
    let q = x.units();
    let whole = one() as int;
    vstd::arithmetic::power2::lemma_pow2_pos(149);
    vstd::arithmetic::power2::lemma_pow2_unfold(150);
    vstd::arithmetic::power2::lemma_pow2_unfold(151);
    vstd::arithmetic::power2::lemma_pow2_unfold(scale);
    vstd::arithmetic::power2::lemma_pow2_unfold(scale + 1);
    assert(sig * (2 * (2 * p)) == 4 * (sig * p)) by (nonlinear_arith);
    let k = x.nearest_integer() as int;
    assert(k == (4 * q + 2 * whole) / (4 * whole));
    vstd::arithmetic::div_mod::lemma_fundamental_div_mod(4 * q + 2 * whole, 4 * whole);
    vstd::arithmetic::div_mod::lemma_mod_bound(4 * q + 2 * whole, 4 * whole);
    let r = (4 * q + 2 * whole) % (4 * whole);
    assert(4 * whole * k == 4 * (k * whole)) by (nonlinear_arith);
    assert(4 * q + 2 * whole == 4 * (k * whole) + r);
    assert(2 * q + whole == 2 * (k * whole) + r / 2);
    assert(2 * (k * whole) == (2 * whole) * k) by (nonlinear_arith);
    vstd::arithmetic::div_mod::lemma_fundamental_div_mod_converse(
        2 * q + whole,
        2 * whole,
        k,
        r / 2,
    );
}

/// The total order keeps the order of numbers: a smaller number stands before a larger
/// one, the negative zero before the positive one, and what is no number before or
/// after all numbers, by its sign. Different encodings stand in different places.
pub proof fn law_total_order_keeps_the_order(a: Single, b: Single)
    ensures
        a.less(b) ==> a.rank() < b.rank(),
        a.rank() == b.rank() ==> a == b,
        !a.nan() && b.bits > 0x7F80_0000 && b.bits < 0x8000_0000 ==> a.rank() < b.rank(),
        !a.nan() && b.bits > 0xFF80_0000 ==> b.rank() < a.rank(),
        a.bits == 0x8000_0000 && b.bits == 0 ==> a.rank() < b.rank(),
{
}

/// The number with the other sign is as far from zero on the other side, and the
/// number without its sign is as far from it.
pub proof fn law_signs_can_be_turned(x: Single)
    requires
        x.finite(),
    ensures
        x.opposite().finite(),
        x.opposite().units() == -x.units(),
        x.absolute().units() == if x.units() < 0 {
            -x.units()
        } else {
            x.units()
        },
        x.opposite().opposite() == x,
{
    let size = (x.significand() * pow2((x.scale() - 1) as nat)) as int;
    assert(x.opposite().magnitude() == x.magnitude());
    assert(x.absolute().magnitude() == x.magnitude());
    assert(size >= 0) by (nonlinear_arith)
        requires
            size == (x.significand() * pow2((x.scale() - 1) as nat)) as int,
    ;
}

/// The encodings of zero, one and two stand for those numbers.
pub proof fn law_constants_stand_for_their_numbers()
    ensures
        (Single { bits: crate::float::SINGLE_ZERO }).units() == 0,
        (Single { bits: crate::float::SINGLE_ONE }).units() == one(),
        (Single { bits: crate::float::SINGLE_TWO }).units() == 2 * one(),
{
    vstd::arithmetic::power2::lemma2_to64();
    law_bytes_are_whole_numbers(0);
    law_bytes_are_whole_numbers(1);
    law_bytes_are_whole_numbers(2);
    reveal_with_fuel(top_bit, 3);
    assert(Single::byte_bits(1) == 0x3F80_0000);
    assert(Single::byte_bits(2) == 0x4000_0000);
}

/// A fraction of two to the power of twenty-four is that fraction of one.
pub proof fn law_unit_fractions_are_exact(x: Single, k: nat)
    requires
        x.is_ratio(k, 24),
    ensures
        x.units() * 0x100_0000 == k * one(),
{
    let sig = x.significand();
    let p = pow2((x.scale() - 1) as nat);
    vstd::arithmetic::power2::lemma2_to64();
    vstd::arithmetic::power2::lemma_pow2_adds((x.scale() - 1) as nat, 25);
    vstd::arithmetic::power2::lemma_pow2_unfold(150);
    let q = pow2(x.scale() + 24);
    assert(q == p * 0x200_0000);
    assert(sig * (p * 0x200_0000) == 2 * ((sig * p) * 0x100_0000)) by (nonlinear_arith);
    assert(k * (2 * pow2(149)) == 2 * (k * pow2(149))) by (nonlinear_arith);
}

/// The number one, in multiples of the smallest positive double-precision number.
pub open spec fn double_one() -> nat {
    pow2(1074)
}

impl Double {
    /// How many times the smallest positive double-precision number this finite number
    /// is.
    pub open spec fn units(self) -> int {
        let size = (self.significand() * pow2((self.scale() - 1) as nat)) as int;
        if self.negative() {
            -size
        } else {
            size
        }
    }

    /// True when this encodes a number that is not infinite.
    pub open spec fn finite(self) -> bool {
        self.magnitude() < 0x7FF0_0000_0000_0000
    }
}

/// The next encoding stands for a larger number.
proof fn lemma_next_double_is_larger(a: Double, b: Double)
    requires
        !a.negative(),
        !b.negative(),
        b.finite(),
        b.bits == a.bits + 1,
    ensures
        a.units() < b.units(),
{
    let step = DOUBLE_EXPONENT_STEP as int;
    let e = a.bits as int / step;
    let fraction = a.bits as int % step;
    vstd::arithmetic::power2::lemma2_to64();
    if fraction + 1 < step {
        vstd::arithmetic::div_mod::lemma_fundamental_div_mod_converse(
            b.bits as int,
            step,
            e,
            fraction + 1,
        );
        assert(b.significand() == a.significand() + 1);
        let p = pow2((a.scale() - 1) as nat);
        vstd::arithmetic::power2::lemma_pow2_pos((a.scale() - 1) as nat);
        assert((a.significand() + 1) * p > a.significand() * p) by (nonlinear_arith)
            requires
                p > 0,
        ;
    } else {
        vstd::arithmetic::div_mod::lemma_fundamental_div_mod_converse(
            b.bits as int,
            step,
            e + 1,
            0,
        );
        assert(b.significand() == step && b.scale() == e + 1);
        if e == 0 {
            let p = pow2(0);
            assert(a.scale() == 1 && a.significand() == step - 1);
            assert(step * p > (step - 1) * p) by (nonlinear_arith)
                requires
                    p > 0,
            ;
        } else {
            let p = pow2((e - 1) as nat);
            vstd::arithmetic::power2::lemma_pow2_pos((e - 1) as nat);
            vstd::arithmetic::power2::lemma_pow2_unfold(e as nat);
            assert(a.scale() == e && a.significand() == 2 * step - 1);
            assert(step * (2 * p) > (2 * step - 1) * p) by (nonlinear_arith)
                requires
                    p > 0,
            ;
        }
    }
}

/// Encodings without a sign stand for numbers in their order.
proof fn lemma_double_sizes_are_ordered(a: Double, b: Double)
    requires
        !a.negative(),
        !b.negative(),
        b.finite(),
        a.bits <= b.bits,
    ensures
        a.units() <= b.units(),
        a.bits < b.bits ==> a.units() < b.units(),
    decreases b.bits - a.bits,
{
    if a.bits < b.bits {
        let before = Double { bits: (b.bits - 1) as u64 };
        lemma_double_sizes_are_ordered(a, before);
        lemma_next_double_is_larger(before, b);
    }
}

/// Finite double-precision numbers compare as the multiples that they are.
pub proof fn law_double_units_are_ordered(a: Double, b: Double)
    requires
        a.finite(),
        b.finite(),
    ensures
        a.less(b) <==> a.units() < b.units(),
        a.equal(b) <==> a.units() == b.units(),
{
    let x = Double { bits: a.magnitude() as u64 };
    let y = Double { bits: b.magnitude() as u64 };
    let zero = Double { bits: 0 };
    assert(zero.units() == 0) by {
        assert(zero.significand() == 0);
        assert(0 * pow2((zero.scale() - 1) as nat) == 0) by (nonlinear_arith);
    }
    assert(a.magnitude() == x.magnitude() && b.magnitude() == y.magnitude());
    assert(a.units() == x.units() || a.units() == -x.units());
    assert(b.units() == y.units() || b.units() == -y.units());
    lemma_double_sizes_are_ordered(zero, x);
    lemma_double_sizes_are_ordered(zero, y);
    if x.bits <= y.bits {
        lemma_double_sizes_are_ordered(x, y);
    } else {
        lemma_double_sizes_are_ordered(y, x);
    }
}

/// What an encoding with a leading bit stands for.
proof fn lemma_double_value(e: nat, m: nat)
    requires
        1 <= e <= 2046,
        0x10_0000_0000_0000 <= m < 0x20_0000_0000_0000,
    ensures
        ({
            let x = Double { bits: ((e - 1) * DOUBLE_EXPONENT_STEP + m) as u64 };
            &&& x.bits == (e - 1) * DOUBLE_EXPONENT_STEP + m
            &&& x.finite()
            &&& !x.negative()
            &&& x.units() == m * pow2((e - 1) as nat)
        }),
{
    let step = DOUBLE_EXPONENT_STEP as int;
    let x = Double { bits: ((e - 1) * DOUBLE_EXPONENT_STEP + m) as u64 };
    assert(x.magnitude() == e * step + (m - step));
    vstd::arithmetic::div_mod::lemma_fundamental_div_mod_converse(
        x.magnitude(),
        step,
        e as int,
        m - step,
    );
    assert(x.scale() == e && x.significand() == m);
}

/// An integer becomes the double nearest to it: the number itself where fifty-three
/// bits hold it, and otherwise one that is off by at most one part in two to the power
/// of fifty-three.
pub proof fn law_integers_become_the_nearest_double(n: int)
    requires
        -0x1_0000_0000_0000_0000 < n < 0x1_0000_0000_0000_0000,
    ensures
        ({
            let x = Double { bits: Double::int_bits(n) as u64 };
            let size = if n < 0 {
                -n
            } else {
                n
            };
            &&& x.finite()
            &&& size <= 0x20_0000_0000_0000 ==> x.units() == n * double_one()
            &&& gap(x.units(), n * double_one()) * 0x20_0000_0000_0000 <= size * double_one()
        }),
{
    let size: nat = (if n < 0 {
        -n
    } else {
        n
    }) as nat;
    let one = double_one() as int;
    lemma_nearest_natural(size);
    let y = Double { bits: Double::nat_bits(size) as u64 };
    let x = Double { bits: Double::int_bits(n) as u64 };
    if n < 0 {
        assert(x.magnitude() == y.magnitude() && x.negative());
        assert(x.units() == -y.units());
        assert(n * one == -(size * one)) by (nonlinear_arith)
            requires
                n == -size,
        ;
    }
}

/// A natural number becomes the double nearest to it.
proof fn lemma_nearest_natural(n: nat)
    requires
        n < 0x1_0000_0000_0000_0000,
    ensures
        ({
            let x = Double { bits: Double::nat_bits(n) as u64 };
            &&& x.bits == Double::nat_bits(n)
            &&& x.finite()
            &&& !x.negative()
            &&& n <= 0x20_0000_0000_0000 ==> x.units() == n * double_one()
            &&& gap(x.units(), (n * double_one()) as int) * 0x20_0000_0000_0000 <= n * double_one()
        }),
{
    let x = Double { bits: Double::nat_bits(n) as u64 };
    let one = double_one() as int;
    vstd::arithmetic::power2::lemma2_to64();
    vstd::arithmetic::power2::lemma2_to64_rest();
    vstd::arithmetic::power2::lemma_pow2_pos(1074);
    if n == 0 {
        assert(x.significand() == 0);
        assert(0 * pow2((x.scale() - 1) as nat) == 0) by (nonlinear_arith);
        assert(0 * one == 0) by (nonlinear_arith);
    } else {
        let t = top_bit(n);
        let u = pow2(t);
        lemma_top_bit(n);
        if t > 63 {
            if t > 64 {
                vstd::arithmetic::power2::lemma_pow2_strictly_increases(64, t);
            }
            assert(false);
        }
        if t <= 52 {
            let v = pow2((52 - t) as nat);
            let m = n * v;
            vstd::arithmetic::power2::lemma_pow2_adds(t, (52 - t) as nat);
            vstd::arithmetic::power2::lemma_pow2_pos((52 - t) as nat);
            assert(u * v <= m < 2 * (u * v)) by (nonlinear_arith)
                requires
                    m == n * v,
                    u <= n < 2 * u,
                    v > 0,
            ;
            lemma_double_value((t + 1023) as nat, m);
            let w = pow2((t + 1022) as nat);
            vstd::arithmetic::power2::lemma_pow2_adds((52 - t) as nat, (t + 1022) as nat);
            assert((n * v) * w == n * (v * w)) by (nonlinear_arith);
            assert(x.units() == n * one);
            assert(0 * 0x20_0000_0000_0000 <= n * one) by (nonlinear_arith)
                requires
                    n >= 0,
                    one >= 0,
            ;
        } else {
            lemma_rounded_natural(n, t);
        }
    }
}

/// A natural number of more than fifty-three bits becomes the double nearest to it.
proof fn lemma_rounded_natural(n: nat, t: nat)
    requires
        n < 0x1_0000_0000_0000_0000,
        t == top_bit(n),
        53 <= t <= 63,
        pow2(t) <= n < 2 * pow2(t),
    ensures
        ({
            let x = Double { bits: Double::nat_bits(n) as u64 };
            &&& x.bits == Double::nat_bits(n)
            &&& x.finite()
            &&& !x.negative()
            &&& x.units() == (round_shift(n, (t - 52) as nat) * pow2((t - 52) as nat))
                * double_one()
            &&& n <= 0x20_0000_0000_0000 ==> x.units() == n * double_one()
            &&& gap(x.units(), (n * double_one()) as int) * 0x20_0000_0000_0000 <= n * double_one()
        }),
{
    let x = Double { bits: Double::nat_bits(n) as u64 };
    let one = double_one() as int;
    let s = (t - 52) as nat;
    let unit = pow2(s) as int;
    let q = n as int / unit;
    let r = n as int % unit;
    let m = round_shift(n, s) as int;
    let c = 0x10_0000_0000_0000int;
    vstd::arithmetic::power2::lemma2_to64();
    vstd::arithmetic::power2::lemma2_to64_rest();
    vstd::arithmetic::power2::lemma_pow2_pos(1074);
    vstd::arithmetic::power2::lemma_pow2_pos(s);
    vstd::arithmetic::power2::lemma_pow2_adds(52, s);
    vstd::arithmetic::div_mod::lemma_fundamental_div_mod(n as int, unit);
    vstd::arithmetic::div_mod::lemma_mod_bound(n as int, unit);
    assert(pow2(t) == c * unit);
    assert(c <= q < 2 * c) by (nonlinear_arith)
        requires
            c * unit <= n < 2 * (c * unit),
            n == unit * q + r,
            0 <= r < unit,
            unit > 0,
    ;
    assert(m == q || m == q + 1);
    assert(2 * gap(m * unit, n as int) <= unit) by {
        assert((q + 1) * unit == unit * q + unit) by (nonlinear_arith);
        assert(q * unit == unit * q) by (nonlinear_arith);
    }
    let w = pow2((t + 1022) as nat) as int;
    vstd::arithmetic::power2::lemma_pow2_adds(s, 1074);
    assert(w == unit * one);
    if m < 2 * c {
        lemma_double_value((t + 1023) as nat, m as nat);
        assert(x.units() == m * w);
    } else {
        let step = DOUBLE_EXPONENT_STEP as int;
        assert(m == 2 * c);
        lemma_double_value((t + 1024) as nat, c as nat);
        assert((t + 1022) * step + 2 * c == (t + 1023) * step + c) by (nonlinear_arith)
            requires
                step == c,
        ;
        vstd::arithmetic::power2::lemma_pow2_unfold((t + 1023) as nat);
        assert(c * (2 * w) == (2 * c) * w) by (nonlinear_arith);
        assert(x.units() == m * w);
    }
    assert(m * w == (m * unit) * one) by (nonlinear_arith)
        requires
            w == unit * one,
    ;
    let a = m * unit;
    assert(gap(a * one, n * one) == gap(a, n as int) * one) by (nonlinear_arith)
        requires
            one > 0,
            gap(a * one, n * one) == if a * one < n * one {
                n * one - a * one
            } else {
                a * one - n * one
            },
            gap(a, n as int) == if a < n {
                n - a
            } else {
                a - n
            },
    ;
    let g = gap(a, n as int);
    assert(g * 0x20_0000_0000_0000 <= n) by (nonlinear_arith)
        requires
            2 * g <= unit,
            c * unit <= n,
            c == 0x10_0000_0000_0000,
    ;
    assert((g * one) * 0x20_0000_0000_0000 <= n * one) by (nonlinear_arith)
        requires
            g * 0x20_0000_0000_0000 <= n,
            one > 0,
    ;
    if n <= 0x20_0000_0000_0000 {
        assert(t == 53) by {
            if t > 53 {
                vstd::arithmetic::power2::lemma_pow2_strictly_increases(53, t);
            }
        }
        assert(unit == 2);
        assert(n == 0x20_0000_0000_0000);
    }
}

/// The integer part of a number, kept to a limit: the largest whole number that is not
/// above it, if that is not above the limit. Below zero it is zero.
pub proof fn law_integer_part_is_the_floor(x: Double, limit: nat)
    requires
        x.finite(),
    ensures
        x.floor_within(limit) <= limit,
        x.units() < 0 ==> x.floor_within(limit) == 0,
        x.units() >= 0 ==> x.floor_within(limit) * double_one() <= x.units(),
        x.units() >= 0 && x.floor_within(limit) < limit ==> x.units() < (x.floor_within(limit) + 1)
            * double_one(),
{
    let one = double_one() as int;
    let sig = x.significand();
    let p = pow2((x.scale() - 1) as nat);
    vstd::arithmetic::power2::lemma_pow2_pos(1074);
    vstd::arithmetic::power2::lemma_pow2_pos((x.scale() - 1) as nat);
    vstd::arithmetic::power2::lemma_pow2_unfold(x.scale());
    vstd::arithmetic::power2::lemma_pow2_unfold(1075);
    assert(sig * (2 * p) == 2 * (sig * p)) by (nonlinear_arith);
    assert(0 * one == 0) by (nonlinear_arith);
    let size = (sig * p) as int;
    assert(size >= 0) by (nonlinear_arith)
        requires
            size == (sig * p) as int,
    ;
    if x.negative() {
        assert(0 < (0 + 1) * one) by (nonlinear_arith)
            requires
                one > 0,
        ;
    } else {
        let k = x.integer_part() as int;
        assert(k == (2 * size) / (2 * one));
        vstd::arithmetic::div_mod::lemma_fundamental_div_mod(2 * size, 2 * one);
        vstd::arithmetic::div_mod::lemma_mod_bound(2 * size, 2 * one);
        let r = (2 * size) % (2 * one);
        assert(2 * size == (2 * one) * k + r);
        assert((2 * one) * k == 2 * (k * one)) by (nonlinear_arith);
        assert((k + 1) * one == k * one + one) by (nonlinear_arith);
        if k > limit {
            assert(limit * one <= k * one) by (nonlinear_arith)
                requires
                    limit <= k,
                    one > 0,
            ;
        }
    }
}

/// Lowering the exponent by fifty-four divides a number by two to that power.
pub proof fn lemma_lower_exponent(x: Double, y: Double)
    requires
        !y.negative(),
        y.finite(),
        y.bits >= 0x3FF0_0000_0000_0000,
        x.bits == y.bits - 54 * DOUBLE_EXPONENT_STEP,
    ensures
        x.finite(),
        !x.negative(),
        x.units() * 0x40_0000_0000_0000 == y.units(),
{
    let step = DOUBLE_EXPONENT_STEP as int;
    let e = y.bits as int / step;
    let fraction = y.bits as int % step;
    vstd::arithmetic::div_mod::lemma_fundamental_div_mod(y.bits as int, step);
    vstd::arithmetic::div_mod::lemma_mod_bound(y.bits as int, step);
    assert(e >= 1023);
    assert(x.bits == (e - 54) * step + fraction) by (nonlinear_arith)
        requires
            x.bits == y.bits - 54 * step,
            y.bits == step * e + fraction,
    ;
    vstd::arithmetic::div_mod::lemma_fundamental_div_mod_converse(
        x.bits as int,
        step,
        e - 54,
        fraction,
    );
    assert(x.scale() == e - 54 && y.scale() == e);
    assert(x.significand() == y.significand());
    vstd::arithmetic::power2::lemma2_to64();
    vstd::arithmetic::power2::lemma2_to64_rest();
    vstd::arithmetic::power2::lemma_pow2_adds((e - 55) as nat, 54);
    let p = pow2((e - 55) as nat);
    let sig = x.significand();
    assert((sig * p) * 0x40_0000_0000_0000 == sig * (p * 0x40_0000_0000_0000)) by (nonlinear_arith);
}

/// A natural number becomes a double that is off by at most one part in two to the
/// power of fifty-three, and one that is not zero a double of at least one.
pub proof fn lemma_natural_double(n: nat)
    requires
        n < 0x1_0000_0000_0000_0000,
    ensures
        ({
            let x = Double { bits: Double::nat_bits(n) as u64 };
            &&& x.bits == Double::nat_bits(n)
            &&& x.finite()
            &&& !x.negative()
            &&& n <= 0x20_0000_0000_0000 ==> x.units() == n * double_one()
            &&& gap(x.units(), (n * double_one()) as int) * 0x20_0000_0000_0000 <= n * double_one()
            &&& n > 0 ==> x.bits >= 0x3FF0_0000_0000_0000
        }),
{
    let x = Double { bits: Double::nat_bits(n) as u64 };
    lemma_nearest_natural(n);
    if n > 0 {
        let t = top_bit(n);
        let step = DOUBLE_EXPONENT_STEP as int;
        vstd::arithmetic::power2::lemma2_to64();
        vstd::arithmetic::power2::lemma2_to64_rest();
        lemma_top_bit(n);
        if t <= 52 {
            let v = pow2((52 - t) as nat);
            let u = pow2(t);
            vstd::arithmetic::power2::lemma_pow2_adds(t, (52 - t) as nat);
            vstd::arithmetic::power2::lemma_pow2_pos((52 - t) as nat);
            assert(u * v <= n * v) by (nonlinear_arith)
                requires
                    u <= n,
                    v > 0,
            ;
        }
        assert((t + 1022) * step >= 1022 * step) by (nonlinear_arith)
            requires
                t >= 0,
                step > 0,
        ;
        if t > 52 {
            assert((t + 1022) * step >= 1075 * step) by (nonlinear_arith)
                requires
                    t >= 53,
                    step > 0,
            ;
        }
    }
}

/// What is no number is neither less than anything nor equal to it, and an infinite
/// number is beyond every finite one.
pub proof fn law_other_numbers_compare(a: Single, b: Single, x: Double, y: Double)
    ensures
        a.nan() ==> !a.less(b) && !b.less(a) && !a.equal(b) && !b.equal(a),
        x.nan() ==> !x.less(y) && !y.less(x) && !x.equal(y) && !y.equal(x),
        a.finite() && b.bits == 0x7F80_0000 ==> a.less(b),
        a.finite() && b.bits == 0xFF80_0000 ==> b.less(a),
        x.finite() && y.bits == 0x7FF0_0000_0000_0000 ==> x.less(y),
        x.finite() && y.bits == 0xFFF0_0000_0000_0000 ==> y.less(x),
        a.nan() <==> 0x7F80_0000 < a.bits < 0x8000_0000 || a.bits > 0xFF80_0000,
        x.nan() <==> 0x7FF0_0000_0000_0000 < x.bits < 0x8000_0000_0000_0000 || x.bits
            > 0xFFF0_0000_0000_0000,
        a.finite() <==> a.bits < 0x7F80_0000 || 0x8000_0000 <= a.bits < 0xFF80_0000,
        a.normal() <==> 0x80_0000 <= a.bits < 0x7F80_0000 || 0x8080_0000 <= a.bits < 0xFF80_0000,
{
}

/// Integers of more than fifty-three bits: `q` steps of `2^s` and a remainder become `q`
/// steps if the remainder is less than half a step and `q + 1` if it is more; of two
/// that are equally near, the even one is taken.
pub proof fn law_large_integers_are_rounded_to_even(q: nat, s: nat, r: nat)
    requires
        0x10_0000_0000_0000 <= q < 0x20_0000_0000_0000,
        1 <= s <= 11,
        r < pow2(s),
    ensures
        ({
            let x = Double { bits: Double::int_bits((q * pow2(s) + r) as int) as u64 };
            &&& 2 * r < pow2(s) ==> x.units() == (q * pow2(s)) * double_one()
            &&& 2 * r > pow2(s) ==> x.units() == ((q + 1) * pow2(s)) * double_one()
            &&& 2 * r == pow2(s) && q % 2 == 0 ==> x.units() == (q * pow2(s)) * double_one()
            &&& 2 * r == pow2(s) && q % 2 == 1 ==> x.units() == ((q + 1) * pow2(s))
                * double_one()
        }),
{
    let unit = pow2(s);
    let n = (q * unit + r) as nat;
    let c = 0x10_0000_0000_0000nat;
    vstd::arithmetic::power2::lemma2_to64();
    vstd::arithmetic::power2::lemma2_to64_rest();
    vstd::arithmetic::power2::lemma_pow2_pos(s);
    vstd::arithmetic::power2::lemma_pow2_adds(52, s);
    if s < 11 {
        vstd::arithmetic::power2::lemma_pow2_strictly_increases(s, 11);
    }
    assert(c * unit <= n < 2 * (c * unit)) by (nonlinear_arith)
        requires
            n == q * unit + r,
            r < unit,
            c <= q < 2 * c,
    ;
    assert(2 * (c * unit) <= 0x1_0000_0000_0000_0000) by (nonlinear_arith)
        requires
            unit <= 0x800,
            c == 0x10_0000_0000_0000,
    ;
    lemma_top_bit(n);
    let t = top_bit(n);
    if t < s + 52 {
        vstd::arithmetic::power2::lemma_pow2_unfold(t + 1);
        if t + 1 < s + 52 {
            vstd::arithmetic::power2::lemma_pow2_strictly_increases(t + 1, s + 52);
        }
    }
    if t > s + 52 {
        vstd::arithmetic::power2::lemma_pow2_unfold(s + 53);
        if t > s + 53 {
            vstd::arithmetic::power2::lemma_pow2_strictly_increases(s + 53, t);
        }
    }
    assert(t == s + 52);
    vstd::arithmetic::div_mod::lemma_fundamental_div_mod_converse(
        n as int,
        unit as int,
        q as int,
        r as int,
    );
    lemma_rounded_natural(n, t);
}

/// The integer part of what is no finite number: zero for what is no number and below
/// every number, and the limit above every number.
pub proof fn law_integer_part_of_other_numbers(x: Double, limit: nat)
    ensures
        x.nan() ==> x.floor_within(limit) == 0,
        x.bits == 0x7FF0_0000_0000_0000 ==> x.floor_within(limit) == limit,
        x.bits == 0xFFF0_0000_0000_0000 ==> x.floor_within(limit) == 0,
{
}

} // verus!
