//! Floating-point numbers as bit patterns.
//!
//! The library orders, compares, stores and constructs floating-point numbers,
//! but it never adds or multiplies them: arithmetic is supplied by the caller as
//! a function on bit patterns (see [`crate::metric`]). Everything the library
//! does need (the IEEE 754 comparison, the total order used for sorting, and the
//! conversion of integers) is integer arithmetic on the encoding.

use vstd::arithmetic::power2::pow2;
use vstd::prelude::*;

verus! {

/// The sign bit of a single-precision number.
pub const SINGLE_SIGN: u32 = 0x8000_0000;

/// Encoding of single-precision positive infinity. A larger magnitude is a NaN.
pub const SINGLE_INFINITY: u32 = 0x7F80_0000;

/// Encoding of the single-precision number zero.
pub const SINGLE_ZERO: u32 = 0;

/// Encoding of the single-precision number one.
pub const SINGLE_ONE: u32 = 0x3F80_0000;

/// Encoding of the single-precision number two.
pub const SINGLE_TWO: u32 = 0x4000_0000;

/// One step of the exponent field of a single-precision encoding.
pub const SINGLE_EXPONENT_STEP: u32 = 0x80_0000;

/// The sign bit of a double-precision number.
pub const DOUBLE_SIGN: u64 = 0x8000_0000_0000_0000;

/// Encoding of double-precision positive infinity. A larger magnitude is a NaN.
pub const DOUBLE_INFINITY: u64 = 0x7FF0_0000_0000_0000;

/// Encoding of the double-precision number one.
pub const DOUBLE_ONE: u64 = 0x3FF0_0000_0000_0000;

/// A single-precision (32-bit) floating-point number, by its IEEE 754 encoding.
#[derive(Debug, Clone, Copy)]
pub struct Single {
    /// The encoding: sign, eight exponent bits, twenty-three fraction bits.
    pub bits: u32,
}

/// A double-precision (64-bit) floating-point number, by its IEEE 754 encoding.
#[derive(Debug, Clone, Copy)]
pub struct Double {
    /// The encoding: sign, eleven exponent bits, fifty-two fraction bits.
    pub bits: u64,
}

impl Single {
    /// True when the sign bit is set.
    pub open spec fn negative(self) -> bool {
        self.bits >= SINGLE_SIGN
    }

    /// The encoding without its sign bit. Among numbers of one sign, a larger
    /// magnitude encodes a number farther from zero.
    pub open spec fn magnitude(self) -> int {
        if self.negative() {
            self.bits - SINGLE_SIGN
        } else {
            self.bits as int
        }
    }

    /// True when this encodes no number.
    pub open spec fn nan(self) -> bool {
        self.magnitude() > SINGLE_INFINITY
    }

    /// True when this encodes a number that is not infinite.
    pub open spec fn finite(self) -> bool {
        self.magnitude() < SINGLE_INFINITY
    }

    /// True when this encodes a finite number that is far enough from zero to have
    /// all its digits.
    pub open spec fn normal(self) -> bool {
        SINGLE_EXPONENT_STEP <= self.magnitude() < SINGLE_INFINITY
    }

    /// The number without its sign.
    pub open spec fn absolute(self) -> Single {
        Single { bits: self.magnitude() as u32 }
    }

    /// An integer that orders the numbers as IEEE 754 compares them; both zeros
    /// are mapped to zero.
    pub open spec fn signed(self) -> int {
        if self.negative() {
            -self.magnitude()
        } else {
            self.magnitude()
        }
    }

    /// `self < other` as IEEE 754 compares: false as soon as one is a NaN.
    pub open spec fn less(self, other: Single) -> bool {
        !self.nan() && !other.nan() && self.signed() < other.signed()
    }

    /// `self == other` as IEEE 754 compares: the zeros are equal and a NaN
    /// equals nothing.
    pub open spec fn equal(self, other: Single) -> bool {
        !self.nan() && !other.nan() && self.signed() == other.signed()
    }

    /// The position of this encoding in the IEEE 754 total order, which sorts
    /// negative NaNs first, then the numbers with `-0` before `+0`, then
    /// positive NaNs.
    pub open spec fn rank(self) -> int {
        if self.negative() {
            -self.magnitude() - 1
        } else {
            self.magnitude()
        }
    }

    /// The exponent field, read as one for the numbers next to zero that have
    /// an exponent field of zero.
    pub open spec fn scale(self) -> nat {
        let field = self.magnitude() / SINGLE_EXPONENT_STEP as int;
        if field == 0 {
            1
        } else {
            field as nat
        }
    }

    /// The integer that is multiplied by a power of two to give the number.
    pub open spec fn significand(self) -> nat {
        let fraction = self.magnitude() % SINGLE_EXPONENT_STEP as int;
        if self.magnitude() < SINGLE_EXPONENT_STEP {
            fraction as nat
        } else {
            (SINGLE_EXPONENT_STEP + fraction) as nat
        }
    }

    /// This is exactly the number `k / 2^s`: a finite encoding stands for its
    /// significand times two to the scale, over `2^150`.
    pub open spec fn is_ratio(self, k: nat, s: nat) -> bool {
        &&& !self.negative()
        &&& self.finite()
        &&& self.significand() * pow2(self.scale() + s) == k
            * pow2(150)
    }

    /// The number with the other sign.
    pub open spec fn opposite(self) -> Single {
        Single {
            bits: if self.negative() {
                (self.bits - SINGLE_SIGN) as u32
            } else {
                (self.bits + SINGLE_SIGN) as u32
            },
        }
    }

    /// The encoding of a number `n` of at most twenty-four bits.
    pub open spec fn byte_bits(n: nat) -> int {
        if n == 0 {
            SINGLE_ZERO as int
        } else {
            (top_bit(n) + 126) * SINGLE_EXPONENT_STEP + n * pow2((23 - top_bit(n)) as nat)
        }
    }

    /// The integer nearest to a number that is not negative, the larger of two
    /// that are equally near.
    pub open spec fn nearest_integer(self) -> nat {
        (self.significand() * pow2(self.scale() + 1) + pow2(150)) / pow2(151)
    }

    /// The nearest of the integers that fit in a byte. What is no number counts
    /// as zero.
    pub open spec fn nearest_byte(self) -> int {
        if self.nan() || self.negative() {
            0
        } else if self.bits == SINGLE_INFINITY || self.nearest_integer() > 255 {
            255
        } else {
            self.nearest_integer() as int
        }
    }

    /// The number with this encoding.
    pub fn from_bits(bits: u32) -> (s: Single)
        ensures
            s == (Single { bits }),
    {
        Single { bits }
    }

    /// The encoding of this number.
    pub fn to_bits(self) -> (bits: u32)
        ensures
            bits == self.bits,
    {
        self.bits
    }

    /// Is this a number that is not infinite?
    pub fn is_finite(self) -> (b: bool)
        ensures
            b == self.finite(),
    {
        let magnitude: u32 = if self.bits >= SINGLE_SIGN {
            self.bits - SINGLE_SIGN
        } else {
            self.bits
        };
        magnitude < SINGLE_INFINITY
    }

    /// Is this a NaN?
    pub fn is_nan(self) -> (b: bool)
        ensures
            b == self.nan(),
    {
        if self.bits >= SINGLE_SIGN {
            self.bits - SINGLE_SIGN > SINGLE_INFINITY
        } else {
            self.bits > SINGLE_INFINITY
        }
    }

    /// Is this a finite number far enough from zero to have all its digits?
    pub fn is_normal(self) -> (b: bool)
        ensures
            b == self.normal(),
    {
        let magnitude: u32 = self.abs().bits;
        SINGLE_EXPONENT_STEP <= magnitude && magnitude < SINGLE_INFINITY
    }

    /// The number without its sign.
    pub fn abs(self) -> (s: Single)
        ensures
            s == self.absolute(),
    {
        if self.bits >= SINGLE_SIGN {
            Single { bits: self.bits - SINGLE_SIGN }
        } else {
            self
        }
    }

    /// The number `k / 2^24`, which is exactly representable.
    pub fn from_unit_fraction(k: u32) -> (s: Single)
        requires
            k < 0x100_0000,
        ensures
            s.is_ratio(k as nat, 24),
            s.bits < SINGLE_ONE,
    {
        if k == 0 {
            let zero = Single { bits: 0 };
            assert(zero.significand() == 0);
            assert(zero.is_ratio(0, 24));
            return zero;
        }
        let mut m: u32 = k;
        let mut scale: u32 = 126;
        proof {
            vstd::arithmetic::power2::lemma2_to64();
            assert(k * pow2(0) == k);
        }
        while m < SINGLE_EXPONENT_STEP
            invariant
                103 <= scale <= 126,
                1 <= k,
                m == k * pow2((126 - scale) as nat),
                m < 0x100_0000,
                pow2(23) == 0x80_0000,
            decreases scale,
        {
            proof {
                let v = pow2((126 - scale) as nat);
                assert(v <= m) by (nonlinear_arith)
                    requires
                        m == k * v,
                        k >= 1,
                        v >= 0,
                ;
                vstd::arithmetic::power2::lemma_pow2_unfold((127 - scale) as nat);
                assert(k * (2 * v) == 2 * (k * v)) by (nonlinear_arith);
            }
            m = 2 * m;
            scale = scale - 1;
        }
        let s = Single { bits: (scale - 1) * SINGLE_EXPONENT_STEP + m };
        proof {
            let e = scale as int;
            let step = SINGLE_EXPONENT_STEP as int;
            assert(s.magnitude() == e * step + (m - step));
            vstd::arithmetic::div_mod::lemma_fundamental_div_mod_converse(
                s.magnitude(),
                step,
                e,
                m - step,
            );
            assert(s.scale() == scale && s.significand() == m);
            let v = pow2((126 - scale) as nat);
            let w = pow2((scale + 24) as nat);
            vstd::arithmetic::power2::lemma_pow2_adds((126 - scale) as nat, (scale + 24) as nat);
            assert((k * v) * w == k * (v * w)) by (nonlinear_arith);
        }
        s
    }

    /// The number with the other sign.
    pub fn negated(self) -> (s: Single)
        ensures
            s == self.opposite(),
    {
        if self.bits >= SINGLE_SIGN {
            Single { bits: self.bits - SINGLE_SIGN }
        } else {
            Single { bits: self.bits + SINGLE_SIGN }
        }
    }

    /// The number `n`, which is exactly representable.
    pub fn from_u8(n: u8) -> (s: Single)
        ensures
            s.bits == Single::byte_bits(n as nat),
            s.is_ratio(n as nat, 0),
    {
        if n == 0 {
            let zero = Single { bits: SINGLE_ZERO };
            assert(zero.significand() == 0);
            assert(n * pow2(150) == 0) by (nonlinear_arith)
                requires
                    n == 0,
            ;
            return zero;
        }
        let mut p: u32 = 0;
        let mut t: u32 = n as u32;
        proof {
            vstd::arithmetic::power2::lemma2_to64();
        }
        while t >= 2
            invariant
                1 <= t,
                top_bit(n as nat) == p + top_bit(t as nat),
                t * pow2(p as nat) <= n,
                n < (t + 1) * pow2(p as nat),
                p <= 7,
                pow2(8) == 256,
            decreases t,
        {
            let ghost u = pow2(p as nat);
            let half: u32 = t / 2;
            proof {
                vstd::arithmetic::power2::lemma_pow2_unfold((p + 1) as nat);
                assert(half * (2 * u) <= t * u) by (nonlinear_arith)
                    requires
                        2 * half <= t,
                        u >= 0,
                ;
                assert((t + 1) * u <= (half + 1) * (2 * u)) by (nonlinear_arith)
                    requires
                        t + 1 <= 2 * (half + 1),
                        u >= 0,
                ;
                if p + 1 > 7 {
                    assert(half * (2 * u) >= 2 * u) by (nonlinear_arith)
                        requires
                            half >= 1,
                            u >= 0,
                    ;
                    assert(false);
                }
            }
            t = half;
            p = p + 1;
        }
        let shift: u32 = 23 - p;
        let ghost u = pow2(p as nat);
        let ghost v = pow2(shift as nat);
        proof {
            assert(t == 1);
            assert(1 * u == u);
            assert((1 + 1) * u == 2 * u);
            vstd::arithmetic::power2::lemma2_to64();
            vstd::arithmetic::power2::lemma_pow2_adds(p as nat, shift as nat);
            vstd::arithmetic::power2::lemma_pow2_pos(shift as nat);
            assert(n * v < (2 * u) * v) by (nonlinear_arith)
                requires
                    n < 2 * u,
                    v > 0,
            ;
            assert((2 * u) * v == 2 * (u * v)) by (nonlinear_arith);
            assert(n * v >= u * v) by (nonlinear_arith)
                requires
                    n >= u,
                    v > 0,
            ;
            vstd::bits::lemma_u32_shl_is_mul(n as u32, shift);
        }
        let m: u32 = (n as u32) << shift;
        let s = Single { bits: (p + 126) * SINGLE_EXPONENT_STEP + m };
        proof {
            let e = p + 127;
            let step = SINGLE_EXPONENT_STEP as int;
            assert(s.magnitude() == e * step + (m - step));
            vstd::arithmetic::div_mod::lemma_fundamental_div_mod_converse(
                s.magnitude(),
                step,
                e,
                m - step,
            );
            assert(s.scale() == e && s.significand() == m);
            let w = pow2(e as nat);
            vstd::arithmetic::power2::lemma_pow2_adds(shift as nat, e as nat);
            assert((n * v) * w == n * (v * w)) by (nonlinear_arith);
        }
        s
    }

    /// The nearest of the integers that fit in a byte, halves away from zero.
    /// What is no number counts as zero.
    pub fn to_nearest_byte(self) -> (byte: u8)
        ensures
            byte == self.nearest_byte(),
    {
        if self.bits >= SINGLE_SIGN || self.bits > SINGLE_INFINITY {
            return 0;
        }
        let field: u32 = self.bits / SINGLE_EXPONENT_STEP;
        if field < 126 {
            proof {
                lemma_below_half(self);
            }
            return 0;
        }
        if field >= 135 {
            proof {
                if self.bits < SINGLE_INFINITY {
                    lemma_above_a_byte(self);
                }
            }
            return 255;
        }
        let significand: u32 = self.bits % SINGLE_EXPONENT_STEP + SINGLE_EXPONENT_STEP;
        let shift: u32 = 150 - field;
        let unit: u32 = 1u32 << shift;
        let half: u32 = 1u32 << (shift - 1);
        proof {
            vstd::arithmetic::power2::lemma2_to64();
            vstd::bits::lemma_u32_pow2_no_overflow(shift as nat);
            vstd::bits::lemma_u32_pow2_no_overflow((shift - 1) as nat);
            vstd::bits::lemma_u32_shl_is_mul(1, shift);
            vstd::bits::lemma_u32_shl_is_mul(1, (shift - 1) as u32);
            vstd::arithmetic::power2::lemma_pow2_pos(shift as nat);
            if shift < 24 {
                vstd::arithmetic::power2::lemma_pow2_strictly_increases(shift as nat, 24);
            }
            vstd::arithmetic::power2::lemma_pow2_strictly_increases((shift - 1) as nat, 24);
            lemma_nearest_by_shift(self, significand as nat, shift as nat);
        }
        let rounded: u32 = (significand + half) / unit;
        if rounded > 255 {
            255
        } else {
            rounded as u8
        }
    }

    fn to_signed(self) -> (i: i64)
        ensures
            i == self.signed(),
    {
        if self.bits >= SINGLE_SIGN {
            -((self.bits - SINGLE_SIGN) as i64)
        } else {
            self.bits as i64
        }
    }

    /// `self < other` as IEEE 754 compares.
    pub fn lt(self, other: Single) -> (b: bool)
        ensures
            b == self.less(other),
    {
        !self.is_nan() && !other.is_nan() && self.to_signed() < other.to_signed()
    }

    /// Does `self` come strictly before `other` in the total order?
    pub fn total_lt(self, other: Single) -> (b: bool)
        ensures
            b == (self.rank() < other.rank()),
    {
        let self_negative: bool = self.bits >= SINGLE_SIGN;
        let other_negative: bool = other.bits >= SINGLE_SIGN;
        if self_negative != other_negative {
            self_negative
        } else if self_negative {
            self.bits > other.bits
        } else {
            self.bits < other.bits
        }
    }
}

/// A number below one half is nearest to zero.
proof fn lemma_below_half(s: Single)
    requires
        !s.negative(),
        s.bits / SINGLE_EXPONENT_STEP < 126,
    ensures
        s.nearest_integer() == 0,
{
    let sig = s.significand();
    let scale = s.scale();
    assert(scale <= 125);
    vstd::arithmetic::power2::lemma2_to64();
    assert(sig < pow2(24));
    vstd::arithmetic::power2::lemma_pow2_adds(24, 126);
    vstd::arithmetic::power2::lemma_pow2_unfold(151);
    if scale + 1 < 126 {
        vstd::arithmetic::power2::lemma_pow2_strictly_increases(scale + 1, 126);
    }
    let a = pow2(scale + 1);
    let b = pow2(126);
    let c = pow2(24);
    vstd::arithmetic::power2::lemma_pow2_pos(scale + 1);
    assert(sig * a < c * b) by (nonlinear_arith)
        requires
            sig < c,
            0 < a <= b,
            sig >= 0,
    ;
    assert(sig * a >= 0) by (nonlinear_arith)
        requires
            sig >= 0,
            a >= 0,
    ;
    vstd::arithmetic::div_mod::lemma_basic_div(
        (sig * a + pow2(150)) as int,
        pow2(151) as int,
    );
}

/// A number from 256 on is nearest to an integer that does not fit in a byte.
proof fn lemma_above_a_byte(s: Single)
    requires
        !s.negative(),
        s.bits / SINGLE_EXPONENT_STEP >= 135,
        s.finite(),
    ensures
        s.nearest_integer() > 255,
{
    let sig = s.significand();
    let scale = s.scale();
    assert(scale >= 135);
    vstd::arithmetic::power2::lemma2_to64();
    assert(sig >= pow2(23));
    vstd::arithmetic::power2::lemma_pow2_adds(23, 136);
    vstd::arithmetic::power2::lemma_pow2_adds(8, 151);
    if scale + 1 > 136 {
        vstd::arithmetic::power2::lemma_pow2_strictly_increases(136, scale + 1);
    }
    let a = pow2(scale + 1);
    let b = pow2(136);
    let c = pow2(23);
    assert(sig * a >= c * b) by (nonlinear_arith)
        requires
            sig >= c,
            a >= b,
            b >= 0,
            c >= 0,
    ;
    let d = pow2(151) as int;
    vstd::arithmetic::power2::lemma_pow2_pos(151);
    let x = (sig * a + pow2(150)) as int;
    assert(x >= 256 * d);
    assert(x / d >= 256) by (nonlinear_arith)
        requires
            x >= 256 * d,
            d > 0,
    ;
}

/// The nearest integer, by a shift of the significand.
proof fn lemma_nearest_by_shift(s: Single, sig: nat, shift: nat)
    requires
        !s.negative(),
        sig == s.significand(),
        1 <= shift <= 150,
        s.scale() == 150 - shift,
    ensures
        s.nearest_integer() == (sig + pow2((shift - 1) as nat)) / pow2(shift),
{
    let common = pow2((151 - shift) as nat);
    let half = pow2((shift - 1) as nat);
    let unit = pow2(shift);
    vstd::arithmetic::power2::lemma_pow2_adds((151 - shift) as nat, (shift - 1) as nat);
    vstd::arithmetic::power2::lemma_pow2_adds((151 - shift) as nat, shift);
    vstd::arithmetic::power2::lemma_pow2_pos((151 - shift) as nat);
    vstd::arithmetic::power2::lemma_pow2_pos(shift);
    assert(sig * common + common * half == common * (sig + half)) by (nonlinear_arith);
    vstd::arithmetic::div_mod::lemma_div_multiples_vanish_quotient(
        common as int,
        (sig + half) as int,
        unit as int,
    );
}

impl PartialEq for Single {
    /// IEEE 754 equality.
    fn eq(&self, other: &Single) -> (b: bool) {
        !self.is_nan() && !other.is_nan() && self.to_signed() == other.to_signed()
    }
}

impl vstd::std_specs::cmp::PartialEqSpecImpl for Single {
    open spec fn obeys_eq_spec() -> bool {
        true
    }

    open spec fn eq_spec(&self, other: &Single) -> bool {
        self.equal(*other)
    }
}

/// The exponent of the largest power of two that is at most `n`.
pub open spec fn top_bit(n: nat) -> nat
    decreases n,
{
    if n < 2 {
        0
    } else {
        1 + top_bit(n / 2)
    }
}

/// `n / 2^s` rounded to the nearest integer, and to the even one of two that
/// are equally near.
pub open spec fn round_shift(n: nat, s: nat) -> nat {
    let unit = pow2(s);
    let q = n / unit;
    let r = n % unit;
    if 2 * r > unit || (2 * r == unit && q % 2 == 1) {
        q + 1
    } else {
        q
    }
}

/// One step of the exponent field of a double-precision encoding.
pub const DOUBLE_EXPONENT_STEP: u64 = 0x10_0000_0000_0000;

impl Double {
    /// True when the sign bit is set.
    pub open spec fn negative(self) -> bool {
        self.bits >= DOUBLE_SIGN
    }

    /// The encoding without its sign bit.
    pub open spec fn magnitude(self) -> int {
        if self.negative() {
            self.bits - DOUBLE_SIGN
        } else {
            self.bits as int
        }
    }

    /// True when this encodes no number.
    pub open spec fn nan(self) -> bool {
        self.magnitude() > DOUBLE_INFINITY
    }

    /// An integer that orders the numbers as IEEE 754 compares them; both zeros
    /// are mapped to zero.
    pub open spec fn signed(self) -> int {
        if self.negative() {
            -self.magnitude()
        } else {
            self.magnitude()
        }
    }

    /// The exponent field, read as one for the numbers next to zero that have
    /// an exponent field of zero.
    pub open spec fn scale(self) -> nat {
        let field = self.magnitude() / DOUBLE_EXPONENT_STEP as int;
        if field == 0 {
            1
        } else {
            field as nat
        }
    }

    /// The integer that is multiplied by a power of two to give the number.
    pub open spec fn significand(self) -> nat {
        let fraction = self.magnitude() % DOUBLE_EXPONENT_STEP as int;
        if self.magnitude() < DOUBLE_EXPONENT_STEP {
            fraction as nat
        } else {
            (DOUBLE_EXPONENT_STEP + fraction) as nat
        }
    }

    /// The largest integer that is not greater than a finite number that is not
    /// negative: such a number stands for its significand times two to the scale,
    /// over `2^1075`.
    pub open spec fn integer_part(self) -> nat {
        self.significand() * pow2(self.scale()) / pow2(1075)
    }

    /// The integer part of a number, kept between zero and `limit`. What is no
    /// number counts as zero.
    pub open spec fn floor_within(self, limit: nat) -> nat {
        if self.nan() || self.negative() {
            0
        } else if self.bits == DOUBLE_INFINITY || self.integer_part() > limit {
            limit
        } else {
            self.integer_part()
        }
    }

    /// `self < other` as IEEE 754 compares: false as soon as one is a NaN.
    pub open spec fn less(self, other: Double) -> bool {
        !self.nan() && !other.nan() && self.signed() < other.signed()
    }

    /// `self == other` as IEEE 754 compares: the zeros are equal and a NaN
    /// equals nothing.
    pub open spec fn equal(self, other: Double) -> bool {
        !self.nan() && !other.nan() && self.signed() == other.signed()
    }

    /// The encoding of `n` rounded to fifty-three significant bits, to nearest
    /// with ties to even. The significand carries its leading bit into the
    /// exponent field, which is why the field holds one less than the exponent
    /// that is being encoded.
    pub open spec fn nat_bits(n: nat) -> int {
        if n == 0 {
            0
        } else if top_bit(n) <= 52 {
            (top_bit(n) + 1022) * DOUBLE_EXPONENT_STEP + n * pow2(
                (52 - top_bit(n)) as nat,
            )
        } else {
            (top_bit(n) + 1022) * DOUBLE_EXPONENT_STEP + round_shift(
                n,
                (top_bit(n) - 52) as nat,
            )
        }
    }

    /// The encoding of the double nearest to the integer `n`.
    pub open spec fn int_bits(n: int) -> int {
        if n < 0 {
            DOUBLE_SIGN + Double::nat_bits((-n) as nat)
        } else {
            Double::nat_bits(n as nat)
        }
    }

    /// The number with this encoding.
    pub fn from_bits(bits: u64) -> (d: Double)
        ensures
            d == (Double { bits }),
    {
        Double { bits }
    }

    /// The encoding of this number.
    pub fn to_bits(self) -> (bits: u64)
        ensures
            bits == self.bits,
    {
        self.bits
    }

    /// Is this a NaN?
    pub fn is_nan(self) -> (b: bool)
        ensures
            b == self.nan(),
    {
        if self.bits >= DOUBLE_SIGN {
            self.bits - DOUBLE_SIGN > DOUBLE_INFINITY
        } else {
            self.bits > DOUBLE_INFINITY
        }
    }

    fn to_signed(self) -> (i: i64)
        ensures
            i == self.signed(),
    {
        if self.bits >= DOUBLE_SIGN {
            -((self.bits - DOUBLE_SIGN) as i64)
        } else {
            self.bits as i64
        }
    }

    /// `self < other` as IEEE 754 compares.
    pub fn lt(self, other: Double) -> (b: bool)
        ensures
            b == self.less(other),
    {
        !self.is_nan() && !other.is_nan() && self.to_signed() < other.to_signed()
    }

    /// The integer part of this number, kept between zero and `limit`. What is no
    /// number counts as zero.
    pub fn floor_up_to(self, limit: u64) -> (n: u64)
        requires
            limit <= DOUBLE_EXPONENT_STEP,
        ensures
            n == self.floor_within(limit as nat),
    {
        if self.bits >= DOUBLE_SIGN || self.bits > DOUBLE_INFINITY {
            return 0;
        }
        let field: u64 = self.bits / DOUBLE_EXPONENT_STEP;
        if field < 1023 {
            proof {
                lemma_below_one(self);
            }
            return 0;
        }
        if field >= 1075 {
            proof {
                if self.bits < DOUBLE_INFINITY {
                    lemma_large(self);
                }
            }
            return limit;
        }
        let significand: u64 = self.bits % DOUBLE_EXPONENT_STEP + DOUBLE_EXPONENT_STEP;
        let shift: u64 = 1075 - field;
        let unit: u64 = 1u64 << shift;
        proof {
            vstd::bits::lemma_u64_pow2_no_overflow(shift as nat);
            vstd::bits::lemma_u64_shl_is_mul(1, shift);
            vstd::arithmetic::power2::lemma_pow2_pos(shift as nat);
            lemma_floor_by_shift(self, significand as nat, shift as nat);
        }
        let whole: u64 = significand / unit;
        if whole > limit {
            limit
        } else {
            whole
        }
    }

    /// The double nearest to `n`.
    pub fn from_u64(n: u64) -> (d: Double)
        ensures
            d.bits == Double::nat_bits(n as nat),
            d.bits < DOUBLE_INFINITY,
            n > 0 ==> d.bits >= DOUBLE_ONE,
            n < 0x40_0000_0000_0000 ==> d.bits <= DOUBLE_ONE + 54 * DOUBLE_EXPONENT_STEP,
    {
        if n == 0 {
            return Double { bits: 0 };
        }
        let mut p: u64 = 0;
        let mut t: u64 = n;
        proof {
            vstd::arithmetic::power2::lemma2_to64();
            vstd::arithmetic::power2::lemma2_to64_rest();
        }
        while t >= 2
            invariant
                1 <= t,
                top_bit(n as nat) == p + top_bit(t as nat),
                t * pow2(p as nat) <= n,
                n < (t + 1) * pow2(p as nat),
                p <= 63,
                pow2(64) == 0x1_0000_0000_0000_0000,
            decreases t,
        {
            let ghost u = pow2(p as nat);
            let half: u64 = t / 2;
            proof {
                vstd::arithmetic::power2::lemma_pow2_unfold((p + 1) as nat);
                assert(pow2((p + 1) as nat) == 2 * u);
                assert(half * (2 * u) <= t * u) by (nonlinear_arith)
                    requires
                        2 * half <= t,
                        u >= 0,
                ;
                assert((t + 1) * u <= (half + 1) * (2 * u)) by (nonlinear_arith)
                    requires
                        t + 1 <= 2 * (half + 1),
                        u >= 0,
                ;
                if p + 1 > 63 {
                    assert(half * (2 * u) >= 2 * u) by (nonlinear_arith)
                        requires
                            half >= 1,
                            u >= 0,
                    ;
                    assert(false);
                }
            }
            t = half;
            p = p + 1;
        }
        let ghost u = pow2(p as nat);
        proof {
            assert(t == 1);
            assert(1 * u == u);
            assert((1 + 1) * u == 2 * u);
        }
        if p <= 52 {
            let shift: u64 = 52 - p;
            proof {
                let v = pow2(shift as nat);
                vstd::arithmetic::power2::lemma_pow2_adds(p as nat, shift as nat);
                vstd::arithmetic::power2::lemma_pow2_pos(shift as nat);
                assert(n * v < (2 * u) * v) by (nonlinear_arith)
                    requires
                        n < 2 * u,
                        v > 0,
                ;
                assert((2 * u) * v == 2 * (u * v)) by (nonlinear_arith);
                assert(n * v >= u * v) by (nonlinear_arith)
                    requires
                        n >= u,
                        v > 0,
                ;
                vstd::bits::lemma_u64_shl_is_mul(n, shift);
            }
            Double { bits: (p + 1022) * DOUBLE_EXPONENT_STEP + (n << shift) }
        } else {
            let shift: u64 = p - 52;
            let unit: u64 = 1u64 << shift;
            proof {
                vstd::bits::lemma_u64_pow2_no_overflow(shift as nat);
                vstd::bits::lemma_u64_shl_is_mul(1, shift);
                vstd::arithmetic::power2::lemma_pow2_adds(52, shift as nat);
                vstd::arithmetic::power2::lemma_pow2_adds(11, shift as nat);
                if shift < 11 {
                    vstd::arithmetic::power2::lemma_pow2_strictly_increases(shift as nat, 11);
                }
            }
            let q: u64 = n / unit;
            let r: u64 = n % unit;
            proof {
                let c = 0x10_0000_0000_0000int;
                assert(u == c * unit);
                assert(q < 2 * c) by (nonlinear_arith)
                    requires
                        n < 2 * (c * unit),
                        unit > 0,
                        q == n / unit,
                ;
                assert(q >= c) by (nonlinear_arith)
                    requires
                        n >= c * unit,
                        unit > 0,
                        q == n / unit,
                ;
                if n < 0x40_0000_0000_0000 {
                    assert(p <= 53) by {
                        if p >= 54 {
                            vstd::arithmetic::power2::lemma_pow2_adds(54, (p - 54) as nat);
                            vstd::arithmetic::power2::lemma_pow2_pos((p - 54) as nat);
                            let w = pow2((p - 54) as nat);
                            assert(u >= 0x40_0000_0000_0000) by (nonlinear_arith)
                                requires
                                    u == 0x40_0000_0000_0000 * w,
                                    w > 0,
                            ;
                        }
                    }
                }
            }
            let significand: u64 = if 2 * r > unit || (2 * r == unit && q % 2 == 1) {
                q + 1
            } else {
                q
            };
            Double { bits: (p + 1022) * DOUBLE_EXPONENT_STEP + significand }
        }
    }

    /// The double nearest to `n`.
    pub fn from_i64(n: i64) -> (d: Double)
        ensures
            d.bits == Double::int_bits(n as int),
    {
        if n < 0 {
            let size: u64 = if n == i64::MIN {
                DOUBLE_SIGN
            } else {
                (-n) as u64
            };
            let d = Double::from_u64(size);
            Double { bits: DOUBLE_SIGN + d.bits }
        } else {
            Double::from_u64(n as u64)
        }
    }
}

/// A number below one has no whole part.
proof fn lemma_below_one(d: Double)
    requires
        !d.negative(),
        d.bits / DOUBLE_EXPONENT_STEP < 1023,
    ensures
        d.integer_part() == 0,
{
    let sig = d.significand();
    let scale = d.scale();
    assert(scale <= 1022);
    vstd::arithmetic::power2::lemma2_to64();
    vstd::arithmetic::power2::lemma2_to64_rest();
    assert(sig < pow2(53));
    vstd::arithmetic::power2::lemma_pow2_adds(53, 1022);
    if scale < 1022 {
        vstd::arithmetic::power2::lemma_pow2_strictly_increases(scale, 1022);
    }
    let a = pow2(scale);
    let b = pow2(1022);
    let c = pow2(53);
    vstd::arithmetic::power2::lemma_pow2_pos(scale);
    assert(sig * a < c * b) by (nonlinear_arith)
        requires
            sig < c,
            0 < a <= b,
            sig >= 0,
    ;
    assert(sig * a >= 0) by (nonlinear_arith)
        requires
            sig >= 0,
            a >= 0,
    ;
    vstd::arithmetic::div_mod::lemma_basic_div((sig * a) as int, pow2(1075) as int);
}

/// A number from `2^52` on has a whole part of at least that.
proof fn lemma_large(d: Double)
    requires
        !d.negative(),
        d.bits / DOUBLE_EXPONENT_STEP >= 1075,
        d.bits < DOUBLE_INFINITY,
    ensures
        d.integer_part() >= DOUBLE_EXPONENT_STEP,
{
    let sig = d.significand();
    let scale = d.scale();
    assert(scale >= 1075);
    let a = pow2(scale);
    let b = pow2(1075) as int;
    if scale > 1075 {
        vstd::arithmetic::power2::lemma_pow2_strictly_increases(1075, scale);
    }
    vstd::arithmetic::power2::lemma_pow2_pos(1075);
    let c = DOUBLE_EXPONENT_STEP as int;
    assert(sig >= c);
    assert(sig * a >= c * b) by (nonlinear_arith)
        requires
            sig >= c,
            a >= b,
            b >= 0,
            c >= 0,
    ;
    let x = (sig * a) as int;
    assert(x / b >= c) by (nonlinear_arith)
        requires
            x >= c * b,
            b > 0,
    ;
}

/// The whole part, by a shift of the significand.
proof fn lemma_floor_by_shift(d: Double, sig: nat, shift: nat)
    requires
        !d.negative(),
        sig == d.significand(),
        shift <= 1075,
        d.scale() == 1075 - shift,
    ensures
        d.integer_part() == sig / pow2(shift),
{
    let common = pow2((1075 - shift) as nat);
    let unit = pow2(shift);
    vstd::arithmetic::power2::lemma_pow2_adds((1075 - shift) as nat, shift);
    vstd::arithmetic::power2::lemma_pow2_pos((1075 - shift) as nat);
    vstd::arithmetic::power2::lemma_pow2_pos(shift);
    assert(sig * common == common * sig) by (nonlinear_arith);
    vstd::arithmetic::div_mod::lemma_div_multiples_vanish_quotient(
        common as int,
        sig as int,
        unit as int,
    );
}

impl PartialEq for Double {
    /// IEEE 754 equality.
    fn eq(&self, other: &Double) -> (b: bool) {
        !self.is_nan() && !other.is_nan() && self.to_signed() == other.to_signed()
    }
}

impl vstd::std_specs::cmp::PartialEqSpecImpl for Double {
    open spec fn obeys_eq_spec() -> bool {
        true
    }

    open spec fn eq_spec(&self, other: &Double) -> bool {
        self.equal(*other)
    }
}

} // verus!
