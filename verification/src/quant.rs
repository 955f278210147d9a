//! Scalar quantization: compress vectors to one byte per component.
//!
//! Each dimension is mapped independently from its observed `[min, max]` range
//! onto the 256 buckets of a byte. That is a 4x reduction in vector storage for
//! the cost of a little precision. Because embedding coordinates are bounded and
//! roughly uniform within a dimension, the precision lost is small.
//!
//! A code is turned back on the fly (`min + code * scale`). The operations on
//! numbers are a parameter, as everywhere (see [`crate::metric`]).

use crate::exact::{
    gap, is_exact, law_bytes_are_whole_numbers, law_nearest_integer_is_near, law_units_are_ordered,
    one,
};
use crate::float::{top_bit, Single, SINGLE_INFINITY, SINGLE_SIGN, SINGLE_ZERO};
use crate::metric::{apply, is_arithmetic, performed, result_of, Op};
use vstd::prelude::*;

verus! {

/// Component `d` of the first `n` rows of a matrix with rows of length `dim`.
pub open spec fn column(data: Seq<Single>, dim: nat, n: nat, d: int) -> Seq<Single> {
    Seq::new(n, |i: int| data[i * dim + d])
}

/// The least of some numbers: infinity if there are none. What is no number is
/// passed over.
pub open spec fn lowest(values: Seq<Single>) -> Single
    decreases values.len(),
{
    if values.len() == 0 {
        Single { bits: SINGLE_INFINITY }
    } else if values.last().less(lowest(values.drop_last())) {
        values.last()
    } else {
        lowest(values.drop_last())
    }
}

/// The greatest of some numbers: minus infinity if there are none. What is no
/// number is passed over.
pub open spec fn highest(values: Seq<Single>) -> Single
    decreases values.len(),
{
    if values.len() == 0 {
        Single { bits: (SINGLE_SIGN + SINGLE_INFINITY) as u32 }
    } else if highest(values.drop_last()).less(values.last()) {
        values.last()
    } else {
        highest(values.drop_last())
    }
}

/// The range of a dimension with these values: from the least to the greatest,
/// collapsed to zero where there is no finite least value.
pub open spec fn range(values: Seq<Single>) -> (Single, Single) {
    if lowest(values).finite() {
        (lowest(values), highest(values))
    } else {
        (Single { bits: SINGLE_ZERO }, Single { bits: SINGLE_ZERO })
    }
}

/// Encoding of the number of steps between the first code and the last.
pub const STEPS: u32 = 0x437F_0000;

/// The step of a dimension with a given range: the range over the number of
/// steps, or zero for a range that is not positive.
pub open spec fn step_of<F>(f: F, min: Single, max: Single) -> Single where
    F: Fn(Op, Single, Single) -> Single,
 {
    let zero = Single { bits: SINGLE_ZERO };
    let width = result_of(f, Op::Sub, max, min);
    if zero.less(width) {
        result_of(f, Op::Div, width, Single { bits: STEPS })
    } else {
        zero
    }
}

/// The code of a component: how many steps it lies above the minimum, rounded to
/// a whole number that fits in a byte. In a dimension without a positive step it
/// is zero.
pub open spec fn code_of<F>(f: F, x: Single, min: Single, scale: Single) -> u8 where
    F: Fn(Op, Single, Single) -> Single,
 {
    if (Single { bits: SINGLE_ZERO }).less(scale) {
        result_of(f, Op::Div, result_of(f, Op::Sub, x, min), scale).nearest_byte() as u8
    } else {
        0
    }
}

/// The component that a code stands for: as many steps above the minimum.
pub open spec fn component_of<F>(f: F, code: u8, min: Single, scale: Single) -> Single where
    F: Fn(Op, Single, Single) -> Single,
 {
    let steps = Single { bits: Single::byte_bits(code as nat) as u32 };
    result_of(f, Op::Add, min, result_of(f, Op::Mul, steps, scale))
}

/// The operations of a step were carried out.
pub open spec fn step_performed<F>(f: F, min: Single, max: Single) -> bool where
    F: Fn(Op, Single, Single) -> Single,
 {
    let width = result_of(f, Op::Sub, max, min);
    &&& performed(f, Op::Sub, max, min)
    &&& (Single { bits: SINGLE_ZERO }).less(width) ==> performed(
        f,
        Op::Div,
        width,
        Single { bits: STEPS },
    )
}

/// The operations that learn the step of a dimension with these values were
/// carried out.
pub open spec fn learned_performed<F>(f: F, values: Seq<Single>) -> bool where
    F: Fn(Op, Single, Single) -> Single,
 {
    step_performed(f, range(values).0, range(values).1)
}

/// The operations of a code were carried out.
pub open spec fn code_performed<F>(f: F, x: Single, min: Single, scale: Single) -> bool where
    F: Fn(Op, Single, Single) -> Single,
 {
    (Single { bits: SINGLE_ZERO }).less(scale) ==> {
        &&& performed(f, Op::Sub, x, min)
        &&& performed(f, Op::Div, result_of(f, Op::Sub, x, min), scale)
    }
}

/// The operations that turn a code back were carried out.
pub open spec fn component_performed<F>(f: F, code: u8, min: Single, scale: Single) -> bool where
    F: Fn(Op, Single, Single) -> Single,
 {
    let steps = Single { bits: Single::byte_bits(code as nat) as u32 };
    &&& performed(f, Op::Mul, steps, scale)
    &&& performed(f, Op::Add, min, result_of(f, Op::Mul, steps, scale))
}

/// A per-dimension affine map between numbers and one-byte codes, learned from a
/// sample of vectors.
#[derive(Debug)]
pub struct ScalarQuantizer {
    dim: usize,
    /// Per-dimension minimum; the value a code of `0` decodes to.
    min: Vec<Single>,
    /// Per-dimension step, `(max - min) / 255`. Zero for a constant dimension.
    scale: Vec<Single>,
}

/// What a quantizer has learned.
#[verifier::ext_equal]
pub struct QuantizerView {
    /// The length of the vectors.
    pub dim: nat,
    /// The minimum of every dimension.
    pub min: Seq<Single>,
    /// The step of every dimension.
    pub scale: Seq<Single>,
}

impl QuantizerView {
    /// There is a minimum and a step for every dimension.
    pub open spec fn complete(self) -> bool {
        self.min.len() == self.dim && self.scale.len() == self.dim
    }

    /// The codes of a vector.
    pub open spec fn codes<F>(self, f: F, vector: Seq<Single>) -> Seq<u8> where
        F: Fn(Op, Single, Single) -> Single,
     {
        Seq::new(self.dim, |d: int| code_of(f, vector[d], self.min[d], self.scale[d]))
    }

    /// The vector that codes stand for.
    pub open spec fn decoded<F>(self, f: F, codes: Seq<u8>) -> Seq<Single> where
        F: Fn(Op, Single, Single) -> Single,
     {
        Seq::new(self.dim, |d: int| component_of(f, codes[d], self.min[d], self.scale[d]))
    }
}

impl View for ScalarQuantizer {
    type V = QuantizerView;

    closed spec fn view(&self) -> QuantizerView {
        QuantizerView { dim: self.dim as nat, min: self.min@, scale: self.scale@ }
    }
}

impl Clone for ScalarQuantizer {
    fn clone(&self) -> (copy: ScalarQuantizer)
        ensures
            copy@ == self@,
    {
        let copy = ScalarQuantizer {
            dim: self.dim,
            min: self.min.clone(),
            scale: self.scale.clone(),
        };
        assert(copy.min@ =~= self.min@);
        assert(copy.scale@ =~= self.scale@);
        copy
    }
}

impl ScalarQuantizer {
    /// Learn per-dimension ranges from a row-major `count × dim` matrix. An
    /// incomplete row at its end is ignored.
    pub fn train<F>(dim: usize, data: &[Single], f: &F) -> (quantizer: ScalarQuantizer) where
        F: Fn(Op, Single, Single) -> Single,

        requires
            dim > 0,
            is_arithmetic(*f),
        ensures
            quantizer@.complete(),
            quantizer@.dim == dim,
            forall|d: int|
                0 <= d < dim ==> {
                    let learned = range(
                        column(data@, dim as nat, (data@.len() / dim as nat) as nat, d),
                    );
                    &&& #[trigger] quantizer@.min[d] == learned.0
                    &&& quantizer@.scale[d] == step_of(*f, learned.0, learned.1)
                    &&& learned_performed(
                        *f,
                        column(data@, dim as nat, (data@.len() / dim as nat) as nat, d),
                    )
                },
    {
        let n: usize = data.len() / dim;
        let ghost m = dim as nat;
        let mut min: Vec<Single> = Vec::new();
        let mut max: Vec<Single> = Vec::new();
        for d in 0..dim
            invariant
                min@.len() == d,
                max@.len() == d,
                forall|e: int| 0 <= e < d ==> #[trigger] min@[e] == lowest(Seq::empty()),
                forall|e: int| 0 <= e < d ==> #[trigger] max@[e] == highest(Seq::empty()),
        {
            min.push(Single::from_bits(SINGLE_INFINITY));
            max.push(Single::from_bits(SINGLE_SIGN + SINGLE_INFINITY));
        }
        proof {
            assert forall|e: int| 0 <= e < dim implies #[trigger] column(data@, m, 0, e)
                == Seq::<Single>::empty() by {
                assert(column(data@, m, 0, e) =~= Seq::empty());
            }
        }
        for i in 0..n
            invariant
                dim > 0,
                m == dim,
                n == data@.len() / m,
                data@.len() <= usize::MAX,
                min@.len() == dim,
                max@.len() == dim,
                forall|e: int|
                    0 <= e < dim ==> #[trigger] min@[e] == lowest(column(data@, m, i as nat, e)),
                forall|e: int|
                    0 <= e < dim ==> #[trigger] max@[e] == highest(column(data@, m, i as nat, e)),
        {
            proof {
                lemma_row_fits(data@.len(), m, n as nat, i as int);
            }
            let base: usize = i * dim;
            for d in 0..dim
                invariant
                    m == dim,
                    base == i * dim,
                    base + dim <= data@.len() <= usize::MAX,
                    min@.len() == dim,
                    max@.len() == dim,
                    forall|e: int|
                        0 <= e < d ==> #[trigger] min@[e] == lowest(
                            column(data@, m, (i + 1) as nat, e),
                        ),
                    forall|e: int|
                        0 <= e < d ==> #[trigger] max@[e] == highest(
                            column(data@, m, (i + 1) as nat, e),
                        ),
                    forall|e: int|
                        d <= e < dim ==> #[trigger] min@[e] == lowest(
                            column(data@, m, i as nat, e),
                        ),
                    forall|e: int|
                        d <= e < dim ==> #[trigger] max@[e] == highest(
                            column(data@, m, i as nat, e),
                        ),
            {
                let v: Single = data[base + d];
                proof {
                    let longer = column(data@, m, (i + 1) as nat, d as int);
                    assert(longer.drop_last() =~= column(data@, m, i as nat, d as int));
                    assert(longer.last() == v);
                }
                if v.lt(min[d]) {
                    min[d] = v;
                }
                if max[d].lt(v) {
                    max[d] = v;
                }
            }
        }
        let mut scale: Vec<Single> = Vec::new();
        let ghost found = min@;
        for d in 0..dim
            invariant
                is_arithmetic(*f),
                m == dim,
                min@.len() == dim,
                max@.len() == dim,
                found.len() == dim,
                scale@.len() == d,
                forall|e: int|
                    0 <= e < dim ==> #[trigger] found[e] == lowest(column(data@, m, n as nat, e)),
                forall|e: int|
                    d <= e < dim ==> #[trigger] min@[e] == found[e],
                forall|e: int|
                    d <= e < dim ==> #[trigger] max@[e] == highest(
                        column(data@, m, n as nat, e),
                    ),
                forall|e: int|
                    0 <= e < d ==> #[trigger] min@[e] == range(column(data@, m, n as nat, e)).0,
                forall|e: int|
                    0 <= e < d ==> #[trigger] scale@[e] == step_of(
                        *f,
                        range(column(data@, m, n as nat, e)).0,
                        range(column(data@, m, n as nat, e)).1,
                    ),
                forall|e: int|
                    0 <= e < d ==> #[trigger] learned_performed(
                        *f,
                        column(data@, m, n as nat, e),
                    ),
        {
            assert(min@[d as int] == found[d as int]);
            if !min[d].is_finite() {
                min[d] = Single::from_bits(SINGLE_ZERO);
                max[d] = Single::from_bits(SINGLE_ZERO);
            }
            let lo: Single = min[d];
            let hi: Single = max[d];
            let zero = Single::from_bits(SINGLE_ZERO);
            let width: Single = apply(f, Op::Sub, hi, lo);
            if zero.lt(width) {
                scale.push(apply(f, Op::Div, width, Single::from_bits(STEPS)));
            } else {
                scale.push(zero);
            }
            assert(learned_performed(*f, column(data@, m, n as nat, d as int)));
        }
        ScalarQuantizer { dim, min, scale }
    }

    /// Reconstruct a quantizer from previously saved parameters.
    pub fn from_parts(dim: usize, min: Vec<Single>, scale: Vec<Single>) -> (quantizer:
        ScalarQuantizer)
        requires
            min@.len() == dim,
            scale@.len() == dim,
        ensures
            quantizer@ == (QuantizerView { dim: dim as nat, min: min@, scale: scale@ }),
    {
        ScalarQuantizer { dim, min, scale }
    }

    /// The minimum of every dimension.
    pub fn min(&self) -> (min: &[Single])
        ensures
            min@ == self@.min,
    {
        self.min.as_slice()
    }

    /// The step of every dimension.
    pub fn scale(&self) -> (scale: &[Single])
        ensures
            scale@ == self@.scale,
    {
        self.scale.as_slice()
    }

    /// Encode one `dim`-length vector into the first `dim` bytes of `out`.
    pub fn encode_into<F>(&self, vector: &[Single], out: &mut [u8], f: &F) where
        F: Fn(Op, Single, Single) -> Single,

        requires
            self@.complete(),
            is_arithmetic(*f),
            vector@.len() >= self@.dim,
            old(out)@.len() >= self@.dim,
        ensures
            final(out)@ == self@.codes(*f, vector@) + old(out)@.skip(self@.dim as int),
            forall|d: int|
                0 <= d < self@.dim ==> code_performed(
                    *f,
                    vector@[d],
                    self@.min[d],
                    #[trigger] self@.scale[d],
                ),
    {
        let ghost codes = self@.codes(*f, vector@);
        for d in 0..self.dim
            invariant
                self@.complete(),
                is_arithmetic(*f),
                codes == self@.codes(*f, vector@),
                vector@.len() >= self@.dim,
                out@.len() == old(out)@.len() >= self@.dim,
                forall|e: int| 0 <= e < d ==> #[trigger] out@[e] == codes[e],
                forall|e: int|
                    0 <= e < d ==> code_performed(
                        *f,
                        vector@[e],
                        self@.min[e],
                        #[trigger] self@.scale[e],
                    ),
                forall|e: int| d <= e < out@.len() ==> #[trigger] out@[e] == old(out)@[e],
        {
            let scale: Single = self.scale[d];
            out[d] = if Single::from_bits(SINGLE_ZERO).lt(scale) {
                let above: Single = apply(f, Op::Sub, vector[d], self.min[d]);
                apply(f, Op::Div, above, scale).to_nearest_byte()
            } else {
                0
            };
        }
        assert(out@ =~= codes + old(out)@.skip(self@.dim as int));
    }

    /// Dequantize a single code back to an approximate number.
    pub fn dequantize<F>(&self, d: usize, code: u8, f: &F) -> (x: Single) where
        F: Fn(Op, Single, Single) -> Single,

        requires
            self@.complete(),
            is_arithmetic(*f),
            d < self@.dim,
        ensures
            x == component_of(*f, code, self@.min[d as int], self@.scale[d as int]),
            component_performed(*f, code, self@.min[d as int], self@.scale[d as int]),
    {
        apply(
            f,
            Op::Add,
            self.min[d],
            apply(f, Op::Mul, Single::from_u8(code), self.scale[d]),
        )
    }
}

/// The least value is one of the values, unless there is no finite one, and no
/// number among them is less.
pub proof fn law_lowest_is_least(values: Seq<Single>)
    ensures
        values.contains(lowest(values)) || lowest(values).bits == SINGLE_INFINITY,
        !lowest(values).nan(),
        forall|i: int| 0 <= i < values.len() ==> !(#[trigger] values[i]).less(lowest(values)),
    decreases values.len(),
{
    if values.len() > 0 {
        let front = values.drop_last();
        law_lowest_is_least(front);
        assert forall|i: int| 0 <= i < values.len() implies !(#[trigger] values[i]).less(
            lowest(values),
        ) by {
            if i < front.len() {
                assert(values[i] == front[i]);
            }
        }
        if front.contains(lowest(front)) {
            let i = choose|i: int| 0 <= i < front.len() && front[i] == lowest(front);
            assert(values[i] == lowest(front));
        }
        assert(values[values.len() - 1] == values.last());
    }
}

/// The greatest value is one of the values, unless there is no finite one, and no
/// number among them is greater.
pub proof fn law_highest_is_greatest(values: Seq<Single>)
    ensures
        values.contains(highest(values)) || highest(values).bits == SINGLE_SIGN + SINGLE_INFINITY,
        !highest(values).nan(),
        forall|i: int| 0 <= i < values.len() ==> !highest(values).less(#[trigger] values[i]),
    decreases values.len(),
{
    if values.len() > 0 {
        let front = values.drop_last();
        law_highest_is_greatest(front);
        assert forall|i: int| 0 <= i < values.len() implies !highest(values).less(
            #[trigger] values[i],
        ) by {
            if i < front.len() {
                assert(values[i] == front[i]);
            }
        }
        if front.contains(highest(front)) {
            let i = choose|i: int| 0 <= i < front.len() && front[i] == highest(front);
            assert(values[i] == highest(front));
        }
        assert(values[values.len() - 1] == values.last());
    }
}

/// In a dimension without a positive step everything is encoded to code zero.
pub proof fn law_constant_dimension_encodes_to_zero<F>(
    quantizer: QuantizerView,
    f: F,
    vector: Seq<Single>,
    d: int,
) where F: Fn(Op, Single, Single) -> Single
    requires
        0 <= d < quantizer.dim,
        !(Single { bits: SINGLE_ZERO }).less(quantizer.scale[d]),
    ensures
        quantizer.codes(f, vector)[d] == 0,
{
}

/// Code zero stands for the minimum, in an arithmetic in which no steps are zero
/// and nothing added to the minimum is the minimum.
pub proof fn law_code_zero_is_the_minimum<F>(f: F, min: Single, scale: Single) where
    F: Fn(Op, Single, Single) -> Single,

    requires
        result_of(f, Op::Mul, Single { bits: SINGLE_ZERO }, scale) == (Single {
            bits: SINGLE_ZERO,
        }),
        result_of(f, Op::Add, min, Single { bits: SINGLE_ZERO }).equal(min),
    ensures
        component_of(f, 0, min, scale).equal(min),
        result_of(f, Op::Add, min, Single { bits: SINGLE_ZERO }) == min ==> component_of(
            f,
            0,
            min,
            scale,
        ) == min,
{
}

/// The range of a dimension that is constant over a sample is that one value.
proof fn lemma_range_of_constant(values: Seq<Single>, x: Single)
    requires
        values.len() > 0,
        x.finite(),
        forall|i: int| 0 <= i < values.len() ==> #[trigger] values[i] == x,
    ensures
        lowest(values) == x,
        highest(values) == x,
    decreases values.len(),
{
    let front = values.drop_last();
    assert(values[values.len() - 1] == x);
    if front.len() > 0 {
        assert forall|i: int| 0 <= i < front.len() implies #[trigger] front[i] == x by {
            assert(front[i] == values[i]);
        }
        lemma_range_of_constant(front, x);
    } else {
        assert(front =~= Seq::empty());
        assert(lowest(front).bits == SINGLE_INFINITY);
        assert(highest(front).bits == SINGLE_SIGN + SINGLE_INFINITY);
    }
}

/// A dimension that is constant over the sample comes back unchanged: its value
/// is learned as the minimum with no step, it is encoded to code zero, and code
/// zero stands for it. The arithmetic is one in which a number less itself is not
/// positive, zero times zero is zero, and the value plus zero is the value.
pub proof fn law_constant_dimension_is_stable<F>(
    f: F,
    quantizer: QuantizerView,
    values: Seq<Single>,
    x: Single,
    vector: Seq<Single>,
    d: int,
) where F: Fn(Op, Single, Single) -> Single
    requires
        0 <= d < quantizer.dim,
        quantizer.min[d] == range(values).0,
        quantizer.scale[d] == step_of(f, range(values).0, range(values).1),
        values.len() > 0,
        x.finite(),
        forall|i: int| 0 <= i < values.len() ==> #[trigger] values[i] == x,
        vector[d] == x,
        !(Single { bits: SINGLE_ZERO }).less(result_of(f, Op::Sub, x, x)),
        result_of(f, Op::Mul, Single { bits: SINGLE_ZERO }, Single { bits: SINGLE_ZERO }) == (
        Single { bits: SINGLE_ZERO }),
        result_of(f, Op::Add, x, Single { bits: SINGLE_ZERO }).equal(x),
    ensures
        quantizer.min[d] == x,
        quantizer.scale[d] == (Single { bits: SINGLE_ZERO }),
        quantizer.codes(f, vector)[d] == 0,
        quantizer.decoded(f, quantizer.codes(f, vector))[d].equal(vector[d]),
        result_of(f, Op::Add, x, Single { bits: SINGLE_ZERO }) == x ==> quantizer.decoded(
            f,
            quantizer.codes(f, vector),
        )[d] == vector[d],
{
    lemma_range_of_constant(values, x);
    law_constant_dimension_encodes_to_zero(quantizer, f, vector, d);
    law_code_zero_is_the_minimum(f, x, Single { bits: SINGLE_ZERO });
}

/// What is encoded and decoded again is off by at most half a step and what the
/// four operations on the way are off by, as long as the quotient lies among the
/// codes. Everything is counted in multiples of the smallest positive number, and
/// twice, so that half a step is a whole number.
pub proof fn law_round_trip_error<F>(f: F, x: Single, min: Single, scale: Single) where
    F: Fn(Op, Single, Single) -> Single,

    requires
        (Single { bits: SINGLE_ZERO }).less(scale),
        scale.finite(),
        ({
            let q = result_of(f, Op::Div, result_of(f, Op::Sub, x, min), scale);
            !q.negative() && q.finite() && q.nearest_integer() <= 255
        }),
    ensures
        ({
            let code = code_of(f, x, min, scale);
            let steps = Single { bits: Single::byte_bits(code as nat) as u32 };
            let above = result_of(f, Op::Sub, x, min);
            let q = result_of(f, Op::Div, above, scale);
            let t = result_of(f, Op::Mul, steps, scale);
            let back = component_of(f, code, min, scale);
            2 * (one() * gap(back.units(), x.units())) <= one() * scale.units() + 2 * (one() * gap(
                above.units(),
                x.units() - min.units(),
            ) + gap(q.units() * scale.units(), above.units() * one()) + one() * gap(
                t.units(),
                code * scale.units(),
            ) + one() * gap(back.units(), min.units() + t.units()))
        }),
{
    let zero = Single { bits: SINGLE_ZERO };
    let p = one() as int;
    let code = code_of(f, x, min, scale);
    let steps = Single { bits: Single::byte_bits(code as nat) as u32 };
    let above = result_of(f, Op::Sub, x, min);
    let q = result_of(f, Op::Div, above, scale);
    let t = result_of(f, Op::Mul, steps, scale);
    let back = component_of(f, code, min, scale);
    vstd::arithmetic::power2::lemma_pow2_pos(149);
    law_bytes_are_whole_numbers(0);
    assert(zero.units() == 0) by {
        assert(zero.bits == Single::byte_bits(0));
        assert(0 * one() == 0) by (nonlinear_arith);
    }
    law_units_are_ordered(zero, scale);
    law_nearest_integer_is_near(q);
    assert(code == q.nearest_integer());
    lemma_errors_add_up(
        p,
        code as int,
        x.units(),
        min.units(),
        scale.units(),
        above.units(),
        q.units(),
        t.units(),
        back.units(),
    );
}

/// How the errors of a round trip add up, in whole numbers.
proof fn lemma_errors_add_up(
    p: int,
    k: int,
    x: int,
    min: int,
    s: int,
    above: int,
    q: int,
    t: int,
    back: int,
)
    requires
        p > 0,
        s > 0,
        2 * gap(k * p, q) <= p,
    ensures
        2 * (p * gap(back, x)) <= p * s + 2 * (p * gap(above, x - min) + gap(q * s, above * p) + p
            * gap(t, k * s) + p * gap(back, min + t)),
{
    let e1 = back - (min + t);
    let e2 = t - k * s;
    let e3 = k * p - q;
    let e4 = q * s - above * p;
    let e5 = above - (x - min);
    assert(p * (back - x) == p * e1 + p * e2 + e3 * s + e4 + p * e5) by (nonlinear_arith)
        requires
            e1 == back - (min + t),
            e2 == t - k * s,
            e3 == k * p - q,
            e4 == q * s - above * p,
            e5 == above - (x - min),
    ;
    assert(2 * (e3 * s) <= p * s && -(p * s) <= 2 * (e3 * s)) by (nonlinear_arith)
        requires
            -p <= 2 * e3 <= p,
            s > 0,
    ;
    lemma_times_gap(p, back, x);
    lemma_times_gap(p, back, min + t);
    lemma_times_gap(p, t, k * s);
    lemma_times_gap(p, above, x - min);
}

/// A distance, as often as one likes.
proof fn lemma_times_gap(p: int, a: int, b: int)
    requires
        p > 0,
    ensures
        p * gap(a, b) == p * (a - b) || p * gap(a, b) == -(p * (a - b)),
        p * gap(a, b) >= p * (a - b),
        p * gap(a, b) >= -(p * (a - b)),
{
    assert(p * (b - a) == -(p * (a - b))) by (nonlinear_arith);
    assert(p * gap(a, b) >= 0) by (nonlinear_arith)
        requires
            p > 0,
            gap(a, b) >= 0,
    ;
}

/// The operations that learn a dimension with these values, encode a component of
/// it and decode it again are carried out without rounding.
pub open spec fn exact_round_trip<F>(f: F, values: Seq<Single>, x: Single) -> bool where
    F: Fn(Op, Single, Single) -> Single,
 {
    let (min, max) = range(values);
    let width = result_of(f, Op::Sub, max, min);
    let scale = step_of(f, min, max);
    let above = result_of(f, Op::Sub, x, min);
    let code = code_of(f, x, min, scale);
    let steps = Single { bits: Single::byte_bits(code as nat) as u32 };
    &&& is_exact(f, Op::Sub, max, min)
    &&& (Single { bits: SINGLE_ZERO }).less(width) ==> {
        &&& is_exact(f, Op::Div, width, Single { bits: STEPS })
        &&& is_exact(f, Op::Sub, x, min)
        &&& is_exact(f, Op::Div, above, scale)
    }
    &&& is_exact(f, Op::Mul, steps, scale)
    &&& is_exact(f, Op::Add, min, result_of(f, Op::Mul, steps, scale))
}

/// A component of the sample that is encoded and decoded again comes back within
/// one step, and even within half of one, where the operations are carried out
/// without rounding.
pub proof fn law_round_trip_is_within_one_step<F>(
    f: F,
    quantizer: QuantizerView,
    values: Seq<Single>,
    vector: Seq<Single>,
    d: int,
) where F: Fn(Op, Single, Single) -> Single
    requires
        0 <= d < quantizer.dim,
        quantizer.min[d] == range(values).0,
        quantizer.scale[d] == step_of(f, range(values).0, range(values).1),
        forall|i: int| 0 <= i < values.len() ==> (#[trigger] values[i]).finite(),
        values.contains(vector[d]),
        exact_round_trip(f, values, vector[d]),
    ensures
        ({
            let back = quantizer.decoded(f, quantizer.codes(f, vector))[d];
            &&& back.finite()
            &&& gap(back.units(), vector[d].units()) <= quantizer.scale[d].units()
            &&& 2 * gap(back.units(), vector[d].units()) <= quantizer.scale[d].units()
        }),
{
    let zero = Single { bits: SINGLE_ZERO };
    let p = one() as int;
    let x = vector[d];
    let min = range(values).0;
    let max = range(values).1;
    let scale = quantizer.scale[d];
    let width = result_of(f, Op::Sub, max, min);
    let code = code_of(f, x, min, scale);
    let steps = Single { bits: Single::byte_bits(code as nat) as u32 };
    let t = result_of(f, Op::Mul, steps, scale);
    let back = component_of(f, code, min, scale);
    vstd::arithmetic::power2::lemma_pow2_pos(149);
    law_bytes_are_whole_numbers(0);
    assert(zero.units() == 0) by {
        assert(zero.bits == Single::byte_bits(0));
        assert(0 * one() == 0) by (nonlinear_arith);
    }
    lemma_range_of_finite(values, x);
    law_units_are_ordered(x, min);
    law_units_are_ordered(max, x);
    law_units_are_ordered(zero, width);
    law_bytes_are_whole_numbers(code as nat);
    assert(t.units() == code * scale.units()) by {
        assert(t.units() * p == (code * p) * scale.units());
        assert(t.units() == code * scale.units()) by (nonlinear_arith)
            requires
                t.units() * p == (code * p) * scale.units(),
                p > 0,
        ;
    }
    if zero.less(width) {
        let above = result_of(f, Op::Sub, x, min);
        let q = result_of(f, Op::Div, above, scale);
        let full = Single { bits: STEPS };
        law_bytes_are_whole_numbers(255);
        assert(full.bits == Single::byte_bits(255)) by {
            reveal_with_fuel(top_bit, 9);
            vstd::arithmetic::power2::lemma2_to64();
        }
        assert(scale.units() * 255 == width.units()) by (nonlinear_arith)
            requires
                scale.units() * (255 * p) == width.units() * p,
                p > 0,
        ;
        law_units_are_ordered(zero, scale);
        lemma_quotient_is_a_code(p, q.units(), scale.units(), above.units());
        if q.negative() {
            assert(q.units() == 0);
            assert(above.units() == 0) by (nonlinear_arith)
                requires
                    0 * scale.units() == above.units() * p,
                    p > 0,
            ;
            assert(code == 0);
            assert(0 * scale.units() == 0) by (nonlinear_arith);
        } else {
            law_nearest_integer_is_near(q);
            law_round_trip_error(f, x, min, scale);
            assert(2 * gap(back.units(), x.units()) <= scale.units()) by (nonlinear_arith)
                requires
                    2 * (p * gap(back.units(), x.units())) <= p * scale.units() + 2 * (p * 0 + 0 + p
                        * 0 + p * 0),
                    p > 0,
            ;
        }
    } else {
        assert(code == 0);
        assert(0 * scale.units() == 0) by (nonlinear_arith);
    }
}

/// What a dimension of a sample is mapped to. Its least value `lo` is learned as
/// the minimum, and if the greatest `hi` is greater, the range between them is
/// divided into 255 steps: the step is the width over 255, whatever the
/// arithmetic, and 255 steps lead from the least to the greatest value where
/// nothing is rounded. A range that is not positive has no step.
pub proof fn law_range_is_divided_into_255_steps<F>(
    f: F,
    quantizer: QuantizerView,
    values: Seq<Single>,
    lo: Single,
    hi: Single,
    d: int,
) where F: Fn(Op, Single, Single) -> Single
    requires
        0 <= d < quantizer.dim,
        quantizer.min[d] == range(values).0,
        quantizer.scale[d] == step_of(f, range(values).0, range(values).1),
        values.contains(lo),
        values.contains(hi),
        forall|i: int|
            0 <= i < values.len() ==> (#[trigger] values[i]).finite() && lo.units()
                <= values[i].units() <= hi.units(),
        forall|i: int|
            0 <= i < values.len() ==> ((#[trigger] values[i]).units() == lo.units() ==> values[i]
                == lo) && (values[i].units() == hi.units() ==> values[i] == hi),
    ensures
        quantizer.min[d] == lo,
        ({
            let width = result_of(f, Op::Sub, hi, lo);
            let parts = Single { bits: 0x437F_0000 };
            let step = quantizer.scale[d];
            &&& parts.units() == 255 * one()
            &&& (Single { bits: 0 }).less(width) ==> step == result_of(f, Op::Div, width, parts)
            &&& !(Single { bits: 0 }).less(width) ==> step.bits == 0
            &&& is_exact(f, Op::Sub, hi, lo) && (lo.units() < hi.units() ==> is_exact(
                f,
                Op::Div,
                width,
                parts,
            )) ==> 255 * step.units() == hi.units() - lo.units()
        }),
{
    let zero = Single { bits: SINGLE_ZERO };
    let p = one() as int;
    let width = result_of(f, Op::Sub, hi, lo);
    let parts = Single { bits: STEPS };
    vstd::arithmetic::power2::lemma_pow2_pos(149);
    law_bytes_are_whole_numbers(0);
    law_bytes_are_whole_numbers(255);
    assert(zero.units() == 0) by {
        assert(zero.bits == Single::byte_bits(0));
        assert(0 * one() == 0) by (nonlinear_arith);
    }
    assert(parts.bits == Single::byte_bits(255)) by {
        reveal_with_fuel(top_bit, 9);
        vstd::arithmetic::power2::lemma2_to64();
    }
    lemma_range_is(values, lo, hi);
    if is_exact(f, Op::Sub, hi, lo) {
        law_units_are_ordered(zero, width);
        if lo.units() < hi.units() && is_exact(f, Op::Div, width, parts) {
            let step = quantizer.scale[d];
            assert(255 * step.units() == width.units()) by (nonlinear_arith)
                requires
                    step.units() * (255 * p) == width.units() * p,
                    p > 0,
            ;
        }
    }
}

/// The range of finite values runs from the least to the greatest.
proof fn lemma_range_is(values: Seq<Single>, lo: Single, hi: Single)
    requires
        values.contains(lo),
        values.contains(hi),
        forall|i: int|
            0 <= i < values.len() ==> (#[trigger] values[i]).finite() && lo.units()
                <= values[i].units() <= hi.units(),
        forall|i: int|
            0 <= i < values.len() ==> ((#[trigger] values[i]).units() == lo.units() ==> values[i]
                == lo) && (values[i].units() == hi.units() ==> values[i] == hi),
    ensures
        range(values) == (lo, hi),
{
    law_lowest_is_least(values);
    law_highest_is_greatest(values);
    lemma_range_of_finite(values, lo);
    lemma_range_of_finite(values, hi);
    let i = choose|i: int| 0 <= i < values.len() && values[i] == lo;
    let j = choose|j: int| 0 <= j < values.len() && values[j] == hi;
    assert(lowest(values).finite()) by {
        if !values.contains(lowest(values)) {
            assert(values[i].finite());
            assert(values[i].less(lowest(values)));
        } else {
            let k = choose|k: int| 0 <= k < values.len() && values[k] == lowest(values);
            assert(values[k].finite());
        }
    }
    assert(values.contains(lowest(values)));
    assert(values.contains(highest(values))) by {
        if highest(values).bits == SINGLE_SIGN + SINGLE_INFINITY {
            assert(values[i].finite());
            assert(highest(values).less(values[i]));
        }
    }
    let k = choose|k: int| 0 <= k < values.len() && values[k] == lowest(values);
    let l = choose|l: int| 0 <= l < values.len() && values[l] == highest(values);
    assert(values[k].finite() && values[l].finite());
    law_units_are_ordered(lo, values[k]);
    law_units_are_ordered(values[l], hi);
    assert(!values[i].less(lowest(values)));
    assert(!highest(values).less(values[j]));
}

/// The ends of the range of a sample take the ends of the codes: where nothing is
/// rounded, the least value is encoded to code zero and the greatest to the last
/// code, 255, unless they are the same; and what is decoded of a component of the
/// sample is off by at most one 510th of the range.
pub proof fn law_codes_span_the_range<F>(
    f: F,
    quantizer: QuantizerView,
    values: Seq<Single>,
    lo: Single,
    hi: Single,
    vector: Seq<Single>,
    d: int,
) where F: Fn(Op, Single, Single) -> Single
    requires
        0 <= d < quantizer.dim,
        quantizer.min[d] == range(values).0,
        quantizer.scale[d] == step_of(f, range(values).0, range(values).1),
        values.contains(lo),
        values.contains(hi),
        values.contains(vector[d]),
        lo.units() < hi.units(),
        forall|i: int|
            0 <= i < values.len() ==> (#[trigger] values[i]).finite() && lo.units()
                <= values[i].units() <= hi.units(),
        forall|i: int|
            0 <= i < values.len() ==> ((#[trigger] values[i]).units() == lo.units() ==> values[i]
                == lo) && (values[i].units() == hi.units() ==> values[i] == hi),
        exact_round_trip(f, values, vector[d]),
    ensures
        ({
            let code = quantizer.codes(f, vector)[d];
            let back = quantizer.decoded(f, quantizer.codes(f, vector))[d];
            &&& vector[d] == lo ==> code == 0
            &&& vector[d] == hi ==> code == 255
            &&& back.units() == lo.units() + code * quantizer.scale[d].units()
            &&& 255 * quantizer.scale[d].units() == hi.units() - lo.units()
            &&& 510 * gap(back.units(), vector[d].units()) <= hi.units() - lo.units()
        }),
{
    let zero = Single { bits: SINGLE_ZERO };
    let p = one() as int;
    let x = vector[d];
    let scale = quantizer.scale[d];
    let width = result_of(f, Op::Sub, hi, lo);
    let above = result_of(f, Op::Sub, x, lo);
    let q = result_of(f, Op::Div, above, scale);
    let code = code_of(f, x, lo, scale);
    let steps = Single { bits: Single::byte_bits(code as nat) as u32 };
    let t = result_of(f, Op::Mul, steps, scale);
    lemma_range_is(values, lo, hi);
    vstd::arithmetic::power2::lemma_pow2_pos(149);
    law_bytes_are_whole_numbers(0);
    law_bytes_are_whole_numbers(code as nat);
    assert(zero.units() == 0) by {
        assert(zero.bits == Single::byte_bits(0));
        assert(0 * one() == 0) by (nonlinear_arith);
    }
    law_units_are_ordered(zero, width);
    law_range_is_divided_into_255_steps(f, quantizer, values, lo, hi, d);
    law_round_trip_is_within_one_step(f, quantizer, values, vector, d);
    law_units_are_ordered(zero, scale);
    assert(t.units() == code * scale.units()) by {
        assert(t.units() * p == (code * p) * scale.units());
        assert(t.units() == code * scale.units()) by (nonlinear_arith)
            requires
                t.units() * p == (code * p) * scale.units(),
                p > 0,
        ;
    }
    lemma_quotient_is_a_code(p, q.units(), scale.units(), above.units());
    if x == lo {
        assert(q.units() == 0) by (nonlinear_arith)
            requires
                q.units() * scale.units() == 0 * p,
                scale.units() > 0,
        ;
        if !q.negative() {
            law_nearest_integer_is_near(q);
            assert((2 * 0 + p) / (2 * p) == 0) by (nonlinear_arith)
                requires
                    p > 0,
            ;
        }
    }
    if x == hi {
        assert(q.units() == 255 * p) by (nonlinear_arith)
            requires
                q.units() * scale.units() == (255 * scale.units()) * p,
                scale.units() > 0,
        ;
        assert(!q.negative());
        law_nearest_integer_is_near(q);
        assert((2 * (255 * p) + p) / (2 * p) == 255) by (nonlinear_arith)
            requires
                p > 0,
        ;
    }
}

/// A part of the whole range is at most as many steps.
proof fn lemma_quotient_is_a_code(p: int, q: int, s: int, above: int)
    requires
        p > 0,
        s > 0,
        0 <= above <= 255 * s,
        q * s == above * p,
    ensures
        0 <= q <= 255 * p,
        (2 * q + p) / (2 * p) <= 255,
{
    assert(0 <= q <= 255 * p) by (nonlinear_arith)
        requires
            p > 0,
            s > 0,
            0 <= above <= 255 * s,
            q * s == above * p,
    ;
    assert((2 * q + p) / (2 * p) <= 255) by (nonlinear_arith)
        requires
            p > 0,
            0 <= q <= 255 * p,
    ;
}

/// Among finite values there is a least and a greatest, and none is outside.
proof fn lemma_range_of_finite(values: Seq<Single>, x: Single)
    requires
        forall|i: int| 0 <= i < values.len() ==> (#[trigger] values[i]).finite(),
        values.contains(x),
    ensures
        x.finite(),
        range(values).0.finite(),
        range(values).1.finite(),
        !x.less(range(values).0),
        !range(values).1.less(x),
{
    law_lowest_is_least(values);
    law_highest_is_greatest(values);
    let i = choose|i: int| 0 <= i < values.len() && values[i] == x;
    assert(values[i].finite());
    if lowest(values).bits == SINGLE_INFINITY {
        assert(values[i].less(lowest(values)));
    }
    if values.contains(lowest(values)) {
        let j = choose|j: int| 0 <= j < values.len() && values[j] == lowest(values);
        assert(values[j].finite());
    }
    if highest(values).bits == SINGLE_SIGN + SINGLE_INFINITY {
        assert(highest(values).less(values[i]));
    }
    if values.contains(highest(values)) {
        let j = choose|j: int| 0 <= j < values.len() && values[j] == highest(values);
        assert(values[j].finite());
    }
}

/// The code of any number is the one whose component is nearest to it: zero for
/// what lies at or below the minimum, 255 for what lies at or above the last code's
/// component, and in between a code at most half a step away. What the arithmetic
/// makes no number of has code zero. Nothing is rounded on the way to the code.
pub proof fn law_code_is_the_nearest<F>(f: F, x: Single, min: Single, scale: Single) where
    F: Fn(Op, Single, Single) -> Single,

    requires
        scale.finite(),
        scale.units() > 0,
    ensures
        ({
            let code = code_of(f, x, min, scale) as int;
            let above = result_of(f, Op::Sub, x, min);
            let q = result_of(f, Op::Div, above, scale);
            &&& q.nan() ==> code == 0
            &&& q.bits == 0x7F80_0000 ==> code == 255
            &&& q.bits == 0xFF80_0000 ==> code == 0
            &&& q.finite() && q.units() <= 0 ==> code == 0
            &&& q.finite() && q.units() >= 255 * one() ==> code == 255
            &&& q.finite() && 0 <= q.units() <= 255 * one() ==> 2 * code * one() - one() <= 2
                * q.units() < 2 * code * one() + one()
            &&& is_exact(f, Op::Sub, x, min) && is_exact(f, Op::Div, above, scale) ==> {
                &&& x.units() <= min.units() ==> code == 0
                &&& x.units() >= min.units() + 255 * scale.units() ==> code == 255
                &&& min.units() <= x.units() <= min.units() + 255 * scale.units() ==> 2 * gap(
                    x.units(),
                    min.units() + code * scale.units(),
                ) <= scale.units()
            }
        }),
{
    let zero = Single { bits: SINGLE_ZERO };
    let p = one() as int;
    let s = scale.units();
    let code = code_of(f, x, min, scale) as int;
    let above = result_of(f, Op::Sub, x, min);
    let q = result_of(f, Op::Div, above, scale);
    vstd::arithmetic::power2::lemma_pow2_pos(149);
    law_bytes_are_whole_numbers(0);
    assert(zero.units() == 0) by {
        assert(zero.bits == Single::byte_bits(0));
        assert(0 * one() == 0) by (nonlinear_arith);
    }
    law_units_are_ordered(zero, scale);
    if q.finite() {
        lemma_nearest_code(q);
    }
    if is_exact(f, Op::Sub, x, min) && is_exact(f, Op::Div, above, scale) {
        let a = above.units();
        law_units_are_ordered(zero, q);
        if !q.negative() {
            law_nearest_integer_is_near(q);
        }
        if a <= 0 {
            assert(q.units() <= 0) by (nonlinear_arith)
                requires
                    q.units() * s == a * p,
                    a <= 0,
                    s > 0,
                    p > 0,
            ;
            if !q.negative() {
                assert((2 * 0 + p) / (2 * p) == 0) by (nonlinear_arith)
                    requires
                        p > 0,
                ;
            }
            assert(code == 0);
            assert(0 * s == 0) by (nonlinear_arith);
        } else {
            assert(q.units() > 0) by (nonlinear_arith)
                requires
                    q.units() * s == a * p,
                    a > 0,
                    s > 0,
                    p > 0,
            ;
            if a >= 255 * s {
                assert(q.units() >= 255 * p) by (nonlinear_arith)
                    requires
                        q.units() * s == a * p,
                        a >= 255 * s,
                        s > 0,
                        p > 0,
                ;
                assert((2 * q.units() + p) / (2 * p) >= 255) by (nonlinear_arith)
                    requires
                        q.units() >= 255 * p,
                        p > 0,
                ;
                assert(code == 255);
            } else {
                lemma_quotient_is_a_code(p, q.units(), s, a);
                assert(code == q.nearest_integer());
                let e = code * p - q.units();
                assert(p * (code * s - a) == e * s) by (nonlinear_arith)
                    requires
                        e == code * p - q.units(),
                        q.units() * s == a * p,
                ;
                assert(2 * gap(a, code * s) <= s) by (nonlinear_arith)
                    requires
                        p * (code * s - a) == e * s,
                        -p <= 2 * e <= p,
                        p > 0,
                        s > 0,
                        gap(a, code * s) == code * s - a || gap(a, code * s) == a - code * s,
                ;
            }
        }
    }
}

/// A code stands for that many steps above the minimum, where nothing is rounded.
pub proof fn law_code_stands_for_its_steps<F>(f: F, code: u8, min: Single, scale: Single) where
    F: Fn(Op, Single, Single) -> Single,

    requires
        ({
            let steps = Single { bits: Single::byte_bits(code as nat) as u32 };
            &&& is_exact(f, Op::Mul, steps, scale)
            &&& is_exact(f, Op::Add, min, result_of(f, Op::Mul, steps, scale))
        }),
    ensures
        component_of(f, code, min, scale).finite(),
        component_of(f, code, min, scale).units() == min.units() + code * scale.units(),
{
    let p = one() as int;
    let steps = Single { bits: Single::byte_bits(code as nat) as u32 };
    let t = result_of(f, Op::Mul, steps, scale);
    vstd::arithmetic::power2::lemma_pow2_pos(149);
    law_bytes_are_whole_numbers(code as nat);
    assert(t.units() == code * scale.units()) by (nonlinear_arith)
        requires
            t.units() * p == (code * p) * scale.units(),
            p > 0,
    ;
}

/// Every dimension is encoded and decoded by itself, from the component, the
/// minimum and the step that stand in its place.
pub proof fn law_dimensions_are_independent<F>(
    f: F,
    quantizer: QuantizerView,
    vector: Seq<Single>,
    codes: Seq<u8>,
    d: int,
) where F: Fn(Op, Single, Single) -> Single
    requires
        0 <= d < quantizer.dim,
    ensures
        quantizer.codes(f, vector).len() == quantizer.dim,
        quantizer.codes(f, vector)[d] == code_of(
            f,
            vector[d],
            quantizer.min[d],
            quantizer.scale[d],
        ),
        quantizer.decoded(f, codes).len() == quantizer.dim,
        quantizer.decoded(f, codes)[d] == component_of(
            f,
            codes[d],
            quantizer.min[d],
            quantizer.scale[d],
        ),
{
}

/// What a dimension is learned from: the components that stand in its place in
/// every row of the sample.
pub proof fn law_column_holds_one_component_of_every_row(
    data: Seq<Single>,
    dim: nat,
    n: nat,
    d: int,
    i: int,
)
    requires
        0 <= i < n,
    ensures
        column(data, dim, n, d).len() == n,
        column(data, dim, n, d)[i] == data[i * dim + d],
{
}

/// The rows of a matrix lie within it.
proof fn lemma_row_fits(len: nat, dim: nat, n: nat, i: int)
    requires
        dim > 0,
        n == len / dim,
        0 <= i < n,
    ensures
        0 <= i * dim,
        i * dim + dim <= len,
{
    assert(i * dim + dim <= n * dim) by (nonlinear_arith)
        requires
            0 <= i < n,
            dim > 0,
    ;
    assert(n * dim <= len) by (nonlinear_arith)
        requires
            dim > 0,
            n == len / dim,
    ;
    assert(0 <= i * dim) by (nonlinear_arith)
        requires
            0 <= i,
            dim > 0,
    ;
}

/// What is no number is passed over when a range is learned, and one more number
/// widens the range to itself if it is outside. With no finite least value the range is
/// zero.
pub proof fn law_one_more_value_widens_the_range(values: Seq<Single>, x: Single)
    ensures
        x.nan() ==> range(values.push(x)) == range(values),
        lowest(values.push(x)) == if x.less(lowest(values)) {
            x
        } else {
            lowest(values)
        },
        highest(values.push(x)) == if highest(values).less(x) {
            x
        } else {
            highest(values)
        },
        lowest(Seq::empty()).bits == 0x7F80_0000,
        highest(Seq::empty()).bits == 0xFF80_0000,
        range(Seq::empty()).0.bits == 0 && range(Seq::empty()).1.bits == 0,
        lowest(values).finite() ==> range(values) == (lowest(values), highest(values)),
        !lowest(values).finite() ==> range(values).0.bits == 0 && range(values).1.bits == 0,
{
    assert(values.push(x).drop_last() =~= values);
    assert(values.push(x).last() == x);
}

/// The byte nearest to a finite number, the greater of two that are equally near.
proof fn lemma_nearest_code(q: Single)
    requires
        q.finite(),
    ensures
        q.units() <= 0 ==> q.nearest_byte() == 0,
        q.units() >= 255 * one() ==> q.nearest_byte() == 255,
        0 <= q.units() <= 255 * one() ==> 2 * q.nearest_byte() * one() - one() <= 2 * q.units() < 2
            * q.nearest_byte() * one() + one(),
        0 <= q.nearest_byte() <= 255,
{
    let p = one() as int;
    let zero = Single { bits: SINGLE_ZERO };
    vstd::arithmetic::power2::lemma_pow2_pos(149);
    law_bytes_are_whole_numbers(0);
    assert(0 * one() == 0) by (nonlinear_arith);
    law_units_are_ordered(zero, q);
    if q.negative() {
        assert(q.units() <= 0);
        assert(2 * 0 * p == 0) by (nonlinear_arith);
    } else {
        let k = q.nearest_integer() as int;
        let u = q.units();
        law_nearest_integer_is_near(q);
        assert(u >= 0);
        vstd::arithmetic::div_mod::lemma_fundamental_div_mod(2 * u + p, 2 * p);
        vstd::arithmetic::div_mod::lemma_mod_bound(2 * u + p, 2 * p);
        assert((2 * p) * k == 2 * k * p) by (nonlinear_arith);
        if u <= 0 {
            assert(k == 0) by (nonlinear_arith)
                requires
                    2 * k * p <= p,
                    k >= 0,
                    p > 0,
            ;
        }
        if u >= 255 * p {
            assert(k >= 255) by (nonlinear_arith)
                requires
                    2 * u + p < 2 * k * p + 2 * p,
                    u >= 255 * p,
                    p > 0,
            ;
        }
        if u <= 255 * p {
            assert(k <= 255) by (nonlinear_arith)
                requires
                    2 * k * p <= 2 * u + p,
                    u <= 255 * p,
                    p > 0,
            ;
        }
    }
}

/// What is computed for a dimension, whatever the arithmetic rounds to: the step is the
/// difference of the greatest value and the least one divided by 255, and zero if that
/// difference is not positive; a component is decoded as the minimum plus its code
/// times the step.
pub proof fn law_steps_are_computed_from_the_range<F>(
    f: F,
    min: Single,
    max: Single,
    scale: Single,
    code: u8,
    steps: Single,
) where F: Fn(Op, Single, Single) -> Single
    requires
        steps.bits == Single::byte_bits(code as nat),
    ensures
        steps.units() == code * one(),
        ({
            let width = result_of(f, Op::Sub, max, min);
            let parts = Single { bits: 0x437F_0000 };
            &&& parts.units() == 255 * one()
            &&& (Single { bits: 0 }).less(width) ==> step_of(f, min, max) == result_of(
                f,
                Op::Div,
                width,
                parts,
            )
            &&& !(Single { bits: 0 }).less(width) ==> step_of(f, min, max).bits == 0
        }),
        component_of(f, code, min, scale) == result_of(
            f,
            Op::Add,
            min,
            result_of(f, Op::Mul, steps, scale),
        ),
        !(Single { bits: 0 }).less(scale) ==> code_of(f, max, min, scale) == 0,
{
    law_bytes_are_whole_numbers(code as nat);
    law_bytes_are_whole_numbers(255);
    assert(Single::byte_bits(255) == 0x437F_0000) by {
        reveal_with_fuel(top_bit, 9);
        vstd::arithmetic::power2::lemma2_to64();
    }
    assert(steps == (Single { bits: Single::byte_bits(code as nat) as u32 }));
}

} // verus!
