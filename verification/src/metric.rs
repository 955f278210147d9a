//! Distance metrics for vector similarity search.
//!
//! Every metric is expressed as a *distance*: smaller means more similar. That
//! single convention lets the rest of the engine treat search uniformly as
//! "find the k smallest distances", no matter which metric the caller picked.
//!
//! Here is said which numbers are added, multiplied and divided, and in which
//! order. The operations themselves are a parameter: one function that carries
//! out the five [`Op`]s. All that is asked of it is that it can be called on any
//! numbers and that its result depends on nothing else.

use crate::float::{Single, SINGLE_ONE, SINGLE_TWO, SINGLE_ZERO};
use vstd::prelude::*;

verus! {

/// A distance metric over dense single-precision vectors.
#[derive(Debug, Clone, Copy, PartialEq, Eq, Structural)]
pub enum Metric {
    /// Cosine distance, `1 - cosine_similarity`. Range `[0, 2]`; direction only,
    /// magnitude-invariant. The right default for text embeddings.
    Cosine,
    /// Negative inner product. A larger dot product yields a smaller distance,
    /// so this ranks by raw similarity (assumes vectors are pre-normalised).
    Dot,
    /// Squared Euclidean (L2) distance. Monotonic with true L2 but skips the
    /// square root, which does not change ordering.
    L2,
}

/// An operation on single-precision numbers.
#[derive(Debug, Clone, Copy, PartialEq, Eq, Structural)]
pub enum Op {
    /// The sum.
    Add,
    /// The difference.
    Sub,
    /// The product.
    Mul,
    /// The quotient.
    Div,
    /// The square root of the first number.
    Sqrt,
}

/// `f` carries out every operation on any numbers, and its result depends on
/// nothing else.
pub open spec fn is_arithmetic<F>(f: F) -> bool where F: Fn(Op, Single, Single) -> Single {
    &&& forall|op: Op, x: Single, y: Single| #[trigger] call_requires(f, (op, x, y))
    &&& forall|op: Op, x: Single, y: Single, r: Single, s: Single|
        #[trigger] call_ensures(f, (op, x, y), r) && #[trigger] call_ensures(f, (op, x, y), s)
            ==> r == s
}

/// The result that `f` gives for an operation.
pub open spec fn result_of<F>(f: F, op: Op, x: Single, y: Single) -> Single where
    F: Fn(Op, Single, Single) -> Single,
 {
    choose|r: Single| call_ensures(f, (op, x, y), r)
}

/// The operation was carried out: `f` returns [`result_of`] for it, so that what
/// is known of everything that `f` returns is known of that.
pub open spec fn performed<F>(f: F, op: Op, x: Single, y: Single) -> bool where
    F: Fn(Op, Single, Single) -> Single,
 {
    call_ensures(f, (op, x, y), result_of(f, op, x, y))
}

/// Carry out an operation.
pub fn apply<F>(f: &F, op: Op, x: Single, y: Single) -> (r: Single) where
    F: Fn(Op, Single, Single) -> Single,

    requires
        is_arithmetic(*f),
    ensures
        r == result_of(*f, op, x, y),
        performed(*f, op, x, y),
{
    assert(call_requires(*f, (op, x, y)));
    let r = f(op, x, y);
    assert(call_ensures(*f, (op, x, y), r));
    r
}

/// The sum of the first `n` products of components, added up in order.
pub open spec fn dot_upto<F>(f: F, a: Seq<Single>, b: Seq<Single>, n: nat) -> Single where
    F: Fn(Op, Single, Single) -> Single,

    decreases n,
{
    if n == 0 {
        Single { bits: SINGLE_ZERO }
    } else {
        result_of(
            f,
            Op::Add,
            dot_upto(f, a, b, (n - 1) as nat),
            result_of(f, Op::Mul, a[n - 1], b[n - 1]),
        )
    }
}

/// The inner product of two vectors.
pub open spec fn dot_of<F>(f: F, a: Seq<Single>, b: Seq<Single>) -> Single where
    F: Fn(Op, Single, Single) -> Single,
 {
    dot_upto(f, a, b, a.len())
}

/// The operations of an inner product were carried out.
pub open spec fn dot_performed<F>(f: F, a: Seq<Single>, b: Seq<Single>, n: nat) -> bool where
    F: Fn(Op, Single, Single) -> Single,

    decreases n,
{
    n > 0 ==> {
        &&& dot_performed(f, a, b, (n - 1) as nat)
        &&& performed(f, Op::Mul, a[n - 1], b[n - 1])
        &&& performed(
            f,
            Op::Add,
            dot_upto(f, a, b, (n - 1) as nat),
            result_of(f, Op::Mul, a[n - 1], b[n - 1]),
        )
    }
}

/// The sum of the first `n` squared differences of components, added up in order.
pub open spec fn l2_upto<F>(f: F, a: Seq<Single>, b: Seq<Single>, n: nat) -> Single where
    F: Fn(Op, Single, Single) -> Single,

    decreases n,
{
    if n == 0 {
        Single { bits: SINGLE_ZERO }
    } else {
        let diff = result_of(f, Op::Sub, a[n - 1], b[n - 1]);
        result_of(
            f,
            Op::Add,
            l2_upto(f, a, b, (n - 1) as nat),
            result_of(f, Op::Mul, diff, diff),
        )
    }
}

/// The squared Euclidean distance of two vectors.
pub open spec fn l2_of<F>(f: F, a: Seq<Single>, b: Seq<Single>) -> Single where
    F: Fn(Op, Single, Single) -> Single,
 {
    l2_upto(f, a, b, a.len())
}

/// The operations of a squared Euclidean distance were carried out.
pub open spec fn l2_performed<F>(f: F, a: Seq<Single>, b: Seq<Single>, n: nat) -> bool where
    F: Fn(Op, Single, Single) -> Single,

    decreases n,
{
    let diff = result_of(f, Op::Sub, a[n - 1], b[n - 1]);
    n > 0 ==> {
        &&& l2_performed(f, a, b, (n - 1) as nat)
        &&& performed(f, Op::Sub, a[n - 1], b[n - 1])
        &&& performed(f, Op::Mul, diff, diff)
        &&& performed(
            f,
            Op::Add,
            l2_upto(f, a, b, (n - 1) as nat),
            result_of(f, Op::Mul, diff, diff),
        )
    }
}

/// All components are zero.
pub open spec fn is_zero(v: Seq<Single>) -> bool {
    forall|i: int| 0 <= i < v.len() ==> (#[trigger] v[i]).equal(Single { bits: SINGLE_ZERO })
}

/// All components are finite numbers.
pub open spec fn is_finite(v: Seq<Single>) -> bool {
    forall|i: int| 0 <= i < v.len() ==> (#[trigger] v[i]).finite()
}

/// The largest of the first `n` components, without its sign.
pub open spec fn largest_upto(v: Seq<Single>, n: nat) -> Single
    decreases n,
{
    if n == 0 {
        Single { bits: SINGLE_ZERO }
    } else {
        let before = largest_upto(v, (n - 1) as nat);
        if before.bits < v[n - 1].magnitude() {
            v[n - 1].absolute()
        } else {
            before
        }
    }
}

/// A vector over its largest component, so that no component is larger than one.
pub open spec fn scaled<F>(f: F, v: Seq<Single>) -> Seq<Single> where
    F: Fn(Op, Single, Single) -> Single,
 {
    Seq::new(v.len(), |i: int| result_of(f, Op::Div, v[i], largest_upto(v, v.len())))
}

/// The operations that scale the first `n` components were carried out.
pub open spec fn scaled_performed<F>(f: F, v: Seq<Single>, n: nat) -> bool where
    F: Fn(Op, Single, Single) -> Single,
 {
    forall|i: int|
        0 <= i < n ==> performed(f, Op::Div, #[trigger] v[i], largest_upto(v, v.len()))
}

/// One minus the cosine similarity, from the inner products of two vectors with
/// each other and with themselves.
pub open spec fn dissimilarity<F>(f: F, dot: Single, norm_a: Single, norm_b: Single) -> Single where
    F: Fn(Op, Single, Single) -> Single,
 {
    let product = result_of(f, Op::Mul, norm_a, norm_b);
    let denom = result_of(f, Op::Sqrt, product, product);
    let one = Single { bits: SINGLE_ONE };
    result_of(f, Op::Sub, one, result_of(f, Op::Div, dot, denom))
}

/// The operations of a cosine similarity were carried out.
pub open spec fn dissimilarity_performed<F>(
    f: F,
    dot: Single,
    norm_a: Single,
    norm_b: Single,
) -> bool where F: Fn(Op, Single, Single) -> Single {
    let product = result_of(f, Op::Mul, norm_a, norm_b);
    let denom = result_of(f, Op::Sqrt, product, product);
    let one = Single { bits: SINGLE_ONE };
    &&& performed(f, Op::Mul, norm_a, norm_b)
    &&& performed(f, Op::Sqrt, product, product)
    &&& performed(f, Op::Div, dot, denom)
    &&& performed(f, Op::Sub, one, result_of(f, Op::Div, dot, denom))
}

/// Squared magnitudes from which a cosine similarity can be computed: neither
/// they nor their product are too large or too small to have all their digits.
pub open spec fn in_reach<F>(f: F, norm_a: Single, norm_b: Single) -> bool where
    F: Fn(Op, Single, Single) -> Single,
 {
    norm_a.normal() && norm_b.normal() && result_of(f, Op::Mul, norm_a, norm_b).normal()
}

/// A number kept between zero and two. What is no number stays so, unless it was
/// computed from finite numbers: then it counts as one.
pub open spec fn settled(x: Single, from_finite: bool) -> Single {
    if x.nan() {
        if from_finite {
            Single { bits: SINGLE_ONE }
        } else {
            x
        }
    } else if x.less(Single { bits: SINGLE_ZERO }) {
        Single { bits: SINGLE_ZERO }
    } else if (Single { bits: SINGLE_TWO }).less(x) {
        Single { bits: SINGLE_TWO }
    } else {
        x
    }
}

/// The cosine distance of two vectors: one if either of them is zero, and
/// otherwise one minus their similarity, kept between zero and two. The vectors
/// are scaled first where their squared magnitudes are out of reach.
pub open spec fn cosine_of<F>(f: F, a: Seq<Single>, b: Seq<Single>) -> Single where
    F: Fn(Op, Single, Single) -> Single,
 {
    let from_finite = is_finite(a) && is_finite(b);
    if is_zero(a) || is_zero(b) {
        Single { bits: SINGLE_ONE }
    } else if in_reach(f, dot_of(f, a, a), dot_of(f, b, b)) {
        settled(
            dissimilarity(f, dot_of(f, a, b), dot_of(f, a, a), dot_of(f, b, b)),
            from_finite,
        )
    } else {
        let x = scaled(f, a);
        let y = scaled(f, b);
        settled(
            dissimilarity(f, dot_of(f, x, y), dot_of(f, x, x), dot_of(f, y, y)),
            from_finite,
        )
    }
}

/// The operations of the inner products of two vectors with each other and with
/// themselves were carried out.
pub open spec fn products_performed<F>(f: F, a: Seq<Single>, b: Seq<Single>) -> bool where
    F: Fn(Op, Single, Single) -> Single,
 {
    &&& dot_performed(f, a, b, a.len())
    &&& dot_performed(f, a, a, a.len())
    &&& dot_performed(f, b, b, b.len())
}

/// The operations of a cosine distance were carried out.
pub open spec fn cosine_performed<F>(f: F, a: Seq<Single>, b: Seq<Single>) -> bool where
    F: Fn(Op, Single, Single) -> Single,
 {
    &&& products_performed(f, a, b)
    &&& !is_zero(a) && !is_zero(b) ==> {
        if in_reach(f, dot_of(f, a, a), dot_of(f, b, b)) {
            dissimilarity_performed(f, dot_of(f, a, b), dot_of(f, a, a), dot_of(f, b, b))
        } else {
            let x = scaled(f, a);
            let y = scaled(f, b);
            &&& dot_of(f, a, a).normal() && dot_of(f, b, b).normal() ==> performed(
                f,
                Op::Mul,
                dot_of(f, a, a),
                dot_of(f, b, b),
            )
            &&& scaled_performed(f, a, a.len())
            &&& scaled_performed(f, b, b.len())
            &&& products_performed(f, x, y)
            &&& dissimilarity_performed(f, dot_of(f, x, y), dot_of(f, x, x), dot_of(f, y, y))
        }
    }
}

/// The distance of two vectors under a metric.
pub open spec fn distance_of<F>(
    f: F,
    metric: Metric,
    a: Seq<Single>,
    b: Seq<Single>,
) -> Single where F: Fn(Op, Single, Single) -> Single {
    match metric {
        Metric::Cosine => cosine_of(f, a, b),
        Metric::Dot => dot_of(f, a, b).opposite(),
        Metric::L2 => l2_of(f, a, b),
    }
}

/// The operations of a distance were carried out.
pub open spec fn distance_performed<F>(
    f: F,
    metric: Metric,
    a: Seq<Single>,
    b: Seq<Single>,
) -> bool where F: Fn(Op, Single, Single) -> Single {
    match metric {
        Metric::Cosine => cosine_performed(f, a, b),
        Metric::Dot => dot_performed(f, a, b, a.len()),
        Metric::L2 => l2_performed(f, a, b, a.len()),
    }
}

/// The distance under a metric, as a function of two vectors.
pub open spec fn distance_under<F>(f: F, metric: Metric) -> spec_fn(
    Seq<Single>,
    Seq<Single>,
) -> Single where F: Fn(Op, Single, Single) -> Single {
    |a: Seq<Single>, b: Seq<Single>| distance_of(f, metric, a, b)
}

impl Metric {
    /// Distance between two equal-length vectors under this metric.
    pub fn distance<F>(self, a: &[Single], b: &[Single], f: &F) -> (r: Single) where
        F: Fn(Op, Single, Single) -> Single,

        requires
            is_arithmetic(*f),
            a@.len() == b@.len(),
        ensures
            r == distance_of(*f, self, a@, b@),
            distance_performed(*f, self, a@, b@),
    {
        match self {
            Metric::Cosine => cosine_distance(a, b, f),
            Metric::Dot => dot(a, b, f).negated(),
            Metric::L2 => l2_squared(a, b, f),
        }
    }

    /// The name of this metric.
    pub open spec fn spec_name(self) -> Seq<char> {
        match self {
            Metric::Cosine => "Cosine"@,
            Metric::Dot => "Dot"@,
            Metric::L2 => "L2"@,
        }
    }

    /// The name of this metric.
    pub fn name(self) -> (s: String)
        ensures
            s@ == self.spec_name(),
    {
        match self {
            Metric::Cosine => "Cosine".to_owned(),
            Metric::Dot => "Dot".to_owned(),
            Metric::L2 => "L2".to_owned(),
        }
    }
}

/// Inner (dot) product of two equal-length vectors.
pub fn dot<F>(a: &[Single], b: &[Single], f: &F) -> (r: Single) where
    F: Fn(Op, Single, Single) -> Single,

    requires
        is_arithmetic(*f),
        a@.len() == b@.len(),
    ensures
        r == dot_of(*f, a@, b@),
        dot_performed(*f, a@, b@, a@.len()),
{
    let mut sum = Single::from_bits(SINGLE_ZERO);
    for i in 0..a.len()
        invariant
            is_arithmetic(*f),
            a@.len() == b@.len(),
            sum == dot_upto(*f, a@, b@, i as nat),
            dot_performed(*f, a@, b@, i as nat),
    {
        sum = apply(f, Op::Add, sum, apply(f, Op::Mul, a[i], b[i]));
    }
    sum
}

/// Squared Euclidean distance between two equal-length vectors.
pub fn l2_squared<F>(a: &[Single], b: &[Single], f: &F) -> (r: Single) where
    F: Fn(Op, Single, Single) -> Single,

    requires
        is_arithmetic(*f),
        a@.len() == b@.len(),
    ensures
        r == l2_of(*f, a@, b@),
        l2_performed(*f, a@, b@, a@.len()),
{
    let mut sum = Single::from_bits(SINGLE_ZERO);
    for i in 0..a.len()
        invariant
            is_arithmetic(*f),
            a@.len() == b@.len(),
            sum == l2_upto(*f, a@, b@, i as nat),
            l2_performed(*f, a@, b@, i as nat),
    {
        let diff = apply(f, Op::Sub, a[i], b[i]);
        sum = apply(f, Op::Add, sum, apply(f, Op::Mul, diff, diff));
    }
    sum
}

/// One minus the cosine similarity, from the inner products of two vectors with
/// each other and with themselves.
pub fn cosine_from_products<F>(dot: Single, norm_a: Single, norm_b: Single, f: &F) -> (r:
    Single) where F: Fn(Op, Single, Single) -> Single
    requires
        is_arithmetic(*f),
    ensures
        r == dissimilarity(*f, dot, norm_a, norm_b),
        dissimilarity_performed(*f, dot, norm_a, norm_b),
{
    let product = apply(f, Op::Mul, norm_a, norm_b);
    let denom = apply(f, Op::Sqrt, product, product);
    apply(f, Op::Sub, Single::from_bits(SINGLE_ONE), apply(f, Op::Div, dot, denom))
}

/// Can a cosine similarity be computed from these squared magnitudes?
pub(crate) fn are_in_reach<F>(norm_a: Single, norm_b: Single, f: &F) -> (b: bool) where
    F: Fn(Op, Single, Single) -> Single,

    requires
        is_arithmetic(*f),
    ensures
        b == in_reach(*f, norm_a, norm_b),
        norm_a.normal() && norm_b.normal() ==> performed(*f, Op::Mul, norm_a, norm_b),
{
    norm_a.is_normal() && norm_b.is_normal() && apply(f, Op::Mul, norm_a, norm_b).is_normal()
}

/// Keep a number between zero and two.
pub(crate) fn settle(x: Single, from_finite: bool) -> (r: Single)
    ensures
        r == settled(x, from_finite),
{
    let zero = Single::from_bits(SINGLE_ZERO);
    let two = Single::from_bits(SINGLE_TWO);
    if x.is_nan() {
        if from_finite {
            Single::from_bits(SINGLE_ONE)
        } else {
            x
        }
    } else if x.lt(zero) {
        zero
    } else if two.lt(x) {
        two
    } else {
        x
    }
}

/// Are all components zero?
fn all_zero(v: &[Single]) -> (b: bool)
    ensures
        b == is_zero(v@),
{
    let zero = Single::from_bits(SINGLE_ZERO);
    for i in 0..v.len()
        invariant
            zero.bits == SINGLE_ZERO,
            forall|j: int| 0 <= j < i ==> (#[trigger] v@[j]).equal(Single { bits: SINGLE_ZERO }),
    {
        if !(v[i] == zero) {
            assert(!v@[i as int].equal(Single { bits: SINGLE_ZERO }));
            return false;
        }
    }
    true
}

/// Are all components finite numbers?
fn all_finite(v: &[Single]) -> (b: bool)
    ensures
        b == is_finite(v@),
{
    for i in 0..v.len()
        invariant
            forall|j: int| 0 <= j < i ==> (#[trigger] v@[j]).finite(),
    {
        if !v[i].is_finite() {
            assert(!v@[i as int].finite());
            return false;
        }
    }
    true
}

/// A vector over its largest component.
fn scale_down<F>(v: &[Single], f: &F) -> (w: Vec<Single>) where
    F: Fn(Op, Single, Single) -> Single,

    requires
        is_arithmetic(*f),
    ensures
        w@ == scaled(*f, v@),
        scaled_performed(*f, v@, v@.len()),
{
    let mut largest = Single::from_bits(SINGLE_ZERO);
    for i in 0..v.len()
        invariant
            largest == largest_upto(v@, i as nat),
    {
        let x: Single = v[i].abs();
        if largest.to_bits() < x.to_bits() {
            largest = x;
        }
    }
    let mut w: Vec<Single> = Vec::new();
    for i in 0..v.len()
        invariant
            is_arithmetic(*f),
            largest == largest_upto(v@, v@.len()),
            w@.len() == i,
            forall|j: int| 0 <= j < i ==> #[trigger] w@[j] == scaled(*f, v@)[j],
            scaled_performed(*f, v@, i as nat),
    {
        w.push(apply(f, Op::Div, v[i], largest));
    }
    assert(w@ =~= scaled(*f, v@));
    w
}

/// Cosine distance (`1 - cosine_similarity`) between two equal-length vectors.
///
/// If either vector has zero magnitude the similarity is undefined, and we
/// report the value one rather than a NaN. Components that are infinite or no
/// numbers have no direction: beside a vector that is not zero, what the
/// arithmetic makes of them is reported.
pub fn cosine_distance<F>(a: &[Single], b: &[Single], f: &F) -> (r: Single) where
    F: Fn(Op, Single, Single) -> Single,

    requires
        is_arithmetic(*f),
        a@.len() == b@.len(),
    ensures
        r == cosine_of(*f, a@, b@),
        cosine_performed(*f, a@, b@),
        !r.less(Single { bits: SINGLE_ZERO }) && !(Single { bits: SINGLE_TWO }).less(r),
        is_finite(a@) && is_finite(b@) ==> !r.nan(),
        is_zero(a@) || is_zero(b@) ==> r == (Single { bits: SINGLE_ONE }),
{
    let product = dot(a, b, f);
    let norm_a = dot(a, a, f);
    let norm_b = dot(b, b, f);
    if all_zero(a) || all_zero(b) {
        return Single::from_bits(SINGLE_ONE);
    }
    let r: Single = if are_in_reach(norm_a, norm_b, f) {
        cosine_from_products(product, norm_a, norm_b, f)
    } else {
        let x: Vec<Single> = scale_down(a, f);
        let y: Vec<Single> = scale_down(b, f);
        let (x, y) = (x.as_slice(), y.as_slice());
        cosine_from_products(dot(x, y, f), dot(x, x, f), dot(y, y, f), f)
    };
    settle(r, r.is_nan() && all_finite(a) && all_finite(b))
}

/// An inner product, one component at a time: its operations were carried out up
/// to a component if they were up to the one before and on the component itself.
pub proof fn law_dot_is_summed_in_order<F>(f: F, a: Seq<Single>, b: Seq<Single>, n: nat) where
    F: Fn(Op, Single, Single) -> Single,

    ensures
        dot_upto(f, a, b, 0) == (Single { bits: SINGLE_ZERO }),
        dot_upto(f, a, b, n + 1) == result_of(
            f,
            Op::Add,
            dot_upto(f, a, b, n),
            result_of(f, Op::Mul, a[n as int], b[n as int]),
        ),
        dot_performed(f, a, b, n + 1) == {
            &&& dot_performed(f, a, b, n)
            &&& performed(f, Op::Mul, a[n as int], b[n as int])
            &&& performed(
                f,
                Op::Add,
                dot_upto(f, a, b, n),
                result_of(f, Op::Mul, a[n as int], b[n as int]),
            )
        },
{
}

/// A squared Euclidean distance, one component at a time: its operations were
/// carried out up to a component if they were up to the one before and on the
/// component itself.
pub proof fn law_l2_is_summed_in_order<F>(f: F, a: Seq<Single>, b: Seq<Single>, n: nat) where
    F: Fn(Op, Single, Single) -> Single,

    ensures
        l2_upto(f, a, b, 0) == (Single { bits: SINGLE_ZERO }),
        l2_upto(f, a, b, n + 1) == result_of(
            f,
            Op::Add,
            l2_upto(f, a, b, n),
            result_of(
                f,
                Op::Mul,
                result_of(f, Op::Sub, a[n as int], b[n as int]),
                result_of(f, Op::Sub, a[n as int], b[n as int]),
            ),
        ),
        l2_performed(f, a, b, n + 1) == {
            let diff = result_of(f, Op::Sub, a[n as int], b[n as int]);
            &&& l2_performed(f, a, b, n)
            &&& performed(f, Op::Sub, a[n as int], b[n as int])
            &&& performed(f, Op::Mul, diff, diff)
            &&& performed(f, Op::Add, l2_upto(f, a, b, n), result_of(f, Op::Mul, diff, diff))
        },
{
}

/// Where either vector has zero magnitude, the cosine distance is one.
pub proof fn law_undefined_similarity_is_one<F>(f: F, a: Seq<Single>, b: Seq<Single>) where
    F: Fn(Op, Single, Single) -> Single,

    requires
        is_zero(a) || is_zero(b),
    ensures
        distance_of(f, Metric::Cosine, a, b) == (Single { bits: SINGLE_ONE }),
{
}

/// A vector of zeros, of either sign, is at cosine distance one from any vector.
pub proof fn law_zeros_are_at_distance_one<F>(f: F, zeros: Seq<Single>, b: Seq<Single>) where
    F: Fn(Op, Single, Single) -> Single,

    requires
        forall|i: int|
            0 <= i < zeros.len() ==> (#[trigger] zeros[i]).bits == 0 || zeros[i].bits
                == 0x8000_0000,
    ensures
        distance_of(f, Metric::Cosine, zeros, b).bits == 0x3F80_0000,
        distance_of(f, Metric::Cosine, b, zeros).bits == 0x3F80_0000,
{
    assert forall|i: int| 0 <= i < zeros.len() implies (#[trigger] zeros[i]).equal(
        Single { bits: SINGLE_ZERO },
    ) by {
        assert(zeros[i].bits == 0 || zeros[i].bits == 0x8000_0000);
    }
}

/// A cosine distance of finite vectors is a number between zero and two.
pub proof fn law_cosine_stays_in_range<F>(f: F, a: Seq<Single>, b: Seq<Single>) where
    F: Fn(Op, Single, Single) -> Single,

    requires
        is_finite(a),
        is_finite(b),
    ensures
        !distance_of(f, Metric::Cosine, a, b).nan(),
        !distance_of(f, Metric::Cosine, a, b).less(Single { bits: SINGLE_ZERO }),
        !(Single { bits: SINGLE_TWO }).less(distance_of(f, Metric::Cosine, a, b)),
{
}

/// The same number, or neither is a number.
pub open spec fn same_number(x: Single, y: Single) -> bool {
    x == y || x.nan() && y.nan()
}

/// Products and squared differences do not depend on the order of the numbers,
/// and no result depends on how an operand that is no number is encoded.
pub open spec fn is_even_handed<F>(f: F) -> bool where F: Fn(Op, Single, Single) -> Single {
    &&& forall|x: Single, y: Single|
        same_number(#[trigger] result_of(f, Op::Mul, x, y), result_of(f, Op::Mul, y, x))
    &&& forall|x: Single, y: Single| #[trigger] squares_alike(f, x, y)
    &&& forall|op: Op, x: Single, y: Single, u: Single, v: Single|
        same_number(x, u) && same_number(y, v) ==> same_number(
            #[trigger] result_of(f, op, x, y),
            #[trigger] result_of(f, op, u, v),
        )
}

/// The square of a difference is the same whichever number is taken off the
/// other.
pub open spec fn squares_alike<F>(f: F, x: Single, y: Single) -> bool where
    F: Fn(Op, Single, Single) -> Single,
 {
    let there = result_of(f, Op::Sub, x, y);
    let back = result_of(f, Op::Sub, y, x);
    same_number(result_of(f, Op::Mul, there, there), result_of(f, Op::Mul, back, back))
}

/// A distance is symmetric unless it is no number.
pub proof fn law_distance_is_symmetric<F>(
    f: F,
    metric: Metric,
    a: Seq<Single>,
    b: Seq<Single>,
) where F: Fn(Op, Single, Single) -> Single
    requires
        is_even_handed(f),
        a.len() == b.len(),
    ensures
        same_number(distance_of(f, metric, a, b), distance_of(f, metric, b, a)),
{
    match metric {
        Metric::Cosine => {
            let norm_a = dot_of(f, a, a);
            let norm_b = dot_of(f, b, b);
            assert(same_number(
                result_of(f, Op::Mul, norm_a, norm_b),
                result_of(f, Op::Mul, norm_b, norm_a),
            ));
            assert(in_reach(f, norm_a, norm_b) == in_reach(f, norm_b, norm_a));
            lemma_dissimilarity_is_symmetric(f, a, b);
            lemma_dissimilarity_is_symmetric(f, scaled(f, a), scaled(f, b));
        },
        Metric::Dot => {
            lemma_dot_is_symmetric(f, a, b, a.len());
        },
        Metric::L2 => {
            lemma_l2_is_symmetric(f, a, b, a.len());
        },
    }
}

/// One minus the similarity is the same number either way round.
proof fn lemma_dissimilarity_is_symmetric<F>(f: F, a: Seq<Single>, b: Seq<Single>) where
    F: Fn(Op, Single, Single) -> Single,

    requires
        is_even_handed(f),
        a.len() == b.len(),
    ensures
        same_number(
            dissimilarity(f, dot_of(f, a, b), dot_of(f, a, a), dot_of(f, b, b)),
            dissimilarity(f, dot_of(f, b, a), dot_of(f, b, b), dot_of(f, a, a)),
        ),
{
    let one = Single { bits: SINGLE_ONE };
    let norm_a = dot_of(f, a, a);
    let norm_b = dot_of(f, b, b);
    lemma_dot_is_symmetric(f, a, b, a.len());
    let p = result_of(f, Op::Mul, norm_a, norm_b);
    let q = result_of(f, Op::Mul, norm_b, norm_a);
    assert(same_number(p, q));
    let there = result_of(f, Op::Sqrt, p, p);
    let back = result_of(f, Op::Sqrt, q, q);
    assert(same_number(there, back));
    let x = result_of(f, Op::Div, dot_of(f, a, b), there);
    let y = result_of(f, Op::Div, dot_of(f, b, a), back);
    assert(same_number(x, y));
    assert(same_number(one, one));
    assert(same_number(result_of(f, Op::Sub, one, x), result_of(f, Op::Sub, one, y)));
}

/// The first `n` products add up to the same number either way round.
proof fn lemma_dot_is_symmetric<F>(f: F, a: Seq<Single>, b: Seq<Single>, n: nat) where
    F: Fn(Op, Single, Single) -> Single,

    requires
        is_even_handed(f),
    ensures
        same_number(dot_upto(f, a, b, n), dot_upto(f, b, a, n)),
    decreases n,
{
    if n > 0 {
        lemma_dot_is_symmetric(f, a, b, (n - 1) as nat);
        let there = result_of(f, Op::Mul, a[n - 1], b[n - 1]);
        let back = result_of(f, Op::Mul, b[n - 1], a[n - 1]);
        assert(same_number(there, back));
        assert(same_number(
            result_of(f, Op::Add, dot_upto(f, a, b, (n - 1) as nat), there),
            result_of(f, Op::Add, dot_upto(f, b, a, (n - 1) as nat), back),
        ));
    }
}

/// The first `n` squared differences add up to the same number either way round.
proof fn lemma_l2_is_symmetric<F>(f: F, a: Seq<Single>, b: Seq<Single>, n: nat) where
    F: Fn(Op, Single, Single) -> Single,

    requires
        is_even_handed(f),
    ensures
        same_number(l2_upto(f, a, b, n), l2_upto(f, b, a, n)),
    decreases n,
{
    if n > 0 {
        lemma_l2_is_symmetric(f, a, b, (n - 1) as nat);
        assert(squares_alike(f, a[n - 1], b[n - 1]));
        let there = result_of(f, Op::Sub, a[n - 1], b[n - 1]);
        let back = result_of(f, Op::Sub, b[n - 1], a[n - 1]);
        assert(same_number(
            result_of(
                f,
                Op::Add,
                l2_upto(f, a, b, (n - 1) as nat),
                result_of(f, Op::Mul, there, there),
            ),
            result_of(
                f,
                Op::Add,
                l2_upto(f, b, a, (n - 1) as nat),
                result_of(f, Op::Mul, back, back),
            ),
        ));
    }
}

/// Every distance but the cosine, one component at a time: nothing is nothing
/// away; another pair of components adds its squared difference to a squared
/// Euclidean distance, and takes its product off a negative inner product.
pub proof fn law_distance_grows_by_components<F>(
    f: F,
    a: Seq<Single>,
    b: Seq<Single>,
    x: Single,
    y: Single,
) where F: Fn(Op, Single, Single) -> Single
    requires
        a.len() == b.len(),
    ensures
        distance_of(f, Metric::L2, Seq::empty(), Seq::empty()).bits == 0,
        distance_of(f, Metric::Dot, Seq::empty(), Seq::empty()).opposite().bits == 0,
        distance_of(f, Metric::L2, a.push(x), b.push(y)) == result_of(
            f,
            Op::Add,
            distance_of(f, Metric::L2, a, b),
            result_of(
                f,
                Op::Mul,
                result_of(f, Op::Sub, x, y),
                result_of(f, Op::Sub, x, y),
            ),
        ),
        distance_of(f, Metric::Dot, a.push(x), b.push(y)).opposite() == result_of(
            f,
            Op::Add,
            distance_of(f, Metric::Dot, a, b).opposite(),
            result_of(f, Op::Mul, x, y),
        ),
        distance_of(f, Metric::Dot, a, b).opposite() == dot_of(f, a, b),
        dot_of(f, a.push(x), b.push(y)) == result_of(
            f,
            Op::Add,
            dot_of(f, a, b),
            result_of(f, Op::Mul, x, y),
        ),
        l2_of(f, a, b) == distance_of(f, Metric::L2, a, b),
{
    let n = a.len();
    lemma_prefix_sums(f, a, b, a.push(x), b.push(y), n);
    assert(dot_upto(f, a.push(x), b.push(y), n + 1) == dot_of(f, a.push(x), b.push(y)));
    assert(l2_upto(f, a.push(x), b.push(y), n + 1) == l2_of(f, a.push(x), b.push(y)));
}

/// Sums over the first components do not depend on the others.
proof fn lemma_prefix_sums<F>(
    f: F,
    a: Seq<Single>,
    b: Seq<Single>,
    c: Seq<Single>,
    d: Seq<Single>,
    n: nat,
) where F: Fn(Op, Single, Single) -> Single
    requires
        forall|i: int| 0 <= i < n ==> #[trigger] a[i] == c[i],
        forall|i: int| 0 <= i < n ==> #[trigger] b[i] == d[i],
    ensures
        dot_upto(f, a, b, n) == dot_upto(f, c, d, n),
        l2_upto(f, a, b, n) == l2_upto(f, c, d, n),
    decreases n,
{
    if n > 0 {
        lemma_prefix_sums(f, a, b, c, d, (n - 1) as nat);
        assert(a[n - 1] == c[n - 1] && b[n - 1] == d[n - 1]);
    }
}

/// The cosine distance is one minus the similarity: the inner product of two
/// vectors over the root of the product of those with themselves, computed with
/// the given operations. Whatever comes out between zero and two is the distance;
/// what comes out below zero is zero, and above two is two. This is said of
/// vectors that are not zero and whose squared magnitudes, and their product, are
/// numbers with all their digits.
pub proof fn law_cosine_is_one_minus_similarity<F>(f: F, a: Seq<Single>, b: Seq<Single>) where
    F: Fn(Op, Single, Single) -> Single,

    requires
        exists|i: int| 0 <= i < a.len() && (#[trigger] a[i]).signed() != 0,
        exists|i: int| 0 <= i < b.len() && (#[trigger] b[i]).signed() != 0,
        0x80_0000 <= dot_of(f, a, a).bits < 0x7F80_0000,
        0x80_0000 <= dot_of(f, b, b).bits < 0x7F80_0000,
        0x80_0000 <= result_of(f, Op::Mul, dot_of(f, a, a), dot_of(f, b, b)).bits < 0x7F80_0000,
    ensures
        ({
            let product = result_of(f, Op::Mul, dot_of(f, a, a), dot_of(f, b, b));
            let root = result_of(f, Op::Sqrt, product, product);
            let similarity = result_of(f, Op::Div, dot_of(f, a, b), root);
            let r = result_of(f, Op::Sub, Single { bits: 0x3F80_0000 }, similarity);
            let d = distance_of(f, Metric::Cosine, a, b);
            &&& !r.nan() && 0 <= r.signed() <= 0x4000_0000 ==> d == r
            &&& !r.nan() && r.signed() < 0 ==> d.bits == 0
            &&& !r.nan() && r.signed() > 0x4000_0000 ==> d.bits == 0x4000_0000
            &&& r.nan() ==> d == r || d.bits == 0x3F80_0000
        }),
{
    let i = choose|i: int| 0 <= i < a.len() && (#[trigger] a[i]).signed() != 0;
    let j = choose|j: int| 0 <= j < b.len() && (#[trigger] b[j]).signed() != 0;
    assert(!a[i].equal(Single { bits: SINGLE_ZERO }));
    assert(!b[j].equal(Single { bits: SINGLE_ZERO }));
    assert(!is_zero(a) && !is_zero(b));
}

/// Of two vectors at which a query can be looked at, the one with the smaller
/// similarity is never nearer: the order of `1 - similarity` is kept.
pub proof fn law_cosine_keeps_the_order<F>(
    f: F,
    query: Seq<Single>,
    a: Seq<Single>,
    b: Seq<Single>,
) where F: Fn(Op, Single, Single) -> Single
    requires
        !is_zero(query),
        !is_zero(a),
        !is_zero(b),
        in_reach(f, dot_of(f, query, query), dot_of(f, a, a)),
        in_reach(f, dot_of(f, query, query), dot_of(f, b, b)),
        dissimilarity(
            f,
            dot_of(f, query, a),
            dot_of(f, query, query),
            dot_of(f, a, a),
        ).signed() <= dissimilarity(
            f,
            dot_of(f, query, b),
            dot_of(f, query, query),
            dot_of(f, b, b),
        ).signed(),
        !dissimilarity(f, dot_of(f, query, a), dot_of(f, query, query), dot_of(f, a, a)).nan(),
        !dissimilarity(f, dot_of(f, query, b), dot_of(f, query, query), dot_of(f, b, b)).nan(),
    ensures
        distance_of(f, Metric::Cosine, query, a).signed() <= distance_of(
            f,
            Metric::Cosine,
            query,
            b,
        ).signed(),
{
}

/// Where squared magnitudes are out of reach, the cosine distance is that of the
/// vectors over their largest components: dividing every component of a vector by
/// the size of its largest one, and measuring what results, gives the same.
pub proof fn law_cosine_out_of_reach_is_scaled<F>(
    f: F,
    a: Seq<Single>,
    b: Seq<Single>,
    largest_a: Single,
    largest_b: Single,
) where F: Fn(Op, Single, Single) -> Single
    requires
        exists|i: int| 0 <= i < a.len() && (#[trigger] a[i]).signed() != 0,
        exists|i: int| 0 <= i < b.len() && (#[trigger] b[i]).signed() != 0,
        !(0x80_0000 <= dot_of(f, a, a).magnitude() < 0x7F80_0000) || !(0x80_0000 <= dot_of(
            f,
            b,
            b,
        ).magnitude() < 0x7F80_0000) || !(0x80_0000 <= result_of(
            f,
            Op::Mul,
            dot_of(f, a, a),
            dot_of(f, b, b),
        ).magnitude() < 0x7F80_0000),
        exists|i: int| 0 <= i < a.len() && (#[trigger] a[i]).magnitude() == largest_a.bits,
        exists|i: int| 0 <= i < b.len() && (#[trigger] b[i]).magnitude() == largest_b.bits,
        forall|i: int| 0 <= i < a.len() ==> (#[trigger] a[i]).magnitude() <= largest_a.bits,
        forall|i: int| 0 <= i < b.len() ==> (#[trigger] b[i]).magnitude() <= largest_b.bits,
    ensures
        ({
            let x = Seq::new(a.len(), |i: int| result_of(f, Op::Div, a[i], largest_a));
            let y = Seq::new(b.len(), |i: int| result_of(f, Op::Div, b[i], largest_b));
            let product = result_of(f, Op::Mul, dot_of(f, x, x), dot_of(f, y, y));
            let root = result_of(f, Op::Sqrt, product, product);
            let similarity = result_of(f, Op::Div, dot_of(f, x, y), root);
            let r = result_of(f, Op::Sub, Single { bits: 0x3F80_0000 }, similarity);
            let d = distance_of(f, Metric::Cosine, a, b);
            &&& !r.nan() && 0 <= r.signed() <= 0x4000_0000 ==> d == r
            &&& !r.nan() && r.signed() < 0 ==> d.bits == 0
            &&& !r.nan() && r.signed() > 0x4000_0000 ==> d.bits == 0x4000_0000
            &&& r.nan() ==> d == r || d.bits == 0x3F80_0000
        }),
{
    let i = choose|i: int| 0 <= i < a.len() && (#[trigger] a[i]).signed() != 0;
    let j = choose|j: int| 0 <= j < b.len() && (#[trigger] b[j]).signed() != 0;
    assert(!a[i].equal(Single { bits: SINGLE_ZERO }));
    assert(!b[j].equal(Single { bits: SINGLE_ZERO }));
    lemma_largest(a, largest_a, a.len());
    lemma_largest(b, largest_b, b.len());
    let x = Seq::new(a.len(), |i: int| result_of(f, Op::Div, a[i], largest_a));
    let y = Seq::new(b.len(), |i: int| result_of(f, Op::Div, b[i], largest_b));
    assert(x =~= scaled(f, a));
    assert(y =~= scaled(f, b));
}

/// The largest component is one that no other is larger than.
proof fn lemma_largest(v: Seq<Single>, largest: Single, n: nat)
    requires
        n <= v.len(),
        forall|i: int| 0 <= i < n ==> (#[trigger] v[i]).magnitude() <= largest.bits,
    ensures
        largest_upto(v, n).bits <= largest.bits,
        (exists|i: int| 0 <= i < n && (#[trigger] v[i]).magnitude() == largest.bits)
            ==> largest_upto(v, n) == largest,
    decreases n,
{
    if n > 0 {
        lemma_largest(v, largest, (n - 1) as nat);
        if exists|i: int| 0 <= i < n && (#[trigger] v[i]).magnitude() == largest.bits {
            let i = choose|i: int| 0 <= i < n && (#[trigger] v[i]).magnitude() == largest.bits;
            if i == n - 1 {
                assert(largest_upto(v, n).bits == largest.bits);
            }
        }
    }
}

/// What is no direction has no distance to be told: of finite vectors a cosine
/// distance that is no number does not occur, and vectors with other components
/// are given what the arithmetic makes of them, be it no number.
pub proof fn law_cosine_of_infinite_vectors_is_not_made_up<F>(
    f: F,
    a: Seq<Single>,
    b: Seq<Single>,
) where F: Fn(Op, Single, Single) -> Single
    requires
        !is_zero(a),
        !is_zero(b),
        exists|i: int| 0 <= i < a.len() && !(#[trigger] a[i]).finite(),
        forall|x: Single, y: Single|
            x.nan() || y.nan() ==> (#[trigger] result_of(f, Op::Mul, x, y)).nan(),
        forall|x: Single, y: Single|
            x.nan() || y.nan() ==> (#[trigger] result_of(f, Op::Add, x, y)).nan(),
        forall|x: Single, y: Single|
            x.nan() || y.nan() ==> (#[trigger] result_of(f, Op::Sub, x, y)).nan(),
        forall|x: Single, y: Single|
            x.nan() || y.nan() || (!x.finite() && !y.finite()) ==> (#[trigger] result_of(
                f,
                Op::Div,
                x,
                y,
            )).nan(),
        forall|x: Single, y: Single|
            x.nan() || (x.magnitude() == 0x7F80_0000 && y.magnitude() == 0x7F80_0000)
                ==> !(#[trigger] result_of(f, Op::Mul, x, y)).finite(),
        forall|x: Single, y: Single|
            !x.finite() || !y.finite() ==> !(#[trigger] result_of(f, Op::Add, x, y)).finite(),
        a.len() == b.len(),
    ensures
        distance_of(f, Metric::Cosine, a, b).nan(),
{
    let k = choose|i: int| 0 <= i < a.len() && !(#[trigger] a[i]).finite();
    lemma_norm_out_of_reach(f, a, a.len());
    let x = scaled(f, a);
    let y = scaled(f, b);
    assert(!is_finite(a));
    lemma_largest_is_not_finite(a, a.len());
    assert(x[k].nan());
    lemma_sum_is_no_number(f, x, y, x.len());
}

/// A component that is not finite makes the squared magnitude not finite.
proof fn lemma_norm_out_of_reach<F>(f: F, a: Seq<Single>, n: nat) where
    F: Fn(Op, Single, Single) -> Single,

    requires
        n <= a.len(),
        exists|i: int| 0 <= i < n && !(#[trigger] a[i]).finite(),
        forall|x: Single, y: Single|
            x.nan() || (x.magnitude() == 0x7F80_0000 && y.magnitude() == 0x7F80_0000)
                ==> !(#[trigger] result_of(f, Op::Mul, x, y)).finite(),
        forall|x: Single, y: Single|
            !x.finite() || !y.finite() ==> !(#[trigger] result_of(f, Op::Add, x, y)).finite(),
    ensures
        !dot_upto(f, a, a, n).finite(),
    decreases n,
{
    if a[n - 1].finite() {
        let i = choose|i: int| 0 <= i < n && !(#[trigger] a[i]).finite();
        assert(i < n - 1);
        lemma_norm_out_of_reach(f, a, (n - 1) as nat);
    } else {
        assert(!result_of(f, Op::Mul, a[n - 1], a[n - 1]).finite());
    }
}

/// The largest of components that are not all finite is not finite.
proof fn lemma_largest_is_not_finite(v: Seq<Single>, n: nat)
    requires
        n <= v.len(),
        exists|i: int| 0 <= i < n && !(#[trigger] v[i]).finite(),
    ensures
        !largest_upto(v, n).finite(),
        largest_upto(v, n).bits < 0x8000_0000,
    decreases n,
{
    lemma_largest_is_unsigned(v, n);
    if v[n - 1].finite() {
        let i = choose|i: int| 0 <= i < n && !(#[trigger] v[i]).finite();
        assert(i < n - 1);
        lemma_largest_is_not_finite(v, (n - 1) as nat);
    } else {
        lemma_largest_is_unsigned(v, (n - 1) as nat);
    }
}

/// The largest component has no sign.
proof fn lemma_largest_is_unsigned(v: Seq<Single>, n: nat)
    ensures
        largest_upto(v, n).bits < 0x8000_0000,
    decreases n,
{
    if n > 0 {
        lemma_largest_is_unsigned(v, (n - 1) as nat);
    }
}

/// A component that is no number makes every inner product no number.
proof fn lemma_sum_is_no_number<F>(f: F, a: Seq<Single>, b: Seq<Single>, n: nat) where
    F: Fn(Op, Single, Single) -> Single,

    requires
        n <= a.len(),
        exists|i: int| 0 <= i < n && (#[trigger] a[i]).nan(),
        forall|x: Single, y: Single|
            x.nan() || y.nan() ==> (#[trigger] result_of(f, Op::Mul, x, y)).nan(),
        forall|x: Single, y: Single|
            x.nan() || y.nan() ==> (#[trigger] result_of(f, Op::Add, x, y)).nan(),
    ensures
        dot_upto(f, a, b, n).nan(),
    decreases n,
{
    if !a[n - 1].nan() {
        let i = choose|i: int| 0 <= i < n && (#[trigger] a[i]).nan();
        assert(i < n - 1);
        lemma_sum_is_no_number(f, a, b, (n - 1) as nat);
    }
}

/// A larger inner product is a smaller distance.
pub proof fn law_dot_ranks_more_similar_as_closer<F>(
    f: F,
    query: Seq<Single>,
    near: Seq<Single>,
    far: Seq<Single>,
) where F: Fn(Op, Single, Single) -> Single
    requires
        dot_of(f, query, far).less(dot_of(f, query, near)),
    ensures
        distance_of(f, Metric::Dot, query, near).less(distance_of(f, Metric::Dot, query, far)),
{
}

} // verus!
