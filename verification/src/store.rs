//! The vector backing store behind an index.
//!
//! An index does not care whether its vectors are stored as full-precision
//! numbers or as quantized one-byte codes; it only needs distances. This enum
//! hides that choice behind two distance primitives, so that an index can switch
//! to a 4x-smaller quantized representation without any change to its graph
//! logic.

use crate::float::{Single, SINGLE_ONE, SINGLE_ZERO};
use crate::metric::{
    apply, are_in_reach, cosine_from_products, cosine_of, cosine_performed, dissimilarity,
    dissimilarity_performed, distance_of, distance_performed, dot_of, dot_performed, dot_upto,
    is_arithmetic, is_even_handed, is_finite, l2_performed, l2_upto, largest_upto,
    law_distance_is_symmetric, products_performed, same_number, scaled, scaled_performed, settle,
    Metric, Op,
};
use crate::quant::{
    code_performed, component_of, component_performed, QuantizerView, ScalarQuantizer,
};
use crate::rows::{row, row_of};
use vstd::prelude::*;

verus! {

/// Stored vectors.
#[derive(Debug)]
pub enum VectorStore {
    /// Full-precision vectors, row-major `len × dim`.
    Plain {
        /// The length of every vector.
        dim: usize,
        /// The components.
        data: Vec<Single>,
    },
    /// Scalar-quantized vectors: one code per component.
    Quantized {
        /// The length of every vector.
        dim: usize,
        /// The codes.
        codes: Vec<u8>,
        /// What the codes stand for.
        quant: ScalarQuantizer,
    },
}

/// What a store holds.
#[verifier::ext_equal]
pub enum StoreView {
    /// Full-precision vectors, one after the other.
    Plain {
        /// The length of every vector.
        dim: nat,
        /// The components.
        data: Seq<Single>,
    },
    /// Scalar-quantized vectors, one after the other.
    Quantized {
        /// The length of every vector.
        dim: nat,
        /// The codes.
        codes: Seq<u8>,
        /// What the codes stand for.
        quant: QuantizerView,
    },
}

/// The operations that turn codes back were carried out.
pub open spec fn decoded_performed<F>(f: F, quant: QuantizerView, codes: Seq<u8>) -> bool where
    F: Fn(Op, Single, Single) -> Single,
 {
    forall|d: int|
        0 <= d < codes.len() ==> component_performed(
            f,
            #[trigger] codes[d],
            quant.min[d],
            quant.scale[d],
        )
}

impl StoreView {
    /// The quantizer, if there is one, fits the vectors.
    pub open spec fn consistent(self) -> bool {
        self matches StoreView::Quantized { dim, codes, quant } ==> quant.complete() && quant.dim
            == dim
    }

    /// Vector `i` is stored.
    pub open spec fn holds(self, i: int) -> bool {
        match self {
            StoreView::Plain { dim, data } => (i + 1) * dim <= data.len(),
            StoreView::Quantized { dim, codes, quant } => (i + 1) * dim <= codes.len(),
        }
    }

    /// A query of this length can be measured to: one component for every
    /// dimension, and where the store is quantized, components after those are
    /// left unread.
    pub open spec fn accepts(self, len: nat) -> bool {
        match self {
            StoreView::Plain { dim, data } => len == dim,
            StoreView::Quantized { dim, codes, quant } => len >= dim,
        }
    }

    /// The distance from vector `i` to a query.
    pub open spec fn to_query<F>(
        self,
        f: F,
        metric: Metric,
        i: int,
        query: Seq<Single>,
    ) -> Single where F: Fn(Op, Single, Single) -> Single {
        match self {
            StoreView::Plain { dim, data } => distance_of(f, metric, query, row(data, dim, i)),
            StoreView::Quantized { dim, codes, quant } => distance_of(
                f,
                metric,
                quant.decoded(f, row(codes, dim, i)),
                query.take(dim as int),
            ),
        }
    }

    /// The operations of the distance from vector `i` to a query were carried out.
    pub open spec fn to_query_performed<F>(
        self,
        f: F,
        metric: Metric,
        i: int,
        query: Seq<Single>,
    ) -> bool where F: Fn(Op, Single, Single) -> Single {
        match self {
            StoreView::Plain { dim, data } => distance_performed(
                f,
                metric,
                query,
                row(data, dim, i),
            ),
            StoreView::Quantized { dim, codes, quant } => {
                &&& decoded_performed(f, quant, row(codes, dim, i))
                &&& distance_performed(
                    f,
                    metric,
                    quant.decoded(f, row(codes, dim, i)),
                    query.take(dim as int),
                )
            },
        }
    }

    /// The operations of the distance between vectors `i` and `j` were carried
    /// out.
    pub open spec fn between_performed<F>(self, f: F, metric: Metric, i: int, j: int) -> bool where
        F: Fn(Op, Single, Single) -> Single,
     {
        match self {
            StoreView::Plain { dim, data } => distance_performed(
                f,
                metric,
                row(data, dim, i),
                row(data, dim, j),
            ),
            StoreView::Quantized { dim, codes, quant } => {
                &&& decoded_performed(f, quant, row(codes, dim, i))
                &&& decoded_performed(f, quant, row(codes, dim, j))
                &&& distance_performed(
                    f,
                    metric,
                    quant.decoded(f, row(codes, dim, i)),
                    quant.decoded(f, row(codes, dim, j)),
                )
            },
        }
    }

    /// The distance between vectors `i` and `j`.
    pub open spec fn between<F>(self, f: F, metric: Metric, i: int, j: int) -> Single where
        F: Fn(Op, Single, Single) -> Single,
     {
        match self {
            StoreView::Plain { dim, data } => distance_of(
                f,
                metric,
                row(data, dim, i),
                row(data, dim, j),
            ),
            StoreView::Quantized { dim, codes, quant } => distance_of(
                f,
                metric,
                quant.decoded(f, row(codes, dim, i)),
                quant.decoded(f, row(codes, dim, j)),
            ),
        }
    }
}

impl View for VectorStore {
    type V = StoreView;

    open spec fn view(&self) -> StoreView {
        match *self {
            VectorStore::Plain { dim, data } => StoreView::Plain { dim: dim as nat, data: data@ },
            VectorStore::Quantized { dim, codes, quant } => StoreView::Quantized {
                dim: dim as nat,
                codes: codes@,
                quant: quant@,
            },
        }
    }
}

impl Clone for VectorStore {
    fn clone(&self) -> (copy: VectorStore)
        ensures
            copy@ == self@,
    {
        match self {
            VectorStore::Plain { dim, data } => {
                let copied: Vec<Single> = data.clone();
                assert(copied@ =~= data@);
                VectorStore::Plain { dim: *dim, data: copied }
            },
            VectorStore::Quantized { dim, codes, quant } => {
                let copied: Vec<u8> = codes.clone();
                assert(copied@ =~= codes@);
                VectorStore::Quantized { dim: *dim, codes: copied, quant: quant.clone() }
            },
        }
    }
}

impl VectorStore {
    /// An empty store of full-precision vectors.
    pub fn plain(dim: usize) -> (store: VectorStore)
        ensures
            store@ == (StoreView::Plain { dim: dim as nat, data: Seq::empty() }),
    {
        let store = VectorStore::Plain { dim, data: Vec::new() };
        assert(store@ =~= (StoreView::Plain { dim: dim as nat, data: Seq::empty() }));
        store
    }

    /// A store of full-precision vectors that are given one after the other.
    pub fn plain_from(dim: usize, data: Vec<Single>) -> (store: VectorStore)
        ensures
            store@ == (StoreView::Plain { dim: dim as nat, data: data@ }),
    {
        VectorStore::Plain { dim, data }
    }

    /// A store of quantized vectors whose codes are given one after the other.
    pub fn quantized_from(dim: usize, codes: Vec<u8>, quant: ScalarQuantizer) -> (store:
        VectorStore)
        ensures
            store@ == (StoreView::Quantized { dim: dim as nat, codes: codes@, quant: quant@ }),
    {
        VectorStore::Quantized { dim, codes, quant }
    }

    /// Are the vectors quantized?
    pub fn is_quantized(&self) -> (quantized: bool)
        ensures
            quantized == (self@ is Quantized),
    {
        matches!(self, VectorStore::Quantized { .. })
    }

    /// Append one vector, encoding it if the store is quantized.
    pub fn push<F>(&mut self, vector: &[Single], f: &F) where
        F: Fn(Op, Single, Single) -> Single,

        requires
            old(self)@.consistent(),
            is_arithmetic(*f),
            old(self)@ matches StoreView::Quantized { dim, codes, quant } ==> vector@.len() >= dim
                && codes.len() + dim <= usize::MAX,
        ensures
            final(self)@ == match old(self)@ {
                StoreView::Plain { dim, data } => StoreView::Plain { dim, data: data + vector@ },
                StoreView::Quantized { dim, codes, quant } => StoreView::Quantized {
                    dim,
                    codes: codes + quant.codes(*f, vector@),
                    quant,
                },
            },
            old(self)@ matches StoreView::Quantized { dim, codes, quant } ==> forall|d: int|
                0 <= d < dim ==> code_performed(
                    *f,
                    vector@[d],
                    quant.min[d],
                    #[trigger] quant.scale[d],
                ),
    {
        match self {
            VectorStore::Plain { dim, data } => {
                let ghost before = data@;
                data.extend_from_slice(vector);
                assert(data@ =~= before + vector@);
            },
            VectorStore::Quantized { dim, codes, quant } => {
                let mut row: Vec<u8> = Vec::new();
                row.resize(*dim, 0);
                quant.encode_into(vector, row.as_mut_slice(), f);
                let ghost before = codes@;
                codes.extend_from_slice(row.as_slice());
                assert(codes@ =~= before + quant@.codes(*f, vector@));
            },
        }
    }

    /// Distance from stored vector `i` to an external full-precision `query`.
    pub fn dist_to_query<F>(&self, metric: Metric, i: usize, query: &[Single], f: &F) -> (r:
        Single) where F: Fn(Op, Single, Single) -> Single
        requires
            self@.consistent(),
            self@.holds(i as int),
            self@.accepts(query@.len()),
            is_arithmetic(*f),
        ensures
            r == self@.to_query(*f, metric, i as int, query@),
            self@.to_query_performed(*f, metric, i as int, query@),
    {
        match self {
            VectorStore::Plain { dim, data } => metric.distance(query, row_of(data, *dim, i), f),
            VectorStore::Quantized { dim, codes, quant } => {
                let stored = Components::Coded(quant, row_of(codes, *dim, i));
                let r: Single = quantized_distance(
                    metric,
                    *dim,
                    stored,
                    Components::Given(query),
                    f,
                );
                proof {
                    lemma_decoded(stored, *f, *dim as nat);
                }
                r
            },
        }
    }

    /// Distance between two stored vectors `i` and `j`.
    pub fn dist_between<F>(&self, metric: Metric, i: usize, j: usize, f: &F) -> (r: Single) where
        F: Fn(Op, Single, Single) -> Single,

        requires
            self@.consistent(),
            self@.holds(i as int),
            self@.holds(j as int),
            is_arithmetic(*f),
        ensures
            r == self@.between(*f, metric, i as int, j as int),
            self@.between_performed(*f, metric, i as int, j as int),
    {
        match self {
            VectorStore::Plain { dim, data } => metric.distance(
                row_of(data, *dim, i),
                row_of(data, *dim, j),
                f,
            ),
            VectorStore::Quantized { dim, codes, quant } => {
                let first = Components::Coded(quant, row_of(codes, *dim, i));
                let second = Components::Coded(quant, row_of(codes, *dim, j));
                let r: Single = quantized_distance(metric, *dim, first, second, f);
                proof {
                    lemma_decoded(first, *f, *dim as nat);
                    lemma_decoded(second, *f, *dim as nat);
                }
                r
            },
        }
    }
}

/// A vector whose components are looked up one by one.
#[derive(Debug, Clone, Copy)]
pub enum Components<'a> {
    /// The components themselves.
    Given(&'a [Single]),
    /// Codes, and what they stand for.
    Coded(&'a ScalarQuantizer, &'a [u8]),
}

impl<'a> Components<'a> {
    /// The vector that the first `dim` components make.
    pub open spec fn vector<F>(self, f: F, dim: nat) -> Seq<Single> where
        F: Fn(Op, Single, Single) -> Single,
     {
        match self {
            Components::Given(vector) => vector@.take(dim as int),
            Components::Coded(quant, codes) => quant@.decoded(f, codes@),
        }
    }

    /// The operations that give component `d` were carried out.
    pub open spec fn performed_at<F>(self, f: F, d: int) -> bool where
        F: Fn(Op, Single, Single) -> Single,
     {
        match self {
            Components::Given(vector) => true,
            Components::Coded(quant, codes) => component_performed(
                f,
                codes@[d],
                quant@.min[d],
                quant@.scale[d],
            ),
        }
    }

    /// The operations that give the first `n` components were carried out.
    pub open spec fn performed<F>(self, f: F, n: int) -> bool where
        F: Fn(Op, Single, Single) -> Single,
     {
        forall|d: int| 0 <= d < n ==> #[trigger] self.performed_at(f, d)
    }

    /// There are at least `dim` components.
    pub open spec fn has(self, dim: nat) -> bool {
        match self {
            Components::Given(vector) => vector@.len() >= dim,
            Components::Coded(quant, codes) => quant@.complete() && quant@.dim == dim
                && codes@.len() >= dim,
        }
    }

    /// Component `d` out of `dim`.
    fn at<F>(self, d: usize, f: &F, Ghost(dim): Ghost<nat>) -> (x: Single) where
        F: Fn(Op, Single, Single) -> Single,

        requires
            is_arithmetic(*f),
            self.has(dim),
            d < dim,
        ensures
            x == self.vector(*f, dim)[d as int],
            self.performed_at(*f, d as int),
    {
        match self {
            Components::Given(vector) => vector[d],
            Components::Coded(quant, codes) => quant.dequantize(d, codes[d], f),
        }
    }

    /// The largest of the first `dim` components, without its sign.
    fn largest<F>(self, dim: usize, f: &F) -> (largest: Single) where
        F: Fn(Op, Single, Single) -> Single,

        requires
            is_arithmetic(*f),
            self.has(dim as nat),
        ensures
            largest == largest_upto(self.vector(*f, dim as nat), dim as nat),
    {
        let mut largest = Single::from_bits(SINGLE_ZERO);
        for d in 0..dim
            invariant
                is_arithmetic(*f),
                self.has(dim as nat),
                largest == largest_upto(self.vector(*f, dim as nat), d as nat),
        {
            let x: Single = self.at(d, f, Ghost(dim as nat)).abs();
            if largest.to_bits() < x.to_bits() {
                largest = x;
            }
        }
        largest
    }

    /// Are the first `dim` components finite numbers?
    fn all_finite<F>(self, dim: usize, f: &F) -> (b: bool) where
        F: Fn(Op, Single, Single) -> Single,

        requires
            is_arithmetic(*f),
            self.has(dim as nat),
        ensures
            b == is_finite(self.vector(*f, dim as nat)),
    {
        let ghost xs = self.vector(*f, dim as nat);
        for d in 0..dim
            invariant
                is_arithmetic(*f),
                self.has(dim as nat),
                xs == self.vector(*f, dim as nat),
                forall|e: int| 0 <= e < d ==> (#[trigger] xs[e]).finite(),
        {
            if !self.at(d, f, Ghost(dim as nat)).is_finite() {
                assert(!xs[d as int].finite());
                return false;
            }
        }
        true
    }
}

/// Codes that were turned back one by one were turned back.
proof fn lemma_decoded<F>(components: Components<'_>, f: F, dim: nat) where
    F: Fn(Op, Single, Single) -> Single,

    requires
        components.performed(f, dim as int),
    ensures
        components matches Components::Coded(quant, codes) ==> (codes@.len() == dim
            ==> decoded_performed(f, quant@, codes@)),
{
    if let Components::Coded(quant, codes) = components {
        if codes@.len() == dim {
            assert forall|d: int| 0 <= d < codes@.len() implies component_performed(
                f,
                #[trigger] codes@[d],
                quant@.min[d],
                quant@.scale[d],
            ) by {
                assert(components.performed_at(f, d));
            }
        }
    }
}

/// Compute a metric distance component by component, dequantizing lazily so no
/// decompressed vector is materialised. Mirrors the semantics of
/// [`Metric::distance`] exactly. Components after the first `dim` are left
/// unread.
pub fn quantized_distance<F>(
    metric: Metric,
    dim: usize,
    a: Components<'_>,
    b: Components<'_>,
    f: &F,
) -> (r: Single) where F: Fn(Op, Single, Single) -> Single
    requires
        is_arithmetic(*f),
        a.has(dim as nat),
        b.has(dim as nat),
    ensures
        r == distance_of(*f, metric, a.vector(*f, dim as nat), b.vector(*f, dim as nat)),
        distance_performed(*f, metric, a.vector(*f, dim as nat), b.vector(*f, dim as nat)),
        a.performed(*f, dim as int),
        b.performed(*f, dim as int),
{
    let ghost n = dim as nat;
    let ghost xs = a.vector(*f, n);
    let ghost ys = b.vector(*f, n);
    match metric {
        Metric::L2 => {
            let mut sum = Single::from_bits(SINGLE_ZERO);
            for d in 0..dim
                invariant
                    is_arithmetic(*f),
                    n == dim,
                    a.has(n),
                    b.has(n),
                    xs == a.vector(*f, n),
                    ys == b.vector(*f, n),
                    a.performed(*f, d as int),
                    b.performed(*f, d as int),
                    sum == l2_upto(*f, xs, ys, d as nat),
                    l2_performed(*f, xs, ys, d as nat),
            {
                let diff: Single = apply(f, Op::Sub, a.at(d, f, Ghost(n)), b.at(d, f, Ghost(n)));
                sum = apply(f, Op::Add, sum, apply(f, Op::Mul, diff, diff));
            }
            sum
        },
        Metric::Dot => {
            let mut dot = Single::from_bits(SINGLE_ZERO);
            for d in 0..dim
                invariant
                    is_arithmetic(*f),
                    n == dim,
                    a.has(n),
                    b.has(n),
                    xs == a.vector(*f, n),
                    ys == b.vector(*f, n),
                    a.performed(*f, d as int),
                    b.performed(*f, d as int),
                    dot == dot_upto(*f, xs, ys, d as nat),
                    dot_performed(*f, xs, ys, d as nat),
            {
                let product: Single = apply(
                    f,
                    Op::Mul,
                    a.at(d, f, Ghost(n)),
                    b.at(d, f, Ghost(n)),
                );
                dot = apply(f, Op::Add, dot, product);
            }
            dot.negated()
        },
        Metric::Cosine => quantized_cosine(dim, a, b, f),
    }
}

/// Compute a cosine distance component by component.
fn quantized_cosine<F>(dim: usize, a: Components<'_>, b: Components<'_>, f: &F) -> (r:
    Single) where F: Fn(Op, Single, Single) -> Single
    requires
        is_arithmetic(*f),
        a.has(dim as nat),
        b.has(dim as nat),
    ensures
        r == cosine_of(*f, a.vector(*f, dim as nat), b.vector(*f, dim as nat)),
        cosine_performed(*f, a.vector(*f, dim as nat), b.vector(*f, dim as nat)),
        a.performed(*f, dim as int),
        b.performed(*f, dim as int),
{
    let ghost n = dim as nat;
    let ghost xs = a.vector(*f, n);
    let ghost ys = b.vector(*f, n);
    let zero = Single::from_bits(SINGLE_ZERO);
    let mut dot = zero;
    let mut na = zero;
    let mut nb = zero;
    let mut a_is_zero = true;
    let mut b_is_zero = true;
    for d in 0..dim
        invariant
            is_arithmetic(*f),
            n == dim,
            zero.bits == SINGLE_ZERO,
            a.has(n),
            b.has(n),
            xs == a.vector(*f, n),
            ys == b.vector(*f, n),
            a.performed(*f, d as int),
            b.performed(*f, d as int),
            dot == dot_upto(*f, xs, ys, d as nat),
            dot_performed(*f, xs, ys, d as nat),
            na == dot_upto(*f, xs, xs, d as nat),
            dot_performed(*f, xs, xs, d as nat),
            nb == dot_upto(*f, ys, ys, d as nat),
            dot_performed(*f, ys, ys, d as nat),
            a_is_zero == (forall|e: int| 0 <= e < d ==> (#[trigger] xs[e]).equal(zero)),
            b_is_zero == (forall|e: int| 0 <= e < d ==> (#[trigger] ys[e]).equal(zero)),
    {
        let av: Single = a.at(d, f, Ghost(n));
        let bv: Single = b.at(d, f, Ghost(n));
        dot = apply(f, Op::Add, dot, apply(f, Op::Mul, av, bv));
        na = apply(f, Op::Add, na, apply(f, Op::Mul, av, av));
        nb = apply(f, Op::Add, nb, apply(f, Op::Mul, bv, bv));
        a_is_zero = a_is_zero && av == zero;
        b_is_zero = b_is_zero && bv == zero;
    }
    if a_is_zero || b_is_zero {
        return Single::from_bits(SINGLE_ONE);
    }
    let r: Single = if are_in_reach(na, nb, f) {
        cosine_from_products(dot, na, nb, f)
    } else {
        scaled_cosine(dim, a, b, f)
    };
    settle(r, r.is_nan() && a.all_finite(dim, f) && b.all_finite(dim, f))
}

/// Compute one minus a cosine similarity component by component, each over the
/// largest one of its vector.
fn scaled_cosine<F>(dim: usize, a: Components<'_>, b: Components<'_>, f: &F) -> (r: Single) where
    F: Fn(Op, Single, Single) -> Single,

    requires
        is_arithmetic(*f),
        a.has(dim as nat),
        b.has(dim as nat),
    ensures
        ({
            let xs = a.vector(*f, dim as nat);
            let ys = b.vector(*f, dim as nat);
            let us = scaled(*f, xs);
            let vs = scaled(*f, ys);
            &&& r == dissimilarity(*f, dot_of(*f, us, vs), dot_of(*f, us, us), dot_of(*f, vs, vs))
            &&& scaled_performed(*f, xs, dim as nat)
            &&& scaled_performed(*f, ys, dim as nat)
            &&& products_performed(*f, us, vs)
            &&& dissimilarity_performed(
                *f,
                dot_of(*f, us, vs),
                dot_of(*f, us, us),
                dot_of(*f, vs, vs),
            )
        }),
{
    let ghost n = dim as nat;
    let ghost xs = a.vector(*f, n);
    let ghost ys = b.vector(*f, n);
    let ghost us = scaled(*f, xs);
    let ghost vs = scaled(*f, ys);
    let by_a: Single = a.largest(dim, f);
    let by_b: Single = b.largest(dim, f);
    let mut dot = Single::from_bits(SINGLE_ZERO);
    let mut na = Single::from_bits(SINGLE_ZERO);
    let mut nb = Single::from_bits(SINGLE_ZERO);
    for d in 0..dim
        invariant
            is_arithmetic(*f),
            n == dim,
            a.has(n),
            b.has(n),
            xs == a.vector(*f, n),
            ys == b.vector(*f, n),
            xs.len() == n,
            ys.len() == n,
            us == scaled(*f, xs),
            vs == scaled(*f, ys),
            by_a == largest_upto(xs, n),
            by_b == largest_upto(ys, n),
            scaled_performed(*f, xs, d as nat),
            scaled_performed(*f, ys, d as nat),
            dot == dot_upto(*f, us, vs, d as nat),
            dot_performed(*f, us, vs, d as nat),
            na == dot_upto(*f, us, us, d as nat),
            dot_performed(*f, us, us, d as nat),
            nb == dot_upto(*f, vs, vs, d as nat),
            dot_performed(*f, vs, vs, d as nat),
    {
        let av: Single = apply(f, Op::Div, a.at(d, f, Ghost(n)), by_a);
        let bv: Single = apply(f, Op::Div, b.at(d, f, Ghost(n)), by_b);
        dot = apply(f, Op::Add, dot, apply(f, Op::Mul, av, bv));
        na = apply(f, Op::Add, na, apply(f, Op::Mul, av, av));
        nb = apply(f, Op::Add, nb, apply(f, Op::Mul, bv, bv));
    }
    cosine_from_products(dot, na, nb, f)
}

/// A quantized store measures between its vectors as the full-precision store of
/// the vectors that its codes stand for.
pub proof fn law_quantized_mirrors_plain<F>(
    f: F,
    metric: Metric,
    dim: nat,
    codes: Seq<u8>,
    quant: QuantizerView,
    data: Seq<Single>,
    i: int,
    j: int,
) where F: Fn(Op, Single, Single) -> Single
    requires
        row(data, dim, i) == quant.decoded(f, row(codes, dim, i)),
        row(data, dim, j) == quant.decoded(f, row(codes, dim, j)),
    ensures
        (StoreView::Quantized { dim, codes, quant }).between(f, metric, i, j) == (
        StoreView::Plain { dim, data }).between(f, metric, i, j),
{
}

/// A quantized store measures from a query as the full-precision store of the
/// vectors that its codes stand for, unless the distance is no number, in an
/// arithmetic in which the order of two vectors makes no difference.
pub proof fn law_quantized_answers_as_plain<F>(
    f: F,
    metric: Metric,
    dim: nat,
    codes: Seq<u8>,
    quant: QuantizerView,
    data: Seq<Single>,
    i: int,
    query: Seq<Single>,
) where F: Fn(Op, Single, Single) -> Single
    requires
        is_even_handed(f),
        quant.dim == dim,
        query.len() == dim,
        row(data, dim, i) == quant.decoded(f, row(codes, dim, i)),
    ensures
        same_number(
            (StoreView::Quantized { dim, codes, quant }).to_query(f, metric, i, query),
            (StoreView::Plain { dim, data }).to_query(f, metric, i, query),
        ),
{
    assert(query.take(dim as int) =~= query);
    law_distance_is_symmetric(f, metric, query, row(data, dim, i));
}

/// What a full-precision store measures: the distance between the vectors that stand in
/// its rows, and from the query to the vector in a row.
pub proof fn law_plain_store_measures_its_rows<F>(
    f: F,
    metric: Metric,
    dim: nat,
    data: Seq<Single>,
    n: nat,
    i: int,
    j: int,
    query: Seq<Single>,
) where F: Fn(Op, Single, Single) -> Single
    requires
        data.len() == n * dim,
        0 <= i < n,
        0 <= j < n,
    ensures
        ({
            let store = StoreView::Plain { dim, data };
            let x = Seq::new(dim, |d: int| data[i * dim + d]);
            let y = Seq::new(dim, |d: int| data[j * dim + d]);
            &&& store.between(f, metric, i, j) == distance_of(f, metric, x, y)
            &&& store.to_query(f, metric, i, query) == distance_of(f, metric, query, x)
        }),
{
    crate::rows::lemma_row_bounds(n, dim, i);
    crate::rows::lemma_row_bounds(n, dim, j);
    assert(row(data, dim, i) =~= Seq::new(dim, |d: int| data[i * dim + d]));
    assert(row(data, dim, j) =~= Seq::new(dim, |d: int| data[j * dim + d]));
}

/// What a quantized store measures: the distance between the vectors that the codes in
/// its rows stand for, and from such a vector to as many components of the query.
pub proof fn law_quantized_store_measures_decoded_rows<F>(
    f: F,
    metric: Metric,
    dim: nat,
    codes: Seq<u8>,
    quant: QuantizerView,
    n: nat,
    i: int,
    j: int,
    query: Seq<Single>,
) where F: Fn(Op, Single, Single) -> Single
    requires
        codes.len() == n * dim,
        quant.dim == dim,
        0 <= i < n,
        0 <= j < n,
    ensures
        ({
            let store = StoreView::Quantized { dim, codes, quant };
            let x = Seq::new(
                dim,
                |d: int| component_of(f, codes[i * dim + d], quant.min[d], quant.scale[d]),
            );
            let y = Seq::new(
                dim,
                |d: int| component_of(f, codes[j * dim + d], quant.min[d], quant.scale[d]),
            );
            &&& store.between(f, metric, i, j) == distance_of(f, metric, x, y)
            &&& store.to_query(f, metric, i, query) == distance_of(
                f,
                metric,
                x,
                query.take(dim as int),
            )
        }),
{
    crate::rows::lemma_row_bounds(n, dim, i);
    crate::rows::lemma_row_bounds(n, dim, j);
    let x = Seq::new(
        dim,
        |d: int| component_of(f, codes[i * dim + d], quant.min[d], quant.scale[d]),
    );
    let y = Seq::new(
        dim,
        |d: int| component_of(f, codes[j * dim + d], quant.min[d], quant.scale[d]),
    );
    assert(quant.decoded(f, row(codes, dim, i)) =~= x);
    assert(quant.decoded(f, row(codes, dim, j)) =~= y);
}

} // verus!
