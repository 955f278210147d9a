//! Exact, brute-force index.

use crate::float::Single;
use crate::index::{hits_are_at, nearest_first, SearchResult, VectorIndex};
use crate::metric::{distance_under, is_arithmetic, Metric, Op};
use crate::order::{distinct_nodes, sort, sort_scored, sorted, Scored};
use crate::rows::{row_of, rows};
use vstd::prelude::*;

verus! {

/// Exhaustive ("flat") index: it compares the query against every stored vector.
///
/// This is `O(n * d)` per query and therefore slow at scale, but it is *exact*.
/// That makes it useful twice over: a correct baseline to ship on day one, and
/// the ground truth the approximate HNSW index is scored against.
#[derive(Debug)]
pub struct FlatIndex<F> {
    dim: usize,
    metric: Metric,
    ids: Vec<u64>,
    /// Row-major matrix of every stored vector.
    data: Vec<Single>,
    arithmetic: F,
}

/// What a flat index holds.
pub struct FlatView {
    /// The length of every stored vector.
    pub dim: nat,
    /// The metric searched with.
    pub metric: Metric,
    /// The ids, in the order they were added.
    pub ids: Seq<u64>,
    /// The vectors, in the order they were added.
    pub vectors: Seq<Seq<Single>>,
    /// The distance between two vectors under the metric.
    pub distance: spec_fn(Seq<Single>, Seq<Single>) -> Single,
}

impl FlatView {
    /// Every stored vector with its distance to the query.
    pub open spec fn scored(self, query: Seq<Single>) -> Seq<Scored> {
        Seq::new(
            self.vectors.len(),
            |i: int| Scored { dist: (self.distance)(query, self.vectors[i]), node: i as usize },
        )
    }

    /// The `k` nearest stored vectors, or all of them if there are fewer. Of
    /// vectors at one distance, the one that was added first comes first.
    pub open spec fn nearest(self, query: Seq<Single>, k: nat) -> Seq<Scored> {
        let all = sort(self.scored(query));
        all.take(if k < all.len() {
            k as int
        } else {
            all.len() as int
        })
    }

    /// The positions of the nearest stored vectors.
    pub open spec fn nearest_positions(self, query: Seq<Single>, k: nat) -> Seq<int> {
        self.nearest(query, k).map_values(|s: Scored| s.node as int)
    }

    /// The hits for a query.
    pub open spec fn hits(self, query: Seq<Single>, k: nat) -> Seq<SearchResult> {
        self.nearest(query, k).map_values(
            |s: Scored| SearchResult { id: self.ids[s.node as int], distance: s.dist },
        )
    }
}

impl<F> View for FlatIndex<F> where F: Fn(Op, Single, Single) -> Single {
    type V = FlatView;

    closed spec fn view(&self) -> FlatView {
        FlatView {
            dim: self.dim as nat,
            metric: self.metric,
            ids: self.ids@,
            vectors: rows(self.data@, self.dim as nat, self.ids@.len()),
            distance: distance_under(self.arithmetic, self.metric),
        }
    }
}

impl<F> Clone for FlatIndex<F> where F: Fn(Op, Single, Single) -> Single + Copy {
    fn clone(&self) -> (copy: FlatIndex<F>)
        ensures
            copy@ == self@,
            copy.valid() == self.valid(),
            copy.capacity() == self.capacity(),
            copy.dimension() == self.dimension(),
            copy.stored_ids() == self.stored_ids(),
            copy.stored_vectors() == self.stored_vectors(),
            copy.distance_fn() == self.distance_fn(),
    {
        let copy = FlatIndex {
            dim: self.dim,
            metric: self.metric,
            ids: self.ids.clone(),
            data: self.data.clone(),
            arithmetic: self.arithmetic,
        };
        assert(copy.ids@ =~= self.ids@);
        assert(copy.data@ =~= self.data@);
        copy
    }
}

impl<F> FlatIndex<F> where F: Fn(Op, Single, Single) -> Single {
    /// Create an empty index over `dim`-dimensional vectors that calculates
    /// with `arithmetic`.
    pub fn new(dim: usize, metric: Metric, arithmetic: F) -> (index: FlatIndex<F>)
        requires
            dim > 0,
            is_arithmetic(arithmetic),
        ensures
            index.valid(),
            index.dimension() == dim,
            index.capacity() == usize::MAX,
            index.stored_ids() == Seq::<u64>::empty(),
            index.stored_vectors() == Seq::<Seq<Single>>::empty(),
            index.distance_fn() == distance_under(arithmetic, metric),
            index@.dim == dim,
            index@.metric == metric,
            index@.ids == Seq::<u64>::empty(),
            index@.vectors == Seq::<Seq<Single>>::empty(),
            index@.distance == distance_under(arithmetic, metric),
    {
        let index = FlatIndex { dim, metric, ids: Vec::new(), data: Vec::new(), arithmetic };
        assert(index@.vectors =~= Seq::<Seq<Single>>::empty());
        index
    }

    /// The dimensionality this index expects.
    pub fn dim(&self) -> (dim: usize)
        ensures
            dim == self@.dim,
    {
        self.dim
    }

    /// The metric this index searches with.
    pub fn metric(&self) -> (metric: Metric)
        ensures
            metric == self@.metric,
    {
        self.metric
    }

    fn row(&self, i: usize) -> (r: &[Single])
        requires
            self.valid(),
            i < self@.ids.len(),
        ensures
            r@ == self@.vectors[i as int],
            r@.len() == self@.dim,
    {
        proof {
            crate::rows::lemma_row_bounds(self.ids@.len(), self.dim as nat, i as int);
        }
        row_of(&self.data, self.dim, i)
    }
}

impl<F> VectorIndex for FlatIndex<F> where F: Fn(Op, Single, Single) -> Single {
    closed spec fn valid(&self) -> bool {
        &&& self.dim > 0
        &&& self.data@.len() == self.ids@.len() * self.dim
        &&& is_arithmetic(self.arithmetic)
    }

    open spec fn capacity(&self) -> nat {
        usize::MAX as nat
    }

    open spec fn dimension(&self) -> nat {
        self@.dim
    }

    open spec fn stored_ids(&self) -> Seq<u64> {
        self@.ids
    }

    open spec fn stored_vectors(&self) -> Seq<Seq<Single>> {
        self@.vectors
    }

    open spec fn distance_fn(&self) -> spec_fn(Seq<Single>, Seq<Single>) -> Single {
        self@.distance
    }

    fn add(&mut self, id: u64, vector: &[Single])
        ensures
            final(self)@ == (FlatView {
                ids: old(self)@.ids.push(id),
                vectors: old(self)@.vectors.push(vector@),
                ..old(self)@
            }),
    {
        let ghost before = self.data@;
        self.ids.push(id);
        self.data.extend_from_slice(vector);
        proof {
            assert(self.data@ =~= before + vector@);
            crate::rows::lemma_push_row(before, self.dim as nat, old(self).ids@.len(), vector@);
        }
    }

    fn search(&self, query: &[Single], k: usize) -> (hits: Vec<SearchResult>)
        ensures
            hits@ == self@.hits(query@, k as nat),
    {
        let n: usize = self.ids.len();
        let mut scored: Vec<Scored> = Vec::new();
        for i in 0..n
            invariant
                self.valid(),
                query@.len() == self@.dim,
                n == self@.ids.len(),
                scored@.len() == i,
                forall|j: int| 0 <= j < i ==> scored@[j] == self@.scored(query@)[j],
        {
            let dist = self.metric.distance(query, self.row(i), &self.arithmetic);
            scored.push(Scored { dist, node: i });
        }
        proof {
            assert(scored@ =~= self@.scored(query@));
            lemma_nearest(self@, query@, k as nat);
        }
        let ranked = sort_scored(scored);
        let count: usize = if k < n {
            k
        } else {
            n
        };
        let ghost nearest = self@.nearest(query@, k as nat);
        let mut hits: Vec<SearchResult> = Vec::new();
        for i in 0..count
            invariant
                count == nearest.len(),
                n == self.ids@.len() == self@.ids.len(),
                count <= ranked@.len(),
                nearest == ranked@.take(count as int),
                forall|j: int| 0 <= j < nearest.len() ==> (#[trigger] nearest[j]).node < n,
                nearest == self@.nearest(query@, k as nat),
                self@.ids == self.ids@,
                hits@.len() == i,
                forall|j: int| 0 <= j < i ==> hits@[j] == self@.hits(query@, k as nat)[j],
        {
            let s = ranked[i];
            assert(s == nearest[i as int]);
            hits.push(SearchResult { id: self.ids[s.node], distance: s.dist });
        }
        proof {
            assert(hits@ =~= self@.hits(query@, k as nat));
            law_flat_hits(self@, query@, k as nat);
            let at = self@.nearest_positions(query@, k as nat);
            assert(hits_are_at(
                hits@,
                at,
                self.stored_ids(),
                self.stored_vectors(),
                query@,
                self.distance_fn(),
            ));
        }
        hits
    }

    fn len(&self) -> (n: usize) {
        self.ids.len()
    }
}

/// A valid index has an id for every vector, and all its vectors have its
/// dimension.
pub proof fn law_valid_flat_index<F>(index: &FlatIndex<F>) where
    F: Fn(Op, Single, Single) -> Single,

    requires
        index.valid(),
    ensures
        index@.ids.len() == index@.vectors.len() <= usize::MAX,
        index@.dim > 0,
        forall|i: int|
            0 <= i < index@.vectors.len() ==> (#[trigger] index@.vectors[i]).len() == index@.dim,
{
    assert(index.ids.len() == index.ids@.len());
    assert forall|i: int| 0 <= i < index@.vectors.len() implies (
    #[trigger] index@.vectors[i]).len() == index@.dim by {
        crate::rows::lemma_row_bounds(index.ids@.len(), index.dim as nat, i);
    }
}

/// The nearest stored vectors, as a list of scored positions.
proof fn lemma_nearest(index: FlatView, query: Seq<Single>, k: nat)
    requires
        index.ids.len() == index.vectors.len() <= usize::MAX,
    ensures
        index.nearest(query, k).len() == if k < index.ids.len() {
            k
        } else {
            index.ids.len()
        },
        sorted(index.nearest(query, k)),
        distinct_nodes(index.nearest(query, k)),
        forall|i: int|
            0 <= i < index.nearest(query, k).len() ==> (#[trigger] index.nearest(query, k)[i]).node
                < index.ids.len() && index.nearest(query, k)[i].dist == (index.distance)(
                query,
                index.vectors[index.nearest(query, k)[i].node as int],
            ),
{
    let scored = index.scored(query);
    let all = sort(scored);
    crate::order::lemma_sort(scored);
    assert(distinct_nodes(scored));
    crate::order::lemma_sort_nodes(scored);
    assert forall|i: int| 0 <= i < all.len() implies (#[trigger] all[i]).node < index.ids.len()
        && all[i].dist == (index.distance)(query, index.vectors[all[i].node as int]) by {
        let j = choose|j: int| 0 <= j < scored.len() && scored[j] == all[i];
        assert(scored[j].node == j);
    }
}

/// A flat search returns `min(k, n)` hits, nearest first; each is a stored vector
/// at its true distance, and no stored vector is hit twice.
pub proof fn law_flat_hits(index: FlatView, query: Seq<Single>, k: nat)
    requires
        index.ids.len() == index.vectors.len() <= usize::MAX,
    ensures
        index.hits(query, k).len() == if k < index.ids.len() {
            k
        } else {
            index.ids.len()
        },
        nearest_first(index.hits(query, k)),
        hits_are_at(
            index.hits(query, k),
            index.nearest_positions(query, k),
            index.ids,
            index.vectors,
            query,
            index.distance,
        ),
{
    lemma_nearest(index, query, k);
    let near = index.nearest(query, k);
    let hits = index.hits(query, k);
    let at = index.nearest_positions(query, k);
    assert forall|i: int, j: int| 0 <= i < j < hits.len() implies (
    #[trigger] hits[i]).distance.rank() <= (#[trigger] hits[j]).distance.rank() by {
        assert(near[i].up_to(near[j]));
    }
    assert(at.no_duplicates()) by {
        assert forall|i: int, j: int| 0 <= i < at.len() && 0 <= j < at.len() && i != j implies at[i]
            != at[j] by {
            assert(near[i].node != near[j].node);
        }
    }
    assert forall|i: int| 0 <= i < hits.len() implies 0 <= #[trigger] at[i] < index.ids.len()
        && hits[i].id == index.ids[at[i]] && hits[i].distance == (index.distance)(
        query,
        index.vectors[at[i]],
    ) by {
        assert(near[i].node == at[i]);
    }
}

/// A flat search is exact: a stored vector that is not among the hits is no
/// nearer than any hit.
pub proof fn law_flat_search_is_exact(index: FlatView, query: Seq<Single>, k: nat, left_out: int)
    requires
        index.ids.len() == index.vectors.len() <= usize::MAX,
        0 <= left_out < index.ids.len(),
        !index.nearest_positions(query, k).contains(left_out),
    ensures
        forall|i: int|
            0 <= i < index.hits(query, k).len() ==> (#[trigger] index.hits(
                query,
                k,
            )[i]).distance.rank() <= (index.distance)(query, index.vectors[left_out]).rank(),
{
    let scored = index.scored(query);
    let all = sort(scored);
    let near = index.nearest(query, k);
    let at = index.nearest_positions(query, k);
    lemma_nearest(index, query, k);
    crate::order::lemma_sort(scored);
    crate::order::lemma_sort_nodes(scored);
    assert(scored[left_out].node == left_out as usize);
    assert(crate::order::has_node(scored, left_out as usize));
    let p = choose|p: int| 0 <= p < all.len() && (#[trigger] all[p]).node == left_out as usize;
    let j = choose|j: int| 0 <= j < scored.len() && scored[j] == all[p];
    assert(scored[j].node == j);
    if p < near.len() {
        assert(near[p] == all[p]);
        assert(at[p] == left_out);
        assert(false);
    }
    assert forall|i: int| 0 <= i < index.hits(query, k).len() implies (#[trigger] index.hits(
        query,
        k,
    )[i]).distance.rank() <= (index.distance)(query, index.vectors[left_out]).rank() by {
        assert(near[i] == all[i]);
        assert(all[i].up_to(all[p]));
    }
}

} // verus!
