//! What every index offers.

use crate::float::Single;
use vstd::prelude::*;

verus! {

/// A single search hit.
#[derive(Debug, Clone, Copy, PartialEq)]
pub struct SearchResult {
    /// Id of the stored vector.
    pub id: u64,
    /// Distance from the query to this vector; smaller means more similar.
    pub distance: Single,
}

/// No hit comes before a nearer one.
pub open spec fn nearest_first(hits: Seq<SearchResult>) -> bool {
    forall|i: int, j: int|
        0 <= i < j < hits.len() ==> (#[trigger] hits[i]).distance.rank() <= (
        #[trigger] hits[j]).distance.rank()
}

/// Hit `i` is the vector stored at position `at[i]`, with its distance from the
/// query, and no position is hit twice.
pub open spec fn hits_are_at(
    hits: Seq<SearchResult>,
    at: Seq<int>,
    ids: Seq<u64>,
    vectors: Seq<Seq<Single>>,
    query: Seq<Single>,
    distance: spec_fn(Seq<Single>, Seq<Single>) -> Single,
) -> bool {
    &&& at.len() == hits.len()
    &&& at.no_duplicates()
    &&& forall|i: int|
        #![trigger at[i]]
        #![trigger hits[i]]
        0 <= i < hits.len() ==> 0 <= at[i] < ids.len() && hits[i].id == ids[at[i]]
            && hits[i].distance == distance(query, vectors[at[i]])
}

/// The interface every index type implements.
///
/// Both the exact [`crate::flat::FlatIndex`] and the approximate
/// [`crate::hnsw::HnswIndex`] implement it. Sharing one trait is what lets the
/// recall harness swap the index under test without touching the measurement
/// code.
pub trait VectorIndex {
    /// What the index keeps true of itself.
    spec fn valid(&self) -> bool;

    /// How many vectors can be stored at most.
    spec fn capacity(&self) -> nat;

    /// The length of every stored vector.
    spec fn dimension(&self) -> nat;

    /// The ids of the stored vectors, in the order they were added.
    spec fn stored_ids(&self) -> Seq<u64>;

    /// The stored vectors, in the order they were added.
    spec fn stored_vectors(&self) -> Seq<Seq<Single>>;

    /// The distance between a query and a vector.
    spec fn distance_fn(&self) -> spec_fn(Seq<Single>, Seq<Single>) -> Single;

    /// Insert `vector` under `id`.
    ///
    /// Ids are expected to be unique; re-using an id simply appends another
    /// entry, since deduplication is a higher-layer concern.
    fn add(&mut self, id: u64, vector: &[Single])
        requires
            old(self).valid(),
            old(self).stored_ids().len() < old(self).capacity(),
            vector@.len() == old(self).dimension(),
        ensures
            final(self).valid(),
            final(self).dimension() == old(self).dimension(),
            final(self).capacity() == old(self).capacity(),
            final(self).stored_ids() == old(self).stored_ids().push(id),
            final(self).stored_vectors() == old(self).stored_vectors().push(vector@),
            final(self).distance_fn() == old(self).distance_fn(),
    ;

    /// Return the nearest stored vectors to `query`, closest first, at most `k`
    /// of them.
    ///
    /// Fewer than `k` results are returned when the index holds fewer than `k`
    /// vectors. An empty index, or `k == 0`, yields an empty result.
    fn search(&self, query: &[Single], k: usize) -> (hits: Vec<SearchResult>)
        requires
            self.valid(),
            query@.len() == self.dimension(),
        ensures
            nearest_first(hits@),
            hits@.len() <= k,
            hits@.len() <= self.stored_ids().len(),
            hits@.len() == 0 <==> k == 0 || self.stored_ids().len() == 0,
            exists|at: Seq<int>| #[trigger]
                hits_are_at(
                    hits@,
                    at,
                    self.stored_ids(),
                    self.stored_vectors(),
                    query@,
                    self.distance_fn(),
                ),
    ;

    /// Number of stored vectors.
    fn len(&self) -> (n: usize)
        ensures
            n == self.stored_ids().len(),
    ;

    /// True when the index holds no vectors.
    fn is_empty(&self) -> (empty: bool)
        ensures
            empty == (self.stored_ids().len() == 0),
    {
        self.len() == 0
    }
}

} // verus!
