//! Hierarchical Navigable Small World (HNSW) index.
//!
//! HNSW is the approximate-nearest-neighbour index behind most production vector
//! databases. It builds a layered proximity graph: the bottom layer holds every
//! vector, and each higher layer holds an exponentially thinning sample. A
//! search greedily walks the sparse top layers to get *near* the query cheaply,
//! then explores the dense bottom layer to refine. That turns an `O(n)` scan
//! into something closer to `O(log n)`, while giving up only a little recall.
//!
//! Reference: Malkov & Yashunin, "Efficient and robust approximate nearest
//! neighbor search using Hierarchical Navigable Small World graphs" (2016).
//!
//! # Design
//!
//! The graph is stored as **index-based adjacency lists**: nodes are `u32`
//! indices into flat `Vec`s, and `links[node][layer]` is the list of neighbour
//! indices. What is calculated with floating-point numbers is handed to the index
//! as two functions: one carries out the operations that distances are made of,
//! the other turns a uniform draw into the height of a node.

pub mod snapshot;

use crate::beam::Beam;
use crate::exact::double_one;
use crate::flat::FlatView;
use crate::float::{Double, Single, DOUBLE_ONE};
use crate::graph::{
    base_layer_is_joined, base_layer_is_joined_without, cap, capped, closed_on_base, fit_to_wire,
    next_entry_points, on_layer, ready_to_connect, unlinked_on, well_linked, Links, Space,
};
use crate::index::{hits_are_at, nearest_first, SearchResult, VectorIndex};
use crate::metric::{distance_under, is_arithmetic, Metric, Op};
use crate::order::{distinct_nodes, has_node, sort, sort_scored, sorted, Scored};
use crate::payload::{Filter, Payload, ValueView};
use crate::rng::{next_state, open_unit_bits, scramble, SplitMix64};
use crate::rows::{row_of, rows};
use vstd::prelude::*;

verus! {

/// Hard ceiling on a node's top layer, so a pathological random draw can never
/// blow up per-node storage. Reaching even layer 16 is astronomically unlikely.
pub const MAX_LEVEL: usize = 32;

/// Construction and search parameters for an [`HnswIndex`].
///
/// The defaults (`m = 16`, `ef_construction = 200`, `ef_search = 64`) are the
/// commonly recommended starting point and give high recall on typical
/// embedding data. Larger values raise recall and cost; smaller values do the
/// reverse.
#[derive(Debug, Clone, Copy)]
pub struct HnswConfig {
    /// Target number of neighbours per node on the upper layers. Layer 0 uses
    /// `2 * m`, since the base layer carries the most connections.
    pub m: usize,
    /// Size of the dynamic candidate list while *inserting*. Higher builds a
    /// better graph at higher cost.
    pub ef_construction: usize,
    /// Size of the dynamic candidate list while *searching*. Higher trades
    /// latency for recall. Always effectively at least `k`.
    pub ef_search: usize,
    /// Seed for the layer-assignment PRNG, so an index built from the same
    /// inserts is bit-for-bit reproducible.
    pub seed: u64,
}

impl HnswConfig {
    /// The default parameters.
    pub open spec fn standard() -> HnswConfig {
        HnswConfig {
            m: 16,
            ef_construction: 200,
            ef_search: 64,
            seed: 0x5EED_1234_ABCD_0001,
        }
    }
}

impl Default for HnswConfig {
    fn default() -> (config: HnswConfig)
        ensures
            config == HnswConfig::standard(),
            config.m == 16,
            config.ef_construction == 200,
            config.ef_search == 64,
            config.seed == 0x5EED_1234_ABCD_0001,
    {
        HnswConfig {
            m: 16,
            ef_construction: 200,
            ef_search: 64,
            seed: 0x5EED_1234_ABCD_0001,
        }
    }
}

/// `f` turns every draw from the open unit interval into a height, for every
/// connection target that an index can have, and the same draw always into the
/// same height. A node reaches up to the layer that is the integer part of its
/// height; heights follow an exponential distribution.
pub open spec fn is_level<L>(f: L) -> bool where L: Fn(Double, usize) -> Double {
    &&& forall|u: Double, m: usize|
        0 < u.bits < DOUBLE_ONE && m >= 2 ==> #[trigger] call_requires(f, (u, m))
    &&& forall|u: Double, m: usize, r: Double, s: Double|
        #[trigger] call_ensures(f, (u, m), r) && #[trigger] call_ensures(f, (u, m), s) ==> r == s
}

/// The height that `f` gives for a draw.
pub open spec fn level_under<L>(f: L) -> spec_fn(Double, usize) -> Double where
    L: Fn(Double, usize) -> Double,
 {
    |u: Double, m: usize| choose|r: Double| call_ensures(f, (u, m), r)
}

/// The fields of a payload.
pub type Fields = Map<Seq<char>, ValueView>;

/// What an HNSW index holds.
#[verifier::ext_equal]
pub struct HnswView {
    /// The length of every stored vector.
    pub dim: nat,
    /// The metric searched with.
    pub metric: Metric,
    /// The parameters.
    pub config: HnswConfig,
    /// The ids, in the order they were added.
    pub ids: Seq<u64>,
    /// The vectors, in the order they were added.
    pub vectors: Seq<Seq<Single>>,
    /// The payloads, in the order they were added.
    pub payloads: Seq<Option<Fields>>,
    /// The neighbours of every node on every layer.
    pub links: Links,
    /// Where every search starts.
    pub entry: Option<usize>,
    /// The top layer of the graph.
    pub max_layer: nat,
    /// The state of the layer-assignment generator.
    pub rng: u64,
    /// The distance between two vectors under the metric.
    pub distance: spec_fn(Seq<Single>, Seq<Single>) -> Single,
    /// The height for a draw.
    pub level: spec_fn(Double, usize) -> Double,
}

impl HnswView {
    /// An index that holds nothing.
    pub open spec fn empty(
        dim: nat,
        metric: Metric,
        config: HnswConfig,
        distance: spec_fn(Seq<Single>, Seq<Single>) -> Single,
        level: spec_fn(Double, usize) -> Double,
    ) -> HnswView {
        HnswView {
            dim,
            metric,
            config,
            ids: Seq::empty(),
            vectors: Seq::empty(),
            payloads: Seq::empty(),
            links: Seq::empty(),
            entry: None,
            max_layer: 0,
            rng: config.seed,
            distance,
            level,
        }
    }

    /// How many vectors can be stored: as many as `u32` numbers, unless the
    /// connection target is too large to be doubled.
    pub open spec fn capacity(self) -> nat {
        if 2 * self.config.m <= usize::MAX {
            0x1_0000_0000
        } else {
            0
        }
    }

    /// The index with another search-time candidate-list size.
    pub open spec fn tuned(self, ef_search: usize) -> HnswView {
        HnswView { config: HnswConfig { ef_search, ..self.config }, ..self }
    }

    /// An exact index over the same vectors.
    pub open spec fn exact(self) -> FlatView {
        FlatView {
            dim: self.dim,
            metric: self.metric,
            ids: self.ids,
            vectors: self.vectors,
            distance: self.distance,
        }
    }

    /// The stored vectors and the way to measure between them.
    pub open spec fn space(self) -> Space {
        Space { vectors: self.vectors, distance: self.distance }
    }

    /// What every index keeps true: ids, vectors and nodes match; the graph is in
    /// order, within its caps; the entry point is a node of the top layer; and no
    /// layer is above the ceiling.
    pub open spec fn well_formed(self) -> bool {
        &&& self.dim > 0
        &&& self.config.m >= 2
        &&& self.ids.len() == self.vectors.len()
        &&& self.ids.len() == self.payloads.len()
        &&& self.ids.len() == self.links.len()
        &&& self.ids.len() <= u32::MAX + 1
        &&& forall|v: int| 0 <= v < self.vectors.len() ==> (#[trigger] self.vectors[v]).len()
            == self.dim
        &&& forall|v: int|
            0 <= v < self.links.len() ==> 1 <= (#[trigger] self.links[v]).len() <= self.max_layer
                + 1
        &&& self.max_layer <= MAX_LEVEL
        &&& well_linked(self.links)
        &&& capped(self.links, self.config.m as nat)
        &&& match self.entry {
            None => self.ids.len() == 0 && self.max_layer == 0,
            Some(e) => e < self.ids.len() && self.links[e as int].len() == self.max_layer + 1,
        }
    }

    /// The top layer that the next node is given.
    pub open spec fn next_level(self) -> nat {
        let u = Double {
            bits: open_unit_bits((scramble(next_state(self.rng)) >> 11) as nat) as u64,
        };
        (self.level)(u, self.config.m).floor_within(MAX_LEVEL as nat)
    }

    /// The index with one more node, which nothing is linked to.
    pub open spec fn appended(
        self,
        id: u64,
        vector: Seq<Single>,
        payload: Option<Fields>,
        level: nat,
    ) -> HnswView {
        HnswView {
            ids: self.ids.push(id),
            vectors: self.vectors.push(vector),
            payloads: self.payloads.push(payload),
            links: self.links.push(Seq::new(level + 1, |l: int| Seq::<u32>::empty())),
            rng: next_state(self.rng),
            ..self
        }
    }

    /// The index after `vector` was added under `id`.
    pub open spec fn inserted(
        self,
        id: u64,
        vector: Seq<Single>,
        payload: Option<Fields>,
    ) -> HnswView {
        let level = self.next_level();
        let node = self.ids.len();
        let fresh = self.appended(id, vector, payload, level);
        match self.entry {
            None => HnswView { entry: Some(node as usize), max_layer: level, ..fresh },
            Some(entry) => {
                let space = fresh.space();
                let ep = space.descend(
                    fresh.links,
                    vector,
                    entry,
                    self.max_layer as int,
                    level as int + 1,
                );
                let start = if level < self.max_layer {
                    level
                } else {
                    self.max_layer
                };
                let links = space.connected(
                    fresh.links,
                    vector,
                    node as u32,
                    seq![ep],
                    ep,
                    start as int,
                    self.config.m as nat,
                    self.config.ef_construction as nat,
                );
                if level > self.max_layer {
                    HnswView { links, entry: Some(node as usize), max_layer: level, ..fresh }
                } else {
                    HnswView { links, ..fresh }
                }
            },
        }
    }

    /// The candidates for a query: what the beam on the base layer ends with,
    /// after a greedy walk down the layers above.
    pub open spec fn candidates(self, query: Seq<Single>, k: nat) -> Seq<Scored> {
        match self.entry {
            None => Seq::empty(),
            Some(entry) => {
                let space = self.space();
                let ep = space.descend(self.links, query, entry, self.max_layer as int, 1);
                let ef = if self.config.ef_search < k {
                    k
                } else {
                    self.config.ef_search as nat
                };
                space.search_layer(self.links, query, seq![ep], ef, 0)
            },
        }
    }

    /// The candidates that are returned for a query.
    pub open spec fn nearest(self, query: Seq<Single>, k: nat) -> Seq<Scored> {
        if k == 0 {
            Seq::empty()
        } else {
            let found = self.candidates(query, k);
            found.take(if k < found.len() {
                k as int
            } else {
                found.len() as int
            })
        }
    }

    /// Candidates as hits.
    pub open spec fn as_hits(self, found: Seq<Scored>) -> Seq<SearchResult> {
        found.map_values(
            |s: Scored| SearchResult { id: self.ids[s.node as int], distance: s.dist },
        )
    }

    /// The positions of candidates.
    pub open spec fn positions(self, found: Seq<Scored>) -> Seq<int> {
        found.map_values(|s: Scored| s.node as int)
    }

    /// The hits for a query.
    pub open spec fn hits(self, query: Seq<Single>, k: nat) -> Seq<SearchResult> {
        self.as_hits(self.nearest(query, k))
    }

    /// Candidates whose payload matches.
    pub open spec fn matching(self, found: Seq<Scored>, filter: Filter) -> Seq<Scored> {
        found.filter(|s: Scored| filter.holds(self.payloads[s.node as int]))
    }

    /// The candidates that are returned for a query under a filter.
    pub open spec fn nearest_matching(
        self,
        query: Seq<Single>,
        k: nat,
        filter: Filter,
    ) -> Seq<Scored> {
        if k == 0 {
            Seq::empty()
        } else {
            let found = self.matching(self.candidates(query, k), filter);
            found.take(if k < found.len() {
                k as int
            } else {
                found.len() as int
            })
        }
    }

    /// The hits for a query under a filter.
    pub open spec fn filtered_hits(
        self,
        query: Seq<Single>,
        k: nat,
        filter: Filter,
    ) -> Seq<SearchResult> {
        self.as_hits(self.nearest_matching(query, k, filter))
    }
}

/// Nested lists as nested sequences.
pub open spec fn deep(links: Seq<Vec<Vec<u32>>>) -> Links {
    Seq::new(links.len(), |v: int| Seq::new(links[v]@.len(), |l: int| links[v]@[l]@))
}

/// A payload, if there is one, by what it holds.
pub open spec fn fields_of(payload: Option<Payload>) -> Option<Fields> {
    match payload {
        Some(p) => Some(p@),
        None => None,
    }
}

/// Payloads by what they hold.
pub open spec fn payload_views(payloads: Seq<Option<Payload>>) -> Seq<Option<Fields>> {
    Seq::new(payloads.len(), |v: int| fields_of(payloads[v]))
}

/// Replace the list of `v` on layer `l`.
fn set_list(links: &mut Vec<Vec<Vec<u32>>>, v: usize, l: usize, list: Vec<u32>)
    requires
        v < old(links)@.len(),
        l < old(links)@[v as int]@.len(),
    ensures
        final(links)@.len() == old(links)@.len(),
        deep(final(links)@) == deep(old(links)@).update(
            v as int,
            deep(old(links)@)[v as int].update(l as int, list@),
        ),
{
    links[v][l] = list;
    assert(deep(links@) =~~= deep(old(links)@).update(
        v as int,
        deep(old(links)@)[v as int].update(l as int, list@),
    ));
}

/// Append `node` to the list of `v` on layer `l`.
fn push_link(links: &mut Vec<Vec<Vec<u32>>>, v: usize, l: usize, node: u32)
    requires
        v < old(links)@.len(),
        l < old(links)@[v as int]@.len(),
    ensures
        final(links)@.len() == old(links)@.len(),
        deep(final(links)@) == deep(old(links)@).update(
            v as int,
            deep(old(links)@)[v as int].update(
                l as int,
                deep(old(links)@)[v as int][l as int].push(node),
            ),
        ),
{
    links[v][l].push(node);
    assert(deep(links@) =~~= deep(old(links)@).update(
        v as int,
        deep(old(links)@)[v as int].update(
            l as int,
            deep(old(links)@)[v as int][l as int].push(node),
        ),
    ));
}

/// The lists of a node that is linked to nothing on `count` layers.
fn empty_layers(count: usize) -> (layers: Vec<Vec<u32>>)
    ensures
        Seq::new(layers@.len(), |l: int| layers@[l]@) == Seq::new(
            count as nat,
            |l: int| Seq::<u32>::empty(),
        ),
{
    let mut layers: Vec<Vec<u32>> = Vec::new();
    for i in 0..count
        invariant
            layers@.len() == i,
            forall|l: int| 0 <= l < i ==> (#[trigger] layers@[l])@ == Seq::<u32>::empty(),
    {
        layers.push(Vec::new());
    }
    assert(Seq::new(layers@.len(), |l: int| layers@[l]@) =~= Seq::new(
        count as nat,
        |l: int| Seq::<u32>::empty(),
    ));
    layers
}

/// An approximate nearest-neighbour index backed by an HNSW graph.
#[derive(Debug)]
pub struct HnswIndex<F, L> {
    dim: usize,
    metric: Metric,
    config: HnswConfig,
    ids: Vec<u64>,
    /// Row-major matrix of every stored vector.
    data: Vec<Single>,
    payloads: Vec<Option<Payload>>,
    /// `links[node][layer]` = neighbour node indices of `node` on `layer`.
    links: Vec<Vec<Vec<u32>>>,
    entry: Option<usize>,
    max_layer: usize,
    rng: SplitMix64,
    arithmetic: F,
    level: L,
}

impl<F, L> View for HnswIndex<F, L> where
    F: Fn(Op, Single, Single) -> Single,
    L: Fn(Double, usize) -> Double,
 {
    type V = HnswView;

    closed spec fn view(&self) -> HnswView {
        HnswView {
            dim: self.dim as nat,
            metric: self.metric,
            config: self.config,
            ids: self.ids@,
            vectors: rows(self.data@, self.dim as nat, self.ids@.len()),
            payloads: payload_views(self.payloads@),
            links: deep(self.links@),
            entry: self.entry,
            max_layer: self.max_layer as nat,
            rng: self.rng@,
            distance: distance_under(self.arithmetic, self.metric),
            level: level_under(self.level),
        }
    }
}

/// A copy of all lists of neighbours.
fn copy_links(links: &Vec<Vec<Vec<u32>>>) -> (copy: Vec<Vec<Vec<u32>>>)
    ensures
        copy@.len() == links@.len(),
        deep(copy@) == deep(links@),
{
    let mut copy: Vec<Vec<Vec<u32>>> = Vec::new();
    for v in 0..links.len()
        invariant
            copy@.len() == v,
            deep(copy@) == deep(links@).take(v as int),
    {
        let mut layers: Vec<Vec<u32>> = Vec::new();
        let count: usize = links[v].len();
        for l in 0..count
            invariant
                v < links@.len(),
                count == links@[v as int]@.len(),
                layers@.len() == l,
                forall|i: int| 0 <= i < l ==> (#[trigger] layers@[i])@ == links@[v as int]@[i]@,
        {
            let list: Vec<u32> = links[v][l].clone();
            assert(list@ =~= links@[v as int]@[l as int]@);
            layers.push(list);
        }
        copy.push(layers);
        proof {
            let mine = Seq::new(layers@.len(), |l: int| layers@[l]@);
            assert(mine =~= deep(links@)[v as int]);
            assert(deep(copy@) =~= deep(links@).take(v + 1));
        }
    }
    assert(deep(links@).take(links@.len() as int) =~= deep(links@));
    copy
}

/// A copy of all payloads.
fn copy_payloads(payloads: &Vec<Option<Payload>>) -> (copy: Vec<Option<Payload>>)
    ensures
        payload_views(copy@) == payload_views(payloads@),
{
    let mut copy: Vec<Option<Payload>> = Vec::new();
    for v in 0..payloads.len()
        invariant
            copy@.len() == v,
            forall|u: int| 0 <= u < v ==> fields_of(#[trigger] copy@[u]) == fields_of(payloads@[u]),
    {
        let payload: Option<Payload> = match &payloads[v] {
            Some(p) => Some(p.clone()),
            None => None,
        };
        copy.push(payload);
    }
    assert(payload_views(copy@) =~= payload_views(payloads@));
    copy
}

impl<F, L> Clone for HnswIndex<F, L> where
    F: Fn(Op, Single, Single) -> Single + Copy,
    L: Fn(Double, usize) -> Double + Copy,
 {
    fn clone(&self) -> (copy: HnswIndex<F, L>)
        ensures
            copy@ == self@,
            copy.valid() == self.valid(),
            copy.capacity() == self.capacity(),
            copy.dimension() == self.dimension(),
            copy.stored_ids() == self.stored_ids(),
            copy.stored_vectors() == self.stored_vectors(),
            copy.distance_fn() == self.distance_fn(),
    {
        let copy = HnswIndex {
            dim: self.dim,
            metric: self.metric,
            config: self.config,
            ids: self.ids.clone(),
            data: self.data.clone(),
            payloads: copy_payloads(&self.payloads),
            links: copy_links(&self.links),
            entry: self.entry,
            max_layer: self.max_layer,
            rng: self.rng.clone(),
            arithmetic: self.arithmetic,
            level: self.level,
        };
        assert(copy.ids@ =~= self.ids@);
        assert(copy.data@ =~= self.data@);
        copy
    }
}

impl<F, L> HnswIndex<F, L> where
    F: Fn(Op, Single, Single) -> Single,
    L: Fn(Double, usize) -> Double,
 {
    /// The vectors and the graph can be read.
    spec fn readable(&self) -> bool {
        &&& self.data@.len() == self.ids@.len() * self.dim
        &&& self.links@.len() == self.ids@.len()
        &&& is_arithmetic(self.arithmetic)
    }

    /// Create an empty index with explicit parameters.
    pub fn with_config(
        dim: usize,
        metric: Metric,
        config: HnswConfig,
        arithmetic: F,
        level: L,
    ) -> (index: HnswIndex<F, L>)
        requires
            dim > 0,
            config.m >= 2,
            is_arithmetic(arithmetic),
            is_level(level),
        ensures
            index.valid(),
            index.dimension() == index@.dim,
            index.capacity() == index@.capacity(),
            index.stored_ids() == index@.ids,
            index.stored_vectors() == index@.vectors,
            index.distance_fn() == index@.distance,
            index@ == HnswView::empty(
                dim as nat,
                metric,
                config,
                distance_under(arithmetic, metric),
                level_under(level),
            ),
    {
        let index = HnswIndex {
            dim,
            metric,
            config,
            ids: Vec::new(),
            data: Vec::new(),
            payloads: Vec::new(),
            links: Vec::new(),
            entry: None,
            max_layer: 0,
            rng: SplitMix64::new(config.seed),
            arithmetic,
            level,
        };
        assert(index@.vectors =~= Seq::<Seq<Single>>::empty());
        assert(index@.payloads =~= Seq::<Option<Fields>>::empty());
        assert(index@.links =~= Seq::<Seq<Seq<u32>>>::empty());
        index
    }

    /// Create an empty index over `dim`-dimensional vectors with default
    /// [`HnswConfig`].
    pub fn new(dim: usize, metric: Metric, arithmetic: F, level: L) -> (index: HnswIndex<F, L>)
        requires
            dim > 0,
            is_arithmetic(arithmetic),
            is_level(level),
        ensures
            index.valid(),
            index.dimension() == index@.dim,
            index.capacity() == index@.capacity(),
            index.stored_ids() == index@.ids,
            index.stored_vectors() == index@.vectors,
            index.distance_fn() == index@.distance,
            index@ == HnswView::empty(
                dim as nat,
                metric,
                HnswConfig::standard(),
                distance_under(arithmetic, metric),
                level_under(level),
            ),
    {
        HnswIndex::with_config(dim, metric, HnswConfig::default(), arithmetic, level)
    }

    /// Override the search-time candidate-list size and return `self`, for
    /// fluent construction.
    pub fn with_ef_search(self, ef_search: usize) -> (index: HnswIndex<F, L>)
        requires
            self.valid(),
        ensures
            index.valid(),
            index.dimension() == index@.dim,
            index.capacity() == index@.capacity(),
            index.stored_ids() == index@.ids,
            index.stored_vectors() == index@.vectors,
            index.distance_fn() == index@.distance,
            index@ == self@.tuned(ef_search),
    {
        let mut index = self;
        index.set_ef_search(ef_search);
        index
    }

    /// Set the search-time candidate-list size in place.
    ///
    /// Only affects queries, not the stored graph, so it can be swept freely to
    /// trade recall against latency on an already-built index.
    pub fn set_ef_search(&mut self, ef_search: usize)
        requires
            old(self).valid(),
        ensures
            final(self).valid(),
            final(self).dimension() == final(self)@.dim,
            final(self).capacity() == final(self)@.capacity(),
            final(self).stored_ids() == final(self)@.ids,
            final(self).stored_vectors() == final(self)@.vectors,
            final(self).distance_fn() == final(self)@.distance,
            final(self)@ == old(self)@.tuned(ef_search),
    {
        self.config.ef_search = ef_search;
    }

    /// The dimensionality this index expects.
    pub fn dim(&self) -> (dim: usize)
        ensures
            dim == self@.dim,
    {
        self.dim
    }

    /// The metric this index searches with.
    pub fn metric(&self) -> (metric: Metric)
        ensures
            metric == self@.metric,
    {
        self.metric
    }

    /// The active configuration.
    pub fn config(&self) -> (config: HnswConfig)
        ensures
            config == self@.config,
    {
        self.config
    }

    fn vector(&self, i: usize) -> (r: &[Single])
        requires
            self.readable(),
            i < self.ids@.len(),
        ensures
            r@ == self@.vectors[i as int],
            r@.len() == self.dim,
    {
        proof {
            crate::rows::lemma_row_bounds(self.ids@.len(), self.dim as nat, i as int);
        }
        row_of(&self.data, self.dim, i)
    }

    /// How many neighbours a node may have on a layer.
    fn max_conn(&self, layer: usize) -> (limit: usize)
        requires
            2 * self.config.m <= usize::MAX,
        ensures
            limit == cap(self.config.m as nat, layer as nat),
    {
        if layer == 0 {
            self.config.m * 2
        } else {
            self.config.m
        }
    }

    /// Greedy/beam search within a single `layer`.
    ///
    /// Explores outward from `entry_points`, keeping the `ef` closest vectors to
    /// `query` seen so far, and returns them sorted nearest-first. This is the
    /// primitive both insertion and querying are built from.
    fn search_layer(
        &self,
        query: &[Single],
        entry_points: &Vec<usize>,
        ef: usize,
        layer: usize,
    ) -> (found: Vec<Scored>)
        requires
            self.readable(),
            query@.len() == self.dim,
            well_linked(self@.links),
            forall|j: int|
                0 <= j < entry_points@.len() ==> on_layer(
                    self@.links,
                    #[trigger] entry_points@[j] as int,
                    layer as int,
                ),
        ensures
            found@ == self@.space().search_layer(
                self@.links,
                query@,
                entry_points@,
                ef as nat,
                layer as nat,
            ),
    {
        let ghost links = self@.links;
        let ghost n = links.len();
        let ghost t = self@.space().terrain(links, query@, layer as nat);
        let ghost allowed = |v: usize| on_layer(links, v as int, layer as int);
        let mut beam = Beam::new();
        proof {
            crate::graph::lemma_terrain_closed(self@.space(), links, query@, layer as nat, None);
            assert(t.closed_under(n, allowed));
            assert(entry_points@.take(0) =~= Seq::<usize>::empty());
            crate::beam::lemma_seed_all_consistent(t, n, allowed, entry_points@.take(0));
        }
        for i in 0..entry_points.len()
            invariant
                self.readable(),
                query@.len() == self.dim,
                n == self.ids@.len(),
                t == self@.space().terrain(links, query@, layer as nat),
                allowed == (|v: usize| on_layer(links, v as int, layer as int)),
                links.len() == n,
                forall|j: int|
                    0 <= j < entry_points@.len() ==> on_layer(
                        links,
                        #[trigger] entry_points@[j] as int,
                        layer as int,
                    ),
                beam@ == t.seed_all(entry_points@.take(i as int)),
                t.consistent(beam@, n, allowed),
        {
            let ep: usize = entry_points[i];
            assert(on_layer(links, entry_points@[i as int] as int, layer as int));
            let dist = self.metric.distance(query, self.vector(ep), &self.arithmetic);
            let s = Scored { dist, node: ep };
            proof {
                let longer = entry_points@.take(i + 1);
                assert(longer.drop_last() =~= entry_points@.take(i as int));
                assert(longer.last() == ep);
                assert(s == t.score(ep));
                assert forall|j: int| 0 <= j < longer.len() implies (#[trigger] longer[j]) < n
                    && allowed(longer[j]) by {
                    assert(longer[j] == entry_points@[j]);
                }
                crate::beam::lemma_seed_all_consistent(t, n, allowed, longer);
            }
            beam.seed(s);
        }
        proof {
            assert(entry_points@.take(entry_points@.len() as int) =~= entry_points@);
        }
        let ghost seeded = beam@;
        beam.trim(ef);
        let ghost start = beam@;
        let ghost total: nat = n + entry_points@.len();
        let ghost mut steps: nat = total;
        proof {
            crate::beam::lemma_seed_all_consistent(t, n, allowed, entry_points@);
            assert(t.consistent(start, n, allowed));
        }
        while !beam.is_settled(ef)
            invariant
                self.readable(),
                query@.len() == self.dim,
                links == self@.links,
                n == self.ids@.len(),
                links.len() == n,
                t == self@.space().terrain(links, query@, layer as nat),
                allowed == (|v: usize| on_layer(links, v as int, layer as int)),
                t.closed_under(n, allowed),
                t.consistent(beam@, n, allowed),
                t.explored(start, ef as nat, total) == t.explored(beam@, ef as nat, steps),
                crate::beam::steps_left(beam@, n) <= steps,
            decreases steps,
        {
            let ghost before = beam@;
            proof {
                crate::beam::lemma_steps_left(t, before, n, allowed);
                crate::beam::lemma_expanded_consistent(t, before, n, allowed, ef as nat);
            }
            let c = beam.advance();
            let ghost rest = beam@;
            assert(before.visited.contains(before.frontier[0].node));
            let list: &Vec<u32> = &self.links[c.node][layer];
            assert(list@ == (t.neighbours)(c.node));
            proof {
                assert(list@.take(0) =~= Seq::<u32>::empty());
                assert(t.consistent(rest, n, allowed)) by {
                    assert forall|i: int| 0 <= i < rest.frontier.len() implies (
                    #[trigger] rest.frontier[i]) == t.score(rest.frontier[i].node)
                        && rest.visited.contains(rest.frontier[i].node) by {
                        assert(rest.frontier[i] == before.frontier[i + 1]);
                    }
                    assert forall|i: int, j: int| 0 <= i < j < rest.frontier.len() implies (
                    #[trigger] rest.frontier[i]).up_to(#[trigger] rest.frontier[j]) by {
                        assert(before.frontier[i + 1].up_to(before.frontier[j + 1]));
                    }
                }
            }
            for j in 0..list.len()
                invariant
                    self.readable(),
                    query@.len() == self.dim,
                    links == self@.links,
                    n == self.ids@.len(),
                    links.len() == n,
                    t == self@.space().terrain(links, query@, layer as nat),
                    allowed == (|v: usize| on_layer(links, v as int, layer as int)),
                    t.consistent(rest, n, allowed),
                    t.consistent(beam@, n, allowed),
                    forall|j: int|
                        0 <= j < list@.len() ==> (#[trigger] list@[j]) < n && allowed(
                            list@[j] as usize,
                        ),
                    beam@ == t.offer_all(rest, ef as nat, list@.take(j as int)),
            {
                let e: usize = list[j] as usize;
                let ghost now = beam@;
                assert(list@[j as int] < n);
                proof {
                    let longer = list@.take(j + 1);
                    assert(longer.drop_last() =~= list@.take(j as int));
                    assert(longer.last() == list@[j as int]);
                    crate::beam::lemma_offered_consistent(t, now, n, allowed, ef as nat, e);
                }
                if beam.mark(e) {
                    let dist = self.metric.distance(query, self.vector(e), &self.arithmetic);
                    let s = Scored { dist, node: e };
                    assert(s == t.score(e));
                    beam.offer(ef, s);
                    assert(now.visited.insert(e).insert(e) =~= now.visited.insert(e));
                } else {
                    assert(now.visited.insert(e) =~= now.visited);
                }
                assert(beam@ =~= now.offered(ef as nat, t.score(e)));
            }
            proof {
                assert(list@.take(list@.len() as int) =~= list@);
                assert(beam@ == t.expanded(before, ef as nat));
                steps = (steps - 1) as nat;
            }
        }
        beam.into_nearest()
    }

    /// The HNSW neighbour-selection heuristic (Malkov & Yashunin, Alg. 4).
    ///
    /// Given `candidates` sorted nearest-first relative to the point being
    /// linked (their distance to it lives in `Scored::dist`), keep up to `m` of
    /// them, skipping any candidate that sits closer to an already-selected
    /// neighbour than to that point. This favours a spread of directions over a
    /// tight cluster, which is what keeps the graph navigable.
    fn select_neighbors(&self, candidates: &Vec<Scored>, m: usize) -> (result: Vec<u32>)
        requires
            self.readable(),
            self.ids@.len() <= u32::MAX + 1,
            forall|i: int|
                0 <= i < candidates@.len() ==> (#[trigger] candidates@[i]).node < self.ids@.len(),
        ensures
            result@ == self@.space().choose_neighbours(candidates@, m as nat),
    {
        let ghost space = self@.space();
        let mut result: Vec<u32> = Vec::new();
        let mut i: usize = 0;
        while i < candidates.len() && result.len() < m
            invariant
                self.readable(),
                self.ids@.len() <= u32::MAX + 1,
                forall|i: int|
                    0 <= i < candidates@.len() ==> (#[trigger] candidates@[i]).node
                        < self.ids@.len(),
                space == self@.space(),
                i <= candidates@.len(),
                result@ == space.chosen_among(candidates@, m as nat, i as nat),
                forall|j: int| 0 <= j < result@.len() ==> (#[trigger] result@[j]) < self.ids@.len(),
            decreases candidates@.len() - i,
        {
            let cand: Scored = candidates[i];
            let mut keep = true;
            let mut j: usize = 0;
            while keep && j < result.len()
                invariant
                    self.readable(),
                    space == self@.space(),
                    cand.node < self.ids@.len(),
                    j <= result@.len(),
                    forall|j: int|
                        0 <= j < result@.len() ==> (#[trigger] result@[j]) < self.ids@.len(),
                    !keep ==> space.crowded(cand, result@),
                    keep ==> forall|k: int|
                        0 <= k < j ==> !space.between(
                            cand.node,
                            #[trigger] result@[k] as usize,
                        ).less(cand.dist),
                decreases result@.len() - j,
            {
                let r: usize = result[j] as usize;
                assert(result@[j as int] < self.ids@.len());
                let d = self.metric.distance(
                    self.vector(cand.node),
                    self.vector(r),
                    &self.arithmetic,
                );
                if d.lt(cand.dist) {
                    assert(space.between(cand.node, result@[j as int] as usize).less(cand.dist));
                    keep = false;
                }
                j += 1;
            }
            if keep {
                result.push(cand.node as u32);
            }
            i += 1;
        }
        proof {
            lemma_chosen_enough(space, candidates@, m as nat, i as nat, candidates@.len());
        }
        result
    }

    /// Re-run neighbour selection on `node`'s layer-`layer` connections after an
    /// insert pushed it over the connection cap.
    fn prune(&mut self, node: u32, layer: usize, m_max: usize)
        requires
            old(self).readable(),
            old(self).ids@.len() <= u32::MAX + 1,
            on_layer(old(self)@.links, node as int, layer as int),
            forall|j: int|
                0 <= j < old(self)@.links[node as int][layer as int].len() ==> (
                #[trigger] old(self)@.links[node as int][layer as int][j]) < old(self).ids@.len(),
        ensures
            *final(self) == (HnswIndex { links: final(self).links, ..*old(self) }),
            final(self).readable(),
            final(self)@.links == old(self)@.links.update(
                node as int,
                old(self)@.links[node as int].update(
                    layer as int,
                    old(self)@.space().pruned(
                        node as usize,
                        old(self)@.links[node as int][layer as int],
                        m_max as nat,
                    ),
                ),
            ),
    {
        let ghost space = self@.space();
        let list: &Vec<u32> = &self.links[node as usize][layer];
        assert(list@ == self@.links[node as int][layer as int]);
        let mut cands: Vec<Scored> = Vec::new();
        for i in 0..list.len()
            invariant
                self.readable(),
                space == self@.space(),
                node < self.ids@.len(),
                forall|j: int| 0 <= j < list@.len() ==> (#[trigger] list@[j]) < self.ids@.len(),
                cands@ == space.scored_from(node as usize, list@).take(i as int),
        {
            let x: usize = list[i] as usize;
            let dist = self.metric.distance(
                self.vector(node as usize),
                self.vector(x),
                &self.arithmetic,
            );
            cands.push(Scored { dist, node: x });
            assert(cands@ =~= space.scored_from(node as usize, list@).take(i + 1));
        }
        let ghost scored = space.scored_from(node as usize, list@);
        assert(cands@ =~= scored);
        let sorted_cands = sort_scored(cands);
        proof {
            crate::order::lemma_sort_nodes(scored);
            assert forall|i: int| 0 <= i < sorted_cands@.len() implies (
            #[trigger] sorted_cands@[i]).node < self.ids@.len() by {
                let j = choose|j: int| 0 <= j < scored.len() && scored[j] == sorted_cands@[i];
                assert(list@[j] < self.ids@.len());
            }
        }
        let kept = self.select_neighbors(&sorted_cands, m_max);
        set_list(&mut self.links, node as usize, layer, kept);
    }

    /// Draw a random top layer for a new node from the exponential
    /// distribution.
    fn random_level(&mut self) -> (level: usize)
        requires
            is_level(old(self).level),
            old(self).config.m >= 2,
        ensures
            *final(self) == (HnswIndex { rng: final(self).rng, ..*old(self) }),
            final(self).rng@ == next_state(old(self).rng@),
            level == old(self)@.next_level(),
    {
        let u = self.rng.next_f64_open();
        assert(call_requires(self.level, (u, self.config.m)));
        let height: Double = (self.level)(u, self.config.m);
        assert(call_ensures(self.level, (u, self.config.m), height));
        assert(height == level_under(self.level)(u, self.config.m));
        height.floor_up_to(MAX_LEVEL as u64) as usize
    }

    /// The closest node to `query` that a greedy walk from `ep` over one layer
    /// reaches.
    fn nearest_on(&self, query: &[Single], ep: usize, layer: usize) -> (nearest: usize)
        requires
            self.readable(),
            query@.len() == self.dim,
            well_linked(self@.links),
            on_layer(self@.links, ep as int, layer as int),
        ensures
            nearest == self@.space().nearest_on(self@.links, query@, ep, layer as nat),
            on_layer(self@.links, nearest as int, layer as int),
    {
        let entry_points: Vec<usize> = vec![ep];
        assert(entry_points@ =~= seq![ep]);
        let found = self.search_layer(query, &entry_points, 1, layer);
        proof {
            crate::graph::lemma_nearest_on(
                self@.space(),
                self@.links,
                query@,
                ep,
                layer as nat,
                None,
            );
        }
        if found.len() > 0 {
            found[0].node
        } else {
            ep
        }
    }

    /// Greedily descend the layers `top` down to `bottom`, narrowing to the
    /// closest single entry point.
    fn descend(&self, query: &[Single], ep: usize, top: usize, bottom: usize) -> (end: usize)
        requires
            self.readable(),
            query@.len() == self.dim,
            well_linked(self@.links),
            top < usize::MAX,
            on_layer(self@.links, ep as int, top as int),
        ensures
            end == self@.space().descend(
                self@.links,
                query@,
                ep,
                top as int,
                bottom as int,
            ),
    {
        let ghost space = self@.space();
        let mut end: usize = ep;
        let mut layer: usize = top + 1;
        while layer > bottom
            invariant
                self.readable(),
                query@.len() == self.dim,
                well_linked(self@.links),
                space == self@.space(),
                on_layer(self@.links, end as int, layer - 1),
                space.descend(self@.links, query@, ep, top as int, bottom as int)
                    == space.descend(self@.links, query@, end, layer - 1, bottom as int),
            decreases layer,
        {
            layer -= 1;
            end = self.nearest_on(query, end, layer);
        }
        end
    }

    /// Find neighbours for `node` on one layer with a full-width beam, wire them
    /// bidirectionally, and prune as needed. Returns what the beam found.
    fn connect_on(
        &mut self,
        node: u32,
        vector: &[Single],
        entry_points: &Vec<usize>,
        layer: usize,
    ) -> (found: Vec<Scored>)
        requires
            old(self).readable(),
            vector@.len() == old(self).dim,
            2 * old(self).config.m <= usize::MAX,
            exists|fallback: usize| #[trigger]
                ready_to_connect(
                    old(self)@.links,
                    node,
                    entry_points@,
                    fallback,
                    layer as int,
                ),
        ensures
            *final(self) == (HnswIndex { links: final(self).links, ..*old(self) }),
            final(self).readable(),
            found@ == old(self)@.space().search_layer(
                old(self)@.links,
                vector@,
                entry_points@,
                old(self).config.ef_construction as nat,
                layer as nat,
            ),
            ({
                let limit = cap(old(self).config.m as nat, layer as nat);
                final(self)@.links == old(self)@.space().wired(
                    old(self)@.links,
                    node,
                    layer as int,
                    old(self)@.space().choose_neighbours(found@, limit),
                    limit,
                )
            }),
    {
        let ghost space = self@.space();
        let ghost links = self@.links;
        let ghost l = layer as int;
        let ghost m = self.config.m as nat;
        let found = self.search_layer(vector, entry_points, self.config.ef_construction, layer);
        let limit: usize = self.max_conn(layer);
        proof {
            assert(unlinked_on(links, node, l));
            crate::graph::lemma_found_is_fit(
                space,
                links,
                vector@,
                node,
                entry_points@,
                l,
                m,
                self.config.ef_construction as nat,
            );
            assert forall|i: int| 0 <= i < found@.len() implies (#[trigger] found@[i]).node
                < self.ids@.len() by {
                assert(on_layer(links, found@[i].node as int, l));
            }
        }
        let selected = self.select_neighbors(&found, limit);
        let ghost chosen = selected@;
        assert(fit_to_wire(links, node, l, chosen, limit as nat));
        set_list(&mut self.links, node as usize, layer, selected.clone());
        proof {
            assert(chosen.take(0) =~= Seq::<u32>::empty());
            assert(self@.links =~= space.partly_wired(
                links,
                node,
                l,
                chosen,
                chosen.take(0),
                limit as nat,
            ));
        }
        for i in 0..selected.len()
            invariant
                *self == (HnswIndex { links: self.links, ..*old(self) }),
                self.readable(),
                space == old(self)@.space(),
                links == old(self)@.links,
                links.len() == self.ids@.len(),
                links.len() <= u32::MAX + 1,
                l == layer,
                chosen == selected@,
                limit == cap(self.config.m as nat, layer as nat),
                2 * self.config.m <= usize::MAX,
                well_linked(links),
                fit_to_wire(links, node, l, chosen, limit as nat),
                self@.links == space.partly_wired(
                    links,
                    node,
                    l,
                    chosen,
                    chosen.take(i as int),
                    limit as nat,
                ),
        {
            let nb: u32 = selected[i];
            proof {
                crate::graph::lemma_wire_one_neighbour(
                    space,
                    links,
                    node,
                    l,
                    chosen,
                    i as int,
                    limit as nat,
                );
            }
            let ghost before = self@.links;
            let ghost longer = links[nb as int][l].push(node);
            push_link(&mut self.links, nb as usize, layer, node);
            assert(self@.links[nb as int][l] == longer);
            assert(self.links@[nb as int]@.len() == self@.links[nb as int].len());
            if self.links[nb as usize][layer].len() > limit {
                proof {
                    assert(crate::graph::list_ok(links, nb as int, l));
                    assert forall|j: int| 0 <= j < longer.len() implies (#[trigger] longer[j])
                        < self.ids@.len() by {
                        if j < links[nb as int][l].len() {
                            assert(on_layer(links, links[nb as int][l][j] as int, l));
                        }
                    }
                    assert(self@.space() == space);
                }
                self.prune(nb, layer, limit);
            }
            proof {
                assert(self@.links =~= before.update(
                    nb as int,
                    before[nb as int].update(
                        l,
                        space.attached(nb as usize, links[nb as int][l], node, limit as nat),
                    ),
                )) by {
                    assert(self@.links[nb as int] =~= before[nb as int].update(
                        l,
                        space.attached(nb as usize, links[nb as int][l], node, limit as nat),
                    ));
                }
            }
        }
        assert(chosen.take(chosen.len() as int) =~= chosen);
        found
    }

    /// Wire `node` in on layer `start` and every layer below, starting from
    /// `ep`.
    fn connect(&mut self, node: u32, vector: &[Single], ep: usize, start: usize)
        requires
            old(self).readable(),
            vector@.len() == old(self).dim,
            2 * old(self).config.m <= usize::MAX,
            start < usize::MAX,
            capped(old(self)@.links, old(self).config.m as nat),
            ready_to_connect(old(self)@.links, node, seq![ep], ep, start as int),
        ensures
            *final(self) == (HnswIndex { links: final(self).links, ..*old(self) }),
            final(self).readable(),
            final(self)@.links == old(self)@.space().connected(
                old(self)@.links,
                vector@,
                node,
                seq![ep],
                ep,
                start as int,
                old(self).config.m as nat,
                old(self).config.ef_construction as nat,
            ),
    {
        let ghost space = self@.space();
        let ghost m = self.config.m as nat;
        let ghost ef = self.config.ef_construction as nat;
        let ghost goal = space.connected(
            self@.links,
            vector@,
            node,
            seq![ep],
            ep,
            start as int,
            m,
            ef,
        );
        let mut entry_points: Vec<usize> = vec![ep];
        assert(entry_points@ =~= seq![ep]);
        let mut layer: usize = start + 1;
        while layer > 0
            invariant
                *self == (HnswIndex { links: self.links, ..*old(self) }),
                self.readable(),
                vector@.len() == self.dim,
                2 * self.config.m <= usize::MAX,
                m == self.config.m,
                ef == self.config.ef_construction,
                space == self@.space(),
                capped(self@.links, m),
                ready_to_connect(self@.links, node, entry_points@, ep, layer - 1),
                goal == space.connected(
                    self@.links,
                    vector@,
                    node,
                    entry_points@,
                    ep,
                    layer - 1,
                    m,
                    ef,
                ),
            decreases layer,
        {
            layer -= 1;
            proof {
                crate::graph::lemma_wire_one_layer(
                    space,
                    self@.links,
                    vector@,
                    node,
                    entry_points@,
                    ep,
                    layer as int,
                    m,
                    ef,
                );
            }
            let found = self.connect_on(node, vector, &entry_points, layer);
            entry_points = nodes_of(&found);
            if entry_points.len() == 0 {
                entry_points = vec![ep];
            }
            assert(entry_points@ =~= next_entry_points(found@, ep));
        }
    }

    /// The nodes that a search for the `k` nearest looks at last, nearest first.
    fn candidates(&self, query: &[Single], k: usize) -> (found: Vec<Scored>)
        requires
            self.valid(),
            query@.len() == self.dim,
        ensures
            found@ == self@.candidates(query@, k as nat),
            forall|j: int| 0 <= j < found@.len() ==> (#[trigger] found@[j]).node < self.ids@.len(),
    {
        proof {
            lemma_candidates(self@, query@, k as nat);
        }
        match self.entry {
            None => Vec::new(),
            Some(entry) => {
                let ep: usize = self.descend(query, entry, self.max_layer, 1);
                let ef: usize = if self.config.ef_search < k {
                    k
                } else {
                    self.config.ef_search
                };
                let entry_points: Vec<usize> = vec![ep];
                assert(entry_points@ =~= seq![ep]);
                self.search_layer(query, &entry_points, ef, 0)
            },
        }
    }

    /// Insert `vector` under `id`, with its payload.
    fn insert(&mut self, id: u64, vector: &[Single], payload: Option<Payload>)
        requires
            old(self).valid(),
            old(self)@.ids.len() < old(self)@.capacity(),
            vector@.len() == old(self)@.dim,
        ensures
            final(self).valid(),
            final(self)@ == old(self)@.inserted(id, vector@, fields_of(payload)),
    {
        let ghost before = self@;
        let ghost data = self.data@;
        let node: usize = self.ids.len();
        self.ids.push(id);
        self.data.extend_from_slice(vector);
        let ghost fields = fields_of(payload);
        self.payloads.push(payload);
        let level: usize = self.random_level();
        self.links.push(empty_layers(level + 1));
        let ghost fresh = before.appended(id, vector@, fields, level as nat);
        proof {
            assert(self.data@ =~= data + vector@);
            crate::rows::lemma_push_row(data, self.dim as nat, before.ids.len(), vector@);
            assert(self@.payloads =~= fresh.payloads);
            assert(self@.links =~= fresh.links);
            assert(self@ == fresh);
            lemma_appended(before, id, vector@, fields, level as nat);
            law_insert_keeps_the_index_well_formed(before, id, vector@, fields);
        }
        let max_layer: usize = self.max_layer;
        match self.entry {
            // The first vector becomes the entry point and we are done.
            None => {
                self.entry = Some(node);
                self.max_layer = level;
            },
            Some(entry) => {
                // Greedily descend the layers above the insertion level.
                let ep: usize = self.descend(vector, entry, max_layer, level + 1);
                // From the insertion level down, find neighbours and wire them.
                let start: usize = if level < max_layer {
                    level
                } else {
                    max_layer
                };
                proof {
                    lemma_ready(before, id, vector@, fields);
                }
                self.connect(node as u32, vector, ep, start);
                // A taller node than any seen so far becomes the new entry point.
                if level > max_layer {
                    self.entry = Some(node);
                    self.max_layer = level;
                }
            },
        }
    }

    /// Insert `vector` under `id` with metadata that searches can filter on.
    pub fn add_with_payload(&mut self, id: u64, vector: &[Single], payload: Payload)
        requires
            old(self).valid(),
            old(self)@.ids.len() < old(self)@.capacity(),
            vector@.len() == old(self)@.dim,
        ensures
            final(self).valid(),
            final(self).dimension() == final(self)@.dim,
            final(self).capacity() == final(self)@.capacity(),
            final(self).stored_ids() == final(self)@.ids,
            final(self).stored_vectors() == final(self)@.vectors,
            final(self).distance_fn() == final(self)@.distance,
            final(self)@ == old(self)@.inserted(id, vector@, Some(payload@)),
    {
        self.insert(id, vector, Some(payload));
    }

    /// Return the nearest stored vectors to `query` whose payload matches
    /// `filter`, closest first, at most `k` of them.
    ///
    /// The filter is evaluated on each candidate that the search ends with; a
    /// vector without a payload is a candidate like any other.
    pub fn search_filtered(&self, query: &[Single], k: usize, filter: &Filter) -> (hits: Vec<
        SearchResult,
    >)
        requires
            self.valid(),
            query@.len() == self@.dim,
        ensures
            hits@ == self@.filtered_hits(query@, k as nat, *filter),
    {
        let mut hits: Vec<SearchResult> = Vec::new();
        assert(self@.as_hits(Seq::empty()) =~= Seq::empty());
        if k == 0 {
            return hits;
        }
        let found = self.candidates(query, k);
        let ghost matching = self@.matching(found@, *filter);
        let ghost mut kept: Seq<Scored> = Seq::empty();
        assert(found@.take(0) =~= Seq::<Scored>::empty());
        proof {
            lemma_matching_prefix(self@, found@, *filter, 0);
        }
        let mut i: usize = 0;
        while i < found.len() && hits.len() < k
            invariant
                i <= found@.len(),
                hits@.len() <= k,
                self@.payloads == payload_views(self.payloads@),
                self.payloads@.len() == self.ids@.len(),
                forall|j: int|
                    0 <= j < found@.len() ==> (#[trigger] found@[j]).node < self.ids@.len(),
                kept == self@.matching(found@.take(i as int), *filter),
                hits@ == self@.as_hits(kept),
            decreases found@.len() - i,
        {
            let s: Scored = found[i];
            assert(found@[i as int].node < self.ids@.len());
            proof {
                lemma_matching_step(self@, found@, *filter, i as int);
            }
            if filter.matches(self.payloads[s.node].as_ref()) {
                hits.push(SearchResult { id: self.ids[s.node], distance: s.dist });
                proof {
                    kept = kept.push(s);
                }
                assert(hits@ =~= self@.as_hits(kept));
            }
            i += 1;
        }
        proof {
            lemma_matching_prefix(self@, found@, *filter, i as int);
            assert(hits@ =~= self@.filtered_hits(query@, k as nat, *filter)) by {
                if i == found@.len() {
                    assert(found@.take(i as int) =~= found@);
                    assert(matching.take(matching.len() as int) =~= matching);
                }
                assert(kept =~= self@.nearest_matching(query@, k as nat, *filter));
            }
        }
        hits
    }
}

impl<F, L> VectorIndex for HnswIndex<F, L> where
    F: Fn(Op, Single, Single) -> Single,
    L: Fn(Double, usize) -> Double,
 {
    closed spec fn valid(&self) -> bool {
        &&& self.readable()
        &&& is_level(self.level)
        &&& self@.well_formed()
    }

    open spec fn capacity(&self) -> nat {
        self@.capacity()
    }

    open spec fn dimension(&self) -> nat {
        self@.dim
    }

    open spec fn stored_ids(&self) -> Seq<u64> {
        self@.ids
    }

    open spec fn stored_vectors(&self) -> Seq<Seq<Single>> {
        self@.vectors
    }

    open spec fn distance_fn(&self) -> spec_fn(Seq<Single>, Seq<Single>) -> Single {
        self@.distance
    }

    fn add(&mut self, id: u64, vector: &[Single])
        ensures
            final(self)@ == old(self)@.inserted(id, vector@, None),
    {
        self.insert(id, vector, None);
    }

    fn search(&self, query: &[Single], k: usize) -> (hits: Vec<SearchResult>)
        ensures
            hits@ == self@.hits(query@, k as nat),
    {
        let mut hits: Vec<SearchResult> = Vec::new();
        proof {
            law_hits_are_stored_vectors(self@, query@, k as nat);
            assert(self@.as_hits(Seq::empty()) =~= Seq::empty());
        }
        let ghost at = self@.positions(self@.nearest(query@, k as nat));
        if k == 0 {
            assert(hits_are_at(
                hits@,
                at,
                self.stored_ids(),
                self.stored_vectors(),
                query@,
                self.distance_fn(),
            ));
            return hits;
        }
        let found = self.candidates(query, k);
        assert(found@.take(0) =~= Seq::<Scored>::empty());
        let mut i: usize = 0;
        while i < k && i < found.len()
            invariant
                i <= k,
                i <= found@.len(),
                forall|j: int|
                    0 <= j < found@.len() ==> (#[trigger] found@[j]).node < self.ids@.len(),
                hits@ == self@.as_hits(found@.take(i as int)),
            decreases k - i,
        {
            assert(found@[i as int].node < self.ids@.len());
            hits.push(SearchResult { id: self.ids[found[i].node], distance: found[i].dist });
            i += 1;
            assert(hits@ =~= self@.as_hits(found@.take(i as int)));
        }
        assert(hits_are_at(
            hits@,
            at,
            self.stored_ids(),
            self.stored_vectors(),
            query@,
            self.distance_fn(),
        ));
        hits
    }

    fn len(&self) -> (n: usize) {
        self.ids.len()
    }
}

/// Every valid index is well formed, and its dimension can be held on this
/// machine.
pub proof fn law_valid_index_is_well_formed<F, L>(index: &HnswIndex<F, L>) where
    F: Fn(Op, Single, Single) -> Single,
    L: Fn(Double, usize) -> Double,

    requires
        index.valid(),
    ensures
        index@.well_formed(),
        index@.dim <= usize::MAX,
{
}

/// The nodes of a list.
fn nodes_of(list: &Vec<Scored>) -> (nodes: Vec<usize>)
    ensures
        nodes@ == list@.map_values(|s: Scored| s.node),
{
    let mut nodes: Vec<usize> = Vec::new();
    for i in 0..list.len()
        invariant
            nodes@ == list@.take(i as int).map_values(|s: Scored| s.node),
    {
        nodes.push(list[i].node);
        assert(nodes@ =~= list@.take(i + 1).map_values(|s: Scored| s.node));
    }
    assert(list@.take(list@.len() as int) =~= list@);
    nodes
}

/// A new node, which nothing is linked to, leaves the graph in order.
proof fn lemma_appended(
    view: HnswView,
    id: u64,
    vector: Seq<Single>,
    payload: Option<Fields>,
    level: nat,
)
    requires
        view.well_formed(),
        view.ids.len() <= u32::MAX,
        vector.len() == view.dim,
    ensures
        ({
            let fresh = view.appended(id, vector, payload, level);
            let node = view.ids.len() as u32;
            &&& well_linked(fresh.links)
            &&& capped(fresh.links, view.config.m as nat)
            &&& on_layer(fresh.links, node as int, level as int)
            &&& forall|l: int| 0 <= l ==> #[trigger] unlinked_on(fresh.links, node, l)
            &&& view.entry matches Some(e) ==> on_layer(
                fresh.links,
                e as int,
                view.max_layer as int,
            )
            &&& forall|v: int|
                0 <= v < fresh.vectors.len() ==> (#[trigger] fresh.vectors[v]).len() == view.dim
        }),
{
    let fresh = view.appended(id, vector, payload, level);
    let node = view.ids.len() as u32;
    let links = fresh.links;
    assert forall|v: int, l: int| 0 <= v < links.len() && 0 <= l < links[v].len() implies
        #[trigger] crate::graph::list_ok(links, v, l) by {
        if v < view.links.len() {
            assert(links[v] == view.links[v]);
            assert(crate::graph::list_ok(view.links, v, l));
            assert forall|j: int| 0 <= j < links[v][l].len() implies on_layer(
                links,
                #[trigger] links[v][l][j] as int,
                l,
            ) && links[v][l][j] != v by {
                assert(on_layer(view.links, view.links[v][l][j] as int, l));
            }
        }
    }
    assert forall|v: int, l: int| 0 <= v < links.len() && 0 <= l < links[v].len() implies (
    #[trigger] links[v][l]).len() <= cap(view.config.m as nat, l as nat) by {
        if v < view.links.len() {
            assert(links[v][l] == view.links[v][l]);
        }
    }
    assert forall|l: int| 0 <= l implies #[trigger] unlinked_on(links, node, l) by {
        assert forall|v: int| 0 <= v < links.len() && l < links[v].len() implies !(
        #[trigger] links[v][l]).contains(node) by {
            if v < view.links.len() && links[v][l].contains(node) {
                assert(crate::graph::list_ok(view.links, v, l));
                let j = choose|j: int| 0 <= j < links[v][l].len() && links[v][l][j] == node;
                assert(on_layer(view.links, view.links[v][l][j] as int, l));
            }
        }
    }
}

/// After the descent from the entry point, a new node is ready to be wired in.
proof fn lemma_ready(view: HnswView, id: u64, vector: Seq<Single>, payload: Option<Fields>)
    requires
        view.well_formed(),
        view.ids.len() <= u32::MAX,
        vector.len() == view.dim,
        view.entry is Some,
    ensures
        ({
            let level = view.next_level();
            let fresh = view.appended(id, vector, payload, level);
            let ep = fresh.space().descend(
                fresh.links,
                vector,
                view.entry->0,
                view.max_layer as int,
                level as int + 1,
            );
            let start = if level < view.max_layer {
                level
            } else {
                view.max_layer
            };
            ready_to_connect(
                fresh.links,
                view.ids.len() as u32,
                seq![ep],
                ep,
                start as int,
            )
        }),
{
    let level = view.next_level();
    let fresh = view.appended(id, vector, payload, level);
    let node = view.ids.len() as u32;
    let entry = view.entry->0;
    lemma_appended(view, id, vector, payload, level);
    assert(entry as u32 != node);
    crate::graph::lemma_descend(
        fresh.space(),
        fresh.links,
        vector,
        entry,
        view.max_layer as int,
        level as int + 1,
        Some(node),
    );
}

/// What a search for the `k` nearest looks at last: distinct nodes with their
/// distances, nearest first.
proof fn lemma_candidates(view: HnswView, query: Seq<Single>, k: nat)
    requires
        view.well_formed(),
    ensures
        ({
            let found = view.candidates(query, k);
            &&& sorted(found)
            &&& distinct_nodes(found)
            &&& k > 0 && view.ids.len() > 0 ==> found.len() > 0
            &&& view.ids.len() == 0 ==> found.len() == 0
            &&& found.len() <= view.config.ef_search || found.len() <= k
            &&& forall|j: int|
                0 <= j < found.len() ==> (#[trigger] found[j]).node < view.ids.len()
                    && found[j].dist == (view.distance)(query, view.vectors[found[j].node as int])
        }),
        view.entry matches Some(entry) ==> on_layer(
            view.links,
            view.space().descend(view.links, query, entry, view.max_layer as int, 1) as int,
            0,
        ),
{
    if view.entry is Some {
        let entry = view.entry->0;
        let ep = view.space().descend(view.links, query, entry, view.max_layer as int, 1);
        let ef = if view.config.ef_search < k {
            k
        } else {
            view.config.ef_search as nat
        };
        crate::graph::lemma_descend(
            view.space(),
            view.links,
            query,
            entry,
            view.max_layer as int,
            1,
            None,
        );
        crate::graph::lemma_search_layer(view.space(), view.links, query, seq![ep], ef, 0, None);
        let found = view.candidates(query, k);
        assert forall|j: int| 0 <= j < found.len() implies (#[trigger] found[j]).node
            < view.ids.len() && found[j].dist == (view.distance)(
            query,
            view.vectors[found[j].node as int],
        ) by {
            assert(on_layer(view.links, found[j].node as int, 0));
        }
    }
}

/// The hits for a query are stored vectors with their distances, none of them
/// twice, nearest first, at most `k` of them, and at least one where one is asked
/// for and the index is not empty.
pub proof fn law_hits_are_stored_vectors(view: HnswView, query: Seq<Single>, k: nat)
    requires
        view.well_formed(),
    ensures
        nearest_first(view.hits(query, k)),
        view.hits(query, k).len() <= k,
        view.hits(query, k).len() <= view.ids.len(),
        view.hits(query, k).len() == 0 <==> k == 0 || view.ids.len() == 0,
        hits_are_at(
            view.hits(query, k),
            view.positions(view.nearest(query, k)),
            view.ids,
            view.vectors,
            query,
            view.distance,
        ),
{
    lemma_candidates(view, query, k);
    let found = view.candidates(query, k);
    let nearest = view.nearest(query, k);
    let hits = view.hits(query, k);
    let at = view.positions(nearest);
    assert(at.no_duplicates()) by {
        assert forall|i: int, j: int|
            0 <= i < at.len() && 0 <= j < at.len() && i != j implies at[i] != at[j] by {
            assert(found[i].node != found[j].node);
        }
    }
    assert forall|i: int| 0 <= i < hits.len() implies 0 <= #[trigger] at[i] < view.ids.len()
        && hits[i].id == view.ids[at[i]] && hits[i].distance == (view.distance)(
        query,
        view.vectors[at[i]],
    ) by {
        assert(found[i].node < view.ids.len());
    }
    at.unique_seq_to_set();
    vstd::set_lib::lemma_int_range(0, view.ids.len() as int);
    assert(at.to_set().subset_of(vstd::set_lib::set_int_range(0, view.ids.len() as int))) by {
        assert forall|v: int| at.to_set().contains(v) implies 0 <= v < view.ids.len() by {
            let i = choose|i: int| 0 <= i < at.len() && at[i] == v;
            assert(0 <= at[i] < view.ids.len());
        }
    }
    vstd::set_lib::lemma_len_subset(
        at.to_set(),
        vstd::set_lib::set_int_range(0, view.ids.len() as int),
    );
    assert forall|i: int, j: int| 0 <= i < j < hits.len() implies (
    #[trigger] hits[i]).distance.rank() <= (#[trigger] hits[j]).distance.rank() by {
        assert(found[i].up_to(found[j]));
    }
}

/// Filtering one more candidate.
proof fn lemma_matching_step(view: HnswView, found: Seq<Scored>, filter: Filter, i: int)
    requires
        0 <= i < found.len(),
    ensures
        view.matching(found.take(i + 1), filter) == if filter.holds(
            view.payloads[found[i].node as int],
        ) {
            view.matching(found.take(i), filter).push(found[i])
        } else {
            view.matching(found.take(i), filter)
        },
{
    let keep = |s: Scored| filter.holds(view.payloads[s.node as int]);
    let longer = found.take(i + 1);
    assert(longer.drop_last() =~= found.take(i));
    assert(longer.last() == found[i]);
    reveal(Seq::filter);
}

/// What the first candidates contribute stands first.
proof fn lemma_matching_prefix(view: HnswView, found: Seq<Scored>, filter: Filter, i: int)
    requires
        0 <= i <= found.len(),
    ensures
        view.matching(found.take(i), filter).len() <= view.matching(found, filter).len(),
        view.matching(found, filter).take(view.matching(found.take(i), filter).len() as int)
            == view.matching(found.take(i), filter),
        i == 0 ==> view.matching(found.take(i), filter).len() == 0,
{
    let keep = |s: Scored| filter.holds(view.payloads[s.node as int]);
    assert(found =~= found.take(i) + found.skip(i));
    Seq::filter_distributes_over_add(found.take(i), found.skip(i), keep);
    let first = view.matching(found.take(i), filter);
    assert(view.matching(found, filter) == first + found.skip(i).filter(keep));
    assert((first + found.skip(i).filter(keep)).take(first.len() as int) =~= first);
    if i == 0 {
        reveal(Seq::filter);
    }
}

/// Adding a vector keeps an index well formed.
pub proof fn law_insert_keeps_the_index_well_formed(
    view: HnswView,
    id: u64,
    vector: Seq<Single>,
    payload: Option<Fields>,
)
    requires
        view.well_formed(),
        view.ids.len() <= u32::MAX,
        vector.len() == view.dim,
    ensures
        view.inserted(id, vector, payload).well_formed(),
{
    let level = view.next_level();
    let fresh = view.appended(id, vector, payload, level);
    lemma_appended(view, id, vector, payload, level);
    if view.entry is Some {
        lemma_ready(view, id, vector, payload);
        let ep = fresh.space().descend(
            fresh.links,
            vector,
            view.entry->0,
            view.max_layer as int,
            level as int + 1,
        );
        let start = if level < view.max_layer {
            level
        } else {
            view.max_layer
        };
        crate::graph::lemma_connected(
            fresh.space(),
            fresh.links,
            vector,
            view.ids.len() as u32,
            seq![ep],
            ep,
            start as int,
            view.config.m as nat,
            view.config.ef_construction as nat,
        );
        let after = view.inserted(id, vector, payload);
        assert forall|v: int| 0 <= v < after.links.len() implies 1 <= (
        #[trigger] after.links[v]).len() <= after.max_layer + 1 by {
            assert(after.links[v].len() == fresh.links[v].len());
            if v < view.links.len() {
                assert(fresh.links[v] == view.links[v]);
            }
        }
    }
}

/// Filtering candidates keeps their order and nothing twice, and what it keeps
/// matches.
proof fn lemma_matching(view: HnswView, found: Seq<Scored>, filter: Filter)
    requires
        sorted(found),
        distinct_nodes(found),
    ensures
        sorted(view.matching(found, filter)),
        distinct_nodes(view.matching(found, filter)),
        forall|i: int|
            0 <= i < view.matching(found, filter).len() ==> found.contains(
                #[trigger] view.matching(found, filter)[i],
            ) && filter.holds(
                view.payloads[view.matching(found, filter)[i].node as int],
            ),
    decreases found.len(),
{
    reveal(Seq::filter);
    if found.len() > 0 {
        let front = found.drop_last();
        let last = found.last();
        assert(sorted(front)) by {
            assert forall|i: int, j: int| 0 <= i < j < front.len() implies (
            #[trigger] front[i]).up_to(#[trigger] front[j]) by {
                assert(found[i].up_to(found[j]));
            }
        }
        assert(distinct_nodes(front)) by {
            assert forall|i: int, j: int| 0 <= i < j < front.len() implies (
            #[trigger] front[i]).node != (#[trigger] front[j]).node by {
                assert(found[i].node != found[j].node);
            }
        }
        lemma_matching(view, front, filter);
        let kept = view.matching(front, filter);
        let all = view.matching(found, filter);
        assert(all == kept || all == kept.push(last));
        assert forall|i: int| 0 <= i < kept.len() implies found.contains(#[trigger] kept[i])
            && kept[i].up_to(last) && kept[i].node != last.node by {
            let j = choose|j: int| 0 <= j < front.len() && front[j] == kept[i];
            assert(found[j] == kept[i]);
            assert(found[j].up_to(found[found.len() - 1]));
            assert(found[j].node != found[found.len() - 1].node);
        }
        assert forall|i: int| 0 <= i < all.len() implies found.contains(#[trigger] all[i])
            && filter.holds(view.payloads[all[i].node as int]) by {
            if i < kept.len() {
                assert(all[i] == kept[i]);
            } else {
                assert(found[found.len() - 1] == last);
            }
        }
        assert forall|i: int, j: int| 0 <= i < j < all.len() implies (
        #[trigger] all[i]).up_to(#[trigger] all[j]) && all[i].node != all[j].node by {
            if j < kept.len() {
                assert(kept[i].up_to(kept[j]));
                assert(kept[i].node != kept[j].node);
            } else {
                assert(kept[i].up_to(last));
            }
        }
    }
}

/// The hits for a query under a filter are stored vectors whose payloads match,
/// with their distances, none of them twice, nearest first, at most `k` of them.
pub proof fn law_filtered_hits_match(
    view: HnswView,
    query: Seq<Single>,
    k: nat,
    filter: Filter,
)
    requires
        view.well_formed(),
    ensures
        nearest_first(view.filtered_hits(query, k, filter)),
        view.filtered_hits(query, k, filter).len() <= k,
        hits_are_at(
            view.filtered_hits(query, k, filter),
            view.positions(view.nearest_matching(query, k, filter)),
            view.ids,
            view.vectors,
            query,
            view.distance,
        ),
        forall|i: int|
            0 <= i < view.filtered_hits(query, k, filter).len() ==> filter.holds(
                view.payloads[#[trigger] view.positions(
                    view.nearest_matching(query, k, filter),
                )[i]],
            ),
{
    let found = view.candidates(query, k);
    let matching = view.matching(found, filter);
    let nearest = view.nearest_matching(query, k, filter);
    let hits = view.filtered_hits(query, k, filter);
    let at = view.positions(nearest);
    lemma_candidates(view, query, k);
    lemma_matching(view, found, filter);
    assert(at.no_duplicates()) by {
        assert forall|i: int, j: int|
            0 <= i < at.len() && 0 <= j < at.len() && i != j implies at[i] != at[j] by {
            assert(matching[i].node != matching[j].node);
        }
    }
    assert forall|i: int| 0 <= i < hits.len() implies 0 <= #[trigger] at[i] < view.ids.len()
        && hits[i].id == view.ids[at[i]] && hits[i].distance == (view.distance)(
        query,
        view.vectors[at[i]],
    ) && filter.holds(view.payloads[at[i]]) by {
        assert(found.contains(matching[i]));
        let j = choose|j: int| 0 <= j < found.len() && found[j] == matching[i];
        assert(found[j].node < view.ids.len());
    }
    assert forall|i: int, j: int| 0 <= i < j < hits.len() implies (
    #[trigger] hits[i]).distance.rank() <= (#[trigger] hits[j]).distance.rank() by {
        assert(matching[i].up_to(matching[j]));
    }
}

/// Filtering candidates keeps every one that matches, and as many as there are.
proof fn lemma_matching_keeps_all(view: HnswView, found: Seq<Scored>, filter: Filter)
    ensures
        forall|j: int|
            0 <= j < found.len() && filter.holds(view.payloads[(#[trigger] found[j]).node as int])
                ==> view.matching(found, filter).contains(found[j]),
    decreases found.len(),
{
    reveal(Seq::filter);
    if found.len() > 0 {
        let front = found.drop_last();
        let kept = view.matching(front, filter);
        let all = view.matching(found, filter);
        lemma_matching_keeps_all(view, front, filter);
        assert forall|j: int|
            0 <= j < found.len() && filter.holds(
                view.payloads[(#[trigger] found[j]).node as int],
            ) implies all.contains(found[j]) by {
            if j < front.len() {
                assert(front[j] == found[j]);
                assert(kept.contains(found[j]));
                let i = choose|i: int| 0 <= i < kept.len() && kept[i] == found[j];
                assert(all[i] == found[j]);
            } else {
                assert(all[all.len() - 1] == found[j]);
            }
        }
    }
}

/// A filtered search takes its hits from as many candidates as an unfiltered one
/// has: where an unfiltered search for as many hits as the search is wide returns
/// the candidates `wide`, the filtered hits are the first `k` of those whose
/// payload matches.
pub proof fn law_filtered_search_looks_at_every_candidate(
    view: HnswView,
    query: Seq<Single>,
    k: nat,
    width: nat,
    filter: Filter,
)
    requires
        view.well_formed(),
        k > 0,
        width >= k,
        width >= view.config.ef_search,
        width == k || width == view.config.ef_search,
    ensures
        ({
            let wide = view.nearest(query, width);
            let kept = wide.filter(|s: Scored| filter.holds(view.payloads[s.node as int]));
            let hits = view.filtered_hits(query, k, filter);
            &&& hits.len() == if k < kept.len() {
                k
            } else {
                kept.len()
            }
            &&& forall|i: int|
                0 <= i < hits.len() ==> (#[trigger] hits[i]).id == view.ids[kept[i].node as int]
                    && hits[i].distance == kept[i].dist
        }),
{
    let all = view.candidates(query, k);
    assert(view.candidates(query, width) == all);
    assert(all.len() <= width) by {
        if let Some(entry) = view.entry {
            let ep = view.space().descend(view.links, query, entry, view.max_layer as int, 1);
            lemma_candidates(view, query, k);
            crate::graph::lemma_search_layer(
                view.space(),
                view.links,
                query,
                seq![ep],
                width,
                0,
                None,
            );
        }
    }
    assert(view.nearest(query, width) =~= all);
}

/// A filtered search is complete over its candidates: it returns `k` hits, or as
/// many as there are candidates whose payload matches, and such a candidate that
/// is left out is no nearer than any hit.
pub proof fn law_filtered_search_is_complete(
    view: HnswView,
    query: Seq<Single>,
    k: nat,
    filter: Filter,
    j: int,
)
    requires
        view.well_formed(),
        0 <= j < view.candidates(query, k).len(),
        filter.holds(view.payloads[view.candidates(query, k)[j].node as int]),
    ensures
        ({
            let hits = view.filtered_hits(query, k, filter);
            let at = view.positions(view.nearest_matching(query, k, filter));
            let left_out = view.candidates(query, k)[j];
            ||| at.contains(left_out.node as int)
            ||| hits.len() == k && forall|i: int|
                0 <= i < hits.len() ==> (#[trigger] hits[i]).distance.rank() <= left_out.dist.rank()
        }),
{
    let found = view.candidates(query, k);
    let matching = view.matching(found, filter);
    let nearest = view.nearest_matching(query, k, filter);
    let at = view.positions(nearest);
    let hits = view.filtered_hits(query, k, filter);
    lemma_candidates(view, query, k);
    lemma_matching(view, found, filter);
    lemma_matching_keeps_all(view, found, filter);
    assert(matching.contains(found[j]));
    let p = choose|p: int| 0 <= p < matching.len() && matching[p] == found[j];
    if p < nearest.len() {
        assert(at[p] == found[j].node);
    } else {
        assert forall|i: int| 0 <= i < hits.len() implies (#[trigger] hits[i]).distance.rank()
            <= found[j].dist.rank() by {
            assert(matching[i].up_to(matching[p]));
        }
    }
}

/// Where the base layer leads from every vector to every other and the search is
/// as wide as the index is large, a filtered search is exact: it returns `k` hits,
/// or all stored vectors whose payload matches if there are fewer; each hit is such
/// a vector at its true distance; and such a vector that is left out is no nearer
/// than any hit.
pub proof fn law_wide_filtered_search_is_exact(
    view: HnswView,
    query: Seq<Single>,
    k: nat,
    filter: Filter,
)
    requires
        view.well_formed(),
        base_layer_is_joined(view.links),
        view.ids.len() <= usize::MAX,
        view.config.ef_search >= view.ids.len() || k >= view.ids.len(),
    ensures
        ({
            let hits = view.filtered_hits(query, k, filter);
            let matching = vstd::set_lib::set_int_range(0, view.ids.len() as int).filter(
                |v: int| filter.holds(view.payloads[v]),
            );
            &&& nearest_first(hits)
            &&& hits.len() == if k < matching.len() {
                k
            } else {
                matching.len()
            }
            &&& exists|at: Seq<int>|
                {
                    &&& #[trigger] hits_are_at(
                        hits,
                        at,
                        view.ids,
                        view.vectors,
                        query,
                        view.distance,
                    )
                    &&& forall|i: int| 0 <= i < at.len() ==> filter.holds(
                        view.payloads[#[trigger] at[i]],
                    )
                    &&& forall|v: int, i: int|
                        matching.contains(v) && !at.contains(v) && 0 <= i < hits.len()
                            ==> (#[trigger] hits[i]).distance.rank() <= (#[trigger] (view.distance)(
                            query,
                            view.vectors[v],
                        )).rank()
                }
        }),
{
    let n = view.ids.len();
    let found = view.candidates(query, k);
    let kept = view.matching(found, filter);
    let nearest = view.nearest_matching(query, k, filter);
    let hits = view.filtered_hits(query, k, filter);
    let at = view.positions(nearest);
    let range = vstd::set_lib::set_int_range(0, n as int);
    let holds = |v: int| filter.holds(view.payloads[v]);
    let matching = range.filter(holds);
    vstd::set_lib::lemma_int_range(0, n as int);
    law_filtered_hits_match(view, query, k, filter);
    lemma_candidates(view, query, k);
    if k == 0 {
        assert(at =~= Seq::empty());
        assert(hits =~= Seq::empty());
        assert(hits_are_at(hits, at, view.ids, view.vectors, query, view.distance));
    } else {
        lemma_matching(view, found, filter);
        lemma_matching_keeps_all(view, found, filter);
        lemma_wide_candidates(view, query, k);
        let nodes = Seq::new(kept.len(), |i: int| kept[i].node as int);
        assert(nodes.no_duplicates()) by {
            assert forall|i: int, j: int|
                0 <= i < nodes.len() && 0 <= j < nodes.len() && i != j implies nodes[i]
                != nodes[j] by {
                assert(kept[i].node != kept[j].node);
            }
        }
        nodes.unique_seq_to_set();
        assert forall|v: int| nodes.to_set().contains(v) == matching.contains(v) by {
            if nodes.to_set().contains(v) {
                let i = choose|i: int| 0 <= i < nodes.len() && nodes[i] == v;
                assert(found.contains(kept[i]));
                let j = choose|j: int| 0 <= j < found.len() && found[j] == kept[i];
                assert(found[j].node < n);
            }
            if matching.contains(v) {
                assert(has_node(found, v as usize));
                let j = choose|j: int| 0 <= j < found.len() && (#[trigger] found[j]).node
                    == v as usize;
                assert(kept.contains(found[j]));
                let i = choose|i: int| 0 <= i < kept.len() && kept[i] == found[j];
                assert(nodes[i] == v);
            }
        }
        assert(nodes.to_set() =~= matching);
        assert(hits_are_at(hits, at, view.ids, view.vectors, query, view.distance));
        assert forall|v: int, i: int|
            matching.contains(v) && !at.contains(v) && 0 <= i < hits.len() implies (
        #[trigger] hits[i]).distance.rank() <= (#[trigger] (view.distance)(
            query,
            view.vectors[v],
        )).rank() by {
            assert(has_node(found, v as usize));
            let j = choose|j: int| 0 <= j < found.len() && (#[trigger] found[j]).node == v as usize;
            law_filtered_search_is_complete(view, query, k, filter, j);
        }
    }
}

/// A search as wide as the index is large over a joined base layer has every
/// stored vector as a candidate.
proof fn lemma_wide_candidates(view: HnswView, query: Seq<Single>, k: nat)
    requires
        view.well_formed(),
        base_layer_is_joined(view.links),
        view.ids.len() <= usize::MAX,
        view.config.ef_search >= view.ids.len() || k >= view.ids.len(),
    ensures
        forall|v: usize|
            v < view.ids.len() ==> #[trigger] has_node(view.candidates(query, k), v),
{
    let n = view.ids.len();
    let found = view.candidates(query, k);
    lemma_candidates(view, query, k);
    if view.entry is Some {
        let ep = view.space().descend(view.links, query, view.entry->0, view.max_layer as int, 1);
        let ef = if view.config.ef_search < k {
            k
        } else {
            view.config.ef_search as nat
        };
        crate::graph::lemma_joined_search(view.space(), view.links, query, ep, ef);
        let nodes = Seq::new(found.len(), |i: int| found[i].node as int);
        let range = vstd::set_lib::set_int_range(0, n as int);
        assert(nodes.no_duplicates()) by {
            assert forall|i: int, j: int|
                0 <= i < nodes.len() && 0 <= j < nodes.len() && i != j implies nodes[i]
                != nodes[j] by {
                assert(found[i].node != found[j].node);
            }
        }
        nodes.unique_seq_to_set();
        vstd::set_lib::lemma_int_range(0, n as int);
        assert(nodes.to_set().subset_of(range)) by {
            assert forall|v: int| nodes.to_set().contains(v) implies range.contains(v) by {
                let i = choose|i: int| 0 <= i < nodes.len() && nodes[i] == v;
                assert(found[i].node < n);
            }
        }
        vstd::set_lib::lemma_len_subset(nodes.to_set(), range);
        vstd::set_lib::lemma_subset_equality(nodes.to_set(), range);
        assert forall|v: usize| v < n implies #[trigger] has_node(found, v) by {
            assert(range.contains(v as int));
            assert(nodes.to_set().contains(v as int));
            let i = choose|i: int| 0 <= i < nodes.len() && nodes[i] == v as int;
            assert(found[i].node == v);
        }
    }
}

/// A filter that matches every stored payload changes nothing.
pub proof fn law_filter_that_matches_all(
    view: HnswView,
    query: Seq<Single>,
    k: nat,
    filter: Filter,
)
    requires
        view.well_formed(),
        forall|v: int| 0 <= v < view.payloads.len() ==> filter.holds(#[trigger] view.payloads[v]),
    ensures
        view.filtered_hits(query, k, filter) == view.hits(query, k),
{
    let found = view.candidates(query, k);
    lemma_candidates(view, query, k);
    assert forall|i: int| 0 <= i <= found.len() implies #[trigger] view.matching(
        found.take(i),
        filter,
    ) == found.take(i) by {
        lemma_all_match(view, found, filter, i);
    }
    assert(found.take(found.len() as int) =~= found);
}

/// Filtering keeps all of the first `i` candidates where every payload matches.
proof fn lemma_all_match(view: HnswView, found: Seq<Scored>, filter: Filter, i: int)
    requires
        0 <= i <= found.len(),
        forall|v: int| 0 <= v < view.payloads.len() ==> filter.holds(#[trigger] view.payloads[v]),
        forall|j: int| 0 <= j < found.len() ==> (#[trigger] found[j]).node < view.payloads.len(),
    ensures
        view.matching(found.take(i), filter) == found.take(i),
    decreases i,
{
    if i == 0 {
        lemma_matching_prefix(view, found, filter, 0);
        assert(view.matching(found.take(0), filter) =~= found.take(0));
    } else {
        lemma_all_match(view, found, filter, i - 1);
        lemma_matching_step(view, found, filter, i - 1);
        assert(filter.holds(view.payloads[found[i - 1].node as int]));
        assert(found.take(i - 1).push(found[i - 1]) =~= found.take(i));
    }
}

/// The search-time candidate-list size has no part in the graph: it can be set
/// before an insert or after it, and then again, without a difference.
pub proof fn law_tuning_leaves_the_graph_alone(
    view: HnswView,
    ef_search: usize,
    id: u64,
    vector: Seq<Single>,
    payload: Option<Fields>,
)
    ensures
        view.tuned(ef_search).links == view.links,
        view.tuned(ef_search).inserted(id, vector, payload) == view.inserted(
            id,
            vector,
            payload,
        ).tuned(ef_search),
        view.tuned(ef_search).tuned(view.config.ef_search) == view,
{
}

/// What is added: the id, the vector and its payload.
pub type Addition = (u64, Seq<Single>, Option<Fields>);

/// The index after several additions, one after the other.
pub open spec fn built(view: HnswView, additions: Seq<Addition>) -> HnswView
    decreases additions.len(),
{
    if additions.len() == 0 {
        view
    } else {
        let last = additions.last();
        built(view, additions.drop_last()).inserted(last.0, last.1, last.2)
    }
}

/// An index built from the same inserts under the same configuration is
/// reproducible: its graph, its entry point and all its answers are the same,
/// whatever the candidate-list size for searches was meanwhile.
pub proof fn law_same_inserts_build_the_same_index(
    dim: nat,
    metric: Metric,
    config: HnswConfig,
    distance: spec_fn(Seq<Single>, Seq<Single>) -> Single,
    level: spec_fn(Double, usize) -> Double,
    ef_search: usize,
    additions: Seq<Addition>,
)
    ensures
        built(
            HnswView::empty(dim, metric, config, distance, level).tuned(ef_search),
            additions,
        ).tuned(config.ef_search) == built(
            HnswView::empty(dim, metric, config, distance, level),
            additions,
        ),
    decreases additions.len(),
{
    if additions.len() > 0 {
        let last = additions.last();
        let front = additions.drop_last();
        let plain = HnswView::empty(dim, metric, config, distance, level);
        law_same_inserts_build_the_same_index(
            dim,
            metric,
            config,
            distance,
            level,
            ef_search,
            front,
        );
        law_tuning_leaves_the_graph_alone(
            built(plain.tuned(ef_search), front),
            config.ef_search,
            last.0,
            last.1,
            last.2,
        );
    }
}

/// Whatever is added to an empty index, one vector after the other, the index
/// stays well formed and holds exactly what was added.
pub proof fn law_built_index_is_well_formed(
    dim: nat,
    metric: Metric,
    config: HnswConfig,
    distance: spec_fn(Seq<Single>, Seq<Single>) -> Single,
    level: spec_fn(Double, usize) -> Double,
    additions: Seq<Addition>,
)
    requires
        dim > 0,
        config.m >= 2,
        additions.len() <= u32::MAX + 1,
        forall|i: int| 0 <= i < additions.len() ==> (#[trigger] additions[i]).1.len() == dim,
    ensures
        ({
            let view = built(HnswView::empty(dim, metric, config, distance, level), additions);
            &&& view.well_formed()
            &&& view.dim == dim
            &&& view.ids.len() == additions.len()
            &&& forall|i: int|
                0 <= i < additions.len() ==> view.ids[i] == (#[trigger] additions[i]).0
                    && view.vectors[i] == additions[i].1 && view.payloads[i] == additions[i].2
        }),
    decreases additions.len(),
{
    if additions.len() > 0 {
        let front = additions.drop_last();
        let last = additions.last();
        assert forall|i: int| 0 <= i < front.len() implies (#[trigger] front[i]).1.len() == dim by {
            assert(front[i] == additions[i]);
        }
        assert(additions[additions.len() - 1] == last);
        law_built_index_is_well_formed(dim, metric, config, distance, level, front);
        let before = built(HnswView::empty(dim, metric, config, distance, level), front);
        law_insert_keeps_the_index_well_formed(before, last.0, last.1, last.2);
        assert forall|i: int| 0 <= i < additions.len() implies {
            let view = before.inserted(last.0, last.1, last.2);
            view.ids[i] == (#[trigger] additions[i]).0 && view.vectors[i] == additions[i].1
                && view.payloads[i] == additions[i].2
        } by {
            if i < front.len() {
                assert(front[i] == additions[i]);
            }
        }
    }
}

/// A vector added to an index that is not empty is linked: on every layer that it
/// shares with the graph it has a neighbour.
pub proof fn law_added_vector_is_linked(
    view: HnswView,
    id: u64,
    vector: Seq<Single>,
    payload: Option<Fields>,
    l: int,
)
    requires
        view.well_formed(),
        0 < view.ids.len() <= u32::MAX,
        vector.len() == view.dim,
        view.config.ef_construction > 0,
        0 <= l <= view.next_level(),
        l <= view.max_layer,
    ensures
        view.inserted(id, vector, payload).links[view.ids.len() as int][l].len() > 0,
{
    let level = view.next_level();
    let fresh = view.appended(id, vector, payload, level);
    let start = if level < view.max_layer {
        level
    } else {
        view.max_layer
    };
    lemma_appended(view, id, vector, payload, level);
    lemma_ready(view, id, vector, payload);
    let ep = fresh.space().descend(
        fresh.links,
        vector,
        view.entry->0,
        view.max_layer as int,
        level as int + 1,
    );
    crate::graph::lemma_connected_gives_neighbours(
        fresh.space(),
        fresh.links,
        vector,
        view.ids.len() as u32,
        seq![ep],
        ep,
        start as int,
        view.config.m as nat,
        view.config.ef_construction as nat,
    );
}

/// Where the base layer leads from every vector to every other, a search returns
/// `k` hits, or all vectors if there are fewer.
pub proof fn law_joined_index_returns_k(view: HnswView, query: Seq<Single>, k: nat)
    requires
        view.well_formed(),
        base_layer_is_joined(view.links),
        view.ids.len() <= usize::MAX,
    ensures
        view.hits(query, k).len() == if k < view.ids.len() {
            k
        } else {
            view.ids.len()
        },
{
    law_hits_are_stored_vectors(view, query, k);
    if k > 0 && view.entry is Some {
        let ep = view.space().descend(
            view.links,
            query,
            view.entry->0,
            view.max_layer as int,
            1,
        );
        let ef = if view.config.ef_search < k {
            k
        } else {
            view.config.ef_search as nat
        };
        lemma_candidates(view, query, k);
        crate::graph::lemma_joined_search(view.space(), view.links, query, ep, ef);
    }
}

/// Where the base layer leads from every vector to every other and the search is
/// as wide as the index is large (by its candidate-list size or by the number of
/// hits asked for), the search is exact: it returns what an exact index over the
/// same vectors returns.
pub proof fn law_wide_search_is_exact(view: HnswView, query: Seq<Single>, k: nat)
    requires
        view.well_formed(),
        base_layer_is_joined(view.links),
        view.ids.len() <= usize::MAX,
        view.config.ef_search >= view.ids.len() || k >= view.ids.len(),
    ensures
        view.hits(query, k) == view.exact().hits(query, k),
{
    let found = view.candidates(query, k);
    let scored = view.exact().scored(query);
    lemma_candidates(view, query, k);
    crate::order::lemma_sort(scored);
    if view.entry is Some {
        let ep = view.space().descend(
            view.links,
            query,
            view.entry->0,
            view.max_layer as int,
            1,
        );
        let ef = if view.config.ef_search < k {
            k
        } else {
            view.config.ef_search as nat
        };
        crate::graph::lemma_joined_search(view.space(), view.links, query, ep, ef);
        assert(found.len() >= view.ids.len());
        lemma_all_candidates(view, query, found);
        crate::order::lemma_sorted_lists_equal(found, sort(scored));
    } else {
        assert(scored =~= Seq::empty());
        assert(found =~= Seq::empty());
        assert(sort(scored) =~= Seq::empty());
    }
    assert(view.nearest(query, k) =~= view.exact().nearest(query, k));
    assert(view.hits(query, k) =~= view.exact().hits(query, k));
}

/// A node that nothing is linked to leaves the rest of the base layer joined.
proof fn lemma_fresh_is_joined(
    view: HnswView,
    id: u64,
    vector: Seq<Single>,
    payload: Option<Fields>,
    level: nat,
)
    requires
        view.well_formed(),
        view.ids.len() <= u32::MAX,
        base_layer_is_joined(view.links),
    ensures
        base_layer_is_joined_without(
            view.appended(id, vector, payload, level).links,
            view.ids.len() as u32,
        ),
{
    let fresh = view.appended(id, vector, payload, level);
    let node = view.ids.len() as u32;
    assert forall|s: Set<usize>| #[trigger]
        closed_on_base(fresh.links, s) && s.len() > 0 && !s.contains(
            node as usize,
        ) implies forall|v: usize|
        v < fresh.links.len() && v != node ==> #[trigger] s.contains(v) by {
        assert(closed_on_base(view.links, s)) by {
            assert forall|v: usize| #[trigger] s.contains(v) implies on_layer(
                view.links,
                v as int,
                0,
            ) by {
                assert(on_layer(fresh.links, v as int, 0));
                assert(fresh.links[v as int] == view.links[v as int]);
            }
            assert forall|v: usize, j: int|
                s.contains(v) && 0 <= j < view.links[v as int][0].len() implies s.contains(
                #[trigger] view.links[v as int][0][j] as usize,
            ) by {
                assert(on_layer(view.links, v as int, 0));
                assert(fresh.links[v as int] == view.links[v as int]);
                assert(s.contains(fresh.links[v as int][0][j] as usize));
            }
        }
    }
}

/// Adding to an index that is no larger than the lists of its base layer may be
/// long keeps the base layer joined.
proof fn lemma_insert_keeps_joined(
    view: HnswView,
    id: u64,
    vector: Seq<Single>,
    payload: Option<Fields>,
)
    requires
        view.well_formed(),
        view.ids.len() <= u32::MAX,
        view.ids.len() <= 2 * view.config.m,
        view.config.ef_construction > 0,
        vector.len() == view.dim,
        base_layer_is_joined(view.links),
    ensures
        base_layer_is_joined(view.inserted(id, vector, payload).links),
{
    let level = view.next_level();
    let fresh = view.appended(id, vector, payload, level);
    let node = view.ids.len() as u32;
    lemma_appended(view, id, vector, payload, level);
    if view.entry is Some {
        let ep = fresh.space().descend(
            fresh.links,
            vector,
            view.entry->0,
            view.max_layer as int,
            level as int + 1,
        );
        let start = if level < view.max_layer {
            level
        } else {
            view.max_layer
        };
        lemma_ready(view, id, vector, payload);
        lemma_fresh_is_joined(view, id, vector, payload, level);
        crate::graph::lemma_connected_is_joined(
            fresh.space(),
            fresh.links,
            vector,
            node,
            seq![ep],
            ep,
            start as int,
            view.config.m as nat,
            view.config.ef_construction as nat,
        );
    } else {
        let links = view.inserted(id, vector, payload).links;
        assert forall|s: Set<usize>| #[trigger]
            closed_on_base(links, s) && s.len() > 0 implies forall|v: usize|
            v < links.len() ==> #[trigger] s.contains(v) by {
            let x = s.choose();
            assert(s.contains(x)) by {
                if forall|y: usize| !s.contains(y) {
                    assert(s =~= Set::empty());
                }
            }
            assert(on_layer(links, x as int, 0));
        }
    }
}

/// As long as an index holds no more than `2 * m + 1` vectors, its base layer
/// leads from every vector to every other, whatever was added in which order.
pub proof fn law_small_index_is_joined(
    dim: nat,
    metric: Metric,
    config: HnswConfig,
    distance: spec_fn(Seq<Single>, Seq<Single>) -> Single,
    level: spec_fn(Double, usize) -> Double,
    additions: Seq<Addition>,
)
    requires
        dim > 0,
        config.m >= 2,
        config.ef_construction > 0,
        additions.len() <= u32::MAX + 1,
        additions.len() <= 2 * config.m + 1,
        forall|i: int| 0 <= i < additions.len() ==> (#[trigger] additions[i]).1.len() == dim,
    ensures
        base_layer_is_joined(
            built(HnswView::empty(dim, metric, config, distance, level), additions).links,
        ),
    decreases additions.len(),
{
    if additions.len() > 0 {
        let front = additions.drop_last();
        let last = additions.last();
        let before = built(HnswView::empty(dim, metric, config, distance, level), front);
        assert forall|i: int| 0 <= i < front.len() implies (#[trigger] front[i]).1.len() == dim by {
            assert(front[i] == additions[i]);
        }
        assert(additions[additions.len() - 1] == last);
        law_small_index_is_joined(dim, metric, config, distance, level, front);
        law_built_index_is_well_formed(dim, metric, config, distance, level, front);
        lemma_built_keeps_parameters(dim, metric, config, distance, level, front);
        lemma_insert_keeps_joined(before, last.0, last.1, last.2);
    }
}

/// Additions do not change what an index was made with.
proof fn lemma_built_keeps_parameters(
    dim: nat,
    metric: Metric,
    config: HnswConfig,
    distance: spec_fn(Seq<Single>, Seq<Single>) -> Single,
    level: spec_fn(Double, usize) -> Double,
    additions: Seq<Addition>,
)
    ensures
        ({
            let view = built(HnswView::empty(dim, metric, config, distance, level), additions);
            &&& view.metric == metric
            &&& view.config == config
            &&& view.distance == distance
            &&& view.level == level
        }),
    decreases additions.len(),
{
    if additions.len() > 0 {
        lemma_built_keeps_parameters(
            dim,
            metric,
            config,
            distance,
            level,
            additions.drop_last(),
        );
    }
}

/// A search of an index that holds no more than `2 * m + 1` vectors returns `k`
/// hits, or all vectors if there are fewer; and if it is as wide as the index is
/// large, it returns what an exact index over the same vectors returns.
pub proof fn law_small_index_is_searched_in_full(
    dim: nat,
    metric: Metric,
    config: HnswConfig,
    distance: spec_fn(Seq<Single>, Seq<Single>) -> Single,
    level: spec_fn(Double, usize) -> Double,
    additions: Seq<Addition>,
    query: Seq<Single>,
    k: nat,
)
    requires
        dim > 0,
        config.m >= 2,
        config.ef_construction > 0,
        additions.len() <= u32::MAX + 1,
        additions.len() <= 2 * config.m + 1,
        additions.len() <= usize::MAX,
        forall|i: int| 0 <= i < additions.len() ==> (#[trigger] additions[i]).1.len() == dim,
    ensures
        ({
            let view = built(HnswView::empty(dim, metric, config, distance, level), additions);
            &&& view.hits(query, k).len() == if k < additions.len() {
                k
            } else {
                additions.len()
            }
            &&& config.ef_search >= additions.len() || k >= additions.len() ==> view.hits(query, k)
                == view.exact().hits(query, k)
        }),
{
    let view = built(HnswView::empty(dim, metric, config, distance, level), additions);
    law_small_index_is_joined(dim, metric, config, distance, level, additions);
    law_built_index_is_well_formed(dim, metric, config, distance, level, additions);
    lemma_built_keeps_parameters(dim, metric, config, distance, level, additions);
    law_joined_index_returns_k(view, query, k);
    if config.ef_search >= additions.len() || k >= additions.len() {
        law_wide_search_is_exact(view, query, k);
    }
}

/// As many candidates as there are vectors are all of the vectors.
proof fn lemma_all_candidates(view: HnswView, query: Seq<Single>, found: Seq<Scored>)
    requires
        view.well_formed(),
        view.ids.len() <= usize::MAX,
        found.len() >= view.ids.len(),
        distinct_nodes(found),
        forall|j: int|
            0 <= j < found.len() ==> (#[trigger] found[j]).node < view.ids.len() && found[j].dist
                == (view.distance)(query, view.vectors[found[j].node as int]),
    ensures
        found.to_multiset() == view.exact().scored(query).to_multiset(),
{
    let n = view.ids.len();
    let scored = view.exact().scored(query);
    let nodes = Seq::new(found.len(), |i: int| found[i].node as int);
    let range = vstd::set_lib::set_int_range(0, n as int);
    assert(nodes.no_duplicates()) by {
        assert forall|i: int, j: int|
            0 <= i < nodes.len() && 0 <= j < nodes.len() && i != j implies nodes[i] != nodes[j] by {
            assert(found[i].node != found[j].node);
        }
    }
    nodes.unique_seq_to_set();
    vstd::set_lib::lemma_int_range(0, n as int);
    assert(nodes.to_set().subset_of(range)) by {
        assert forall|v: int| nodes.to_set().contains(v) implies range.contains(v) by {
            let i = choose|i: int| 0 <= i < nodes.len() && nodes[i] == v;
            assert(found[i].node < n);
        }
    }
    vstd::set_lib::lemma_len_subset(nodes.to_set(), range);
    vstd::set_lib::lemma_subset_equality(nodes.to_set(), range);
    assert(found.no_duplicates()) by {
        assert forall|i: int, j: int|
            0 <= i < found.len() && 0 <= j < found.len() && i != j implies found[i] != found[j] by {
            assert(found[i].node != found[j].node);
        }
    }
    assert(scored.no_duplicates()) by {
        assert forall|i: int, j: int|
            0 <= i < scored.len() && 0 <= j < scored.len() && i != j implies scored[i]
            != scored[j] by {
            assert(scored[i].node == i && scored[j].node == j);
        }
    }
    assert forall|s: Scored| found.contains(s) == #[trigger] scored.contains(s) by {
        if found.contains(s) {
            let i = choose|i: int| 0 <= i < found.len() && found[i] == s;
            assert(found[i].node < n);
            assert(scored[s.node as int] == s);
        }
        if scored.contains(s) {
            let v = choose|v: int| 0 <= v < scored.len() && scored[v] == s;
            assert(range.contains(v));
            assert(nodes.to_set().contains(v));
            let i = choose|i: int| 0 <= i < nodes.len() && nodes[i] == v;
            assert(found[i].node == v);
            assert(found[i] == s);
        }
    }
    lemma_same_members(found, scored);
}

/// Lists without repetition that have the same members have the same members as
/// often.
proof fn lemma_same_members(a: Seq<Scored>, b: Seq<Scored>)
    requires
        a.no_duplicates(),
        b.no_duplicates(),
        forall|s: Scored| a.contains(s) == #[trigger] b.contains(s),
    ensures
        a.to_multiset() == b.to_multiset(),
{
    a.lemma_multiset_has_no_duplicates();
    b.lemma_multiset_has_no_duplicates();
    a.to_multiset_ensures();
    b.to_multiset_ensures();
    assert forall|s: Scored| #[trigger] a.to_multiset().count(s) == b.to_multiset().count(s) by {
        assert(a.contains(s) <==> a.to_multiset().count(s) > 0);
        assert(b.contains(s) <==> b.to_multiset().count(s) > 0);
        if a.contains(s) {
            assert(b.contains(s));
            assert(a.to_multiset().contains(s));
            assert(b.to_multiset().contains(s));
        }
    }
    assert(a.to_multiset() =~= b.to_multiset());
}

/// A search ends at a local optimum: a neighbour, on the base layer, of a
/// candidate that it ends with is such a candidate too, or it is no nearer than
/// any of them.
pub proof fn law_search_ends_at_a_local_optimum(
    view: HnswView,
    query: Seq<Single>,
    k: nat,
    i: int,
    j: int,
)
    requires
        view.well_formed(),
        forall|v: int|
            0 <= v < view.vectors.len() ==> !(view.distance)(
                query,
                #[trigger] view.vectors[v],
            ).nan(),
        0 <= i < view.candidates(query, k).len(),
        0 <= j < view.links[view.candidates(query, k)[i].node as int][0].len(),
    ensures
        ({
            let found = view.candidates(query, k);
            let neighbour = view.links[found[i].node as int][0][j] as usize;
            let d = (view.distance)(query, view.vectors[neighbour as int]);
            ||| has_node(found, neighbour)
            ||| forall|c: int| 0 <= c < found.len() ==> !d.less((#[trigger] found[c]).dist)
        }),
{
    let found = view.candidates(query, k);
    lemma_candidates(view, query, k);
    let ep = view.space().descend(view.links, query, view.entry->0, view.max_layer as int, 1);
    let ef = if view.config.ef_search < k {
        k
    } else {
        view.config.ef_search as nat
    };
    let t = view.space().terrain(view.links, query, 0);
    let n = view.links.len();
    let allowed = |v: usize| on_layer(view.links, v as int, 0) && None::<u32> != Some(v as u32);
    crate::graph::lemma_terrain_closed(view.space(), view.links, query, 0, None);
    assert(t.numeric(n)) by {
        assert forall|v: usize| v < n implies !(#[trigger] (t.dist)(v)).nan() by {
            assert(!(view.distance)(query, view.vectors[v as int]).nan());
        }
    }
    assert(found[i].node < view.ids.len());
    crate::beam::law_search_ends_at_a_local_optimum(t, seq![ep], ef, n, allowed, i, j);
}

/// Once enough neighbours have been chosen, the remaining candidates change
/// nothing.
proof fn lemma_chosen_enough(
    space: Space,
    candidates: Seq<Scored>,
    m: nat,
    from: nat,
    to: nat,
)
    requires
        from <= to <= candidates.len(),
        from == to || space.chosen_among(candidates, m, from).len() >= m,
    ensures
        space.chosen_among(candidates, m, to) == space.chosen_among(candidates, m, from),
    decreases to - from,
{
    if from < to {
        lemma_chosen_enough(space, candidates, m, from, (to - 1) as nat);
    }
}

/// A search returns the nearest of its candidates: `k` of them, or all if there are
/// fewer, and a candidate that is left out is no nearer than any hit.
pub proof fn law_search_keeps_the_nearest_candidates(
    view: HnswView,
    query: Seq<Single>,
    k: nat,
    j: int,
)
    requires
        view.well_formed(),
        k > 0,
        0 <= j < view.candidates(query, k).len(),
    ensures
        ({
            let found = view.candidates(query, k);
            let hits = view.hits(query, k);
            let at = view.positions(view.nearest(query, k));
            &&& hits.len() == if k < found.len() {
                k
            } else {
                found.len()
            }
            &&& {
                ||| at.contains(found[j].node as int)
                ||| forall|i: int|
                    0 <= i < hits.len() ==> (#[trigger] hits[i]).distance.rank()
                        <= found[j].dist.rank()
            }
        }),
{
    let found = view.candidates(query, k);
    let nearest = view.nearest(query, k);
    let hits = view.hits(query, k);
    let at = view.positions(nearest);
    lemma_candidates(view, query, k);
    if j < nearest.len() {
        assert(at[j] == found[j].node);
    } else {
        assert forall|i: int| 0 <= i < hits.len() implies (#[trigger] hits[i]).distance.rank()
            <= found[j].dist.rank() by {
            assert(found[i].up_to(found[j]));
        }
    }
}

/// Asking for fewer hits gives the first of those that asking for more gives, as
/// long as the candidate-list size is enough for both.
pub proof fn law_fewer_hits_are_the_first_ones(
    view: HnswView,
    query: Seq<Single>,
    k: nat,
    more: nat,
    i: int,
)
    requires
        k <= more <= view.config.ef_search,
        0 <= i < view.hits(query, k).len(),
    ensures
        view.hits(query, k).len() == if k < view.hits(query, more).len() {
            k
        } else {
            view.hits(query, more).len()
        },
        view.hits(query, k)[i] == view.hits(query, more)[i],
{
    assert(view.candidates(query, k) == view.candidates(query, more));
}

/// A search is as wide as the number of hits asked for where that is more than the
/// candidate-list size: it is then the same as with a candidate-list size of that
/// number.
pub proof fn law_search_is_at_least_as_wide_as_asked(
    view: HnswView,
    query: Seq<Single>,
    k: usize,
)
    requires
        k >= view.config.ef_search,
    ensures
        view.hits(query, k as nat) == view.tuned(k).hits(query, k as nat),
{
    assert(view.tuned(k).space() == view.space());
    assert(view.nearest(query, k as nat) == view.tuned(k).nearest(query, k as nat));
    assert(view.hits(query, k as nat) =~= view.tuned(k).hits(query, k as nat));
}

/// Setting the candidate-list size sets it, and nothing else.
pub proof fn law_tuning_sets_the_width(view: HnswView, ef_search: usize)
    ensures
        ({
            let after = view.tuned(ef_search);
            &&& after.config.ef_search == ef_search
            &&& after.config.m == view.config.m
            &&& after.config.ef_construction == view.config.ef_construction
            &&& after.config.seed == view.config.seed
            &&& after.dim == view.dim
            &&& after.metric == view.metric
            &&& after.ids == view.ids
            &&& after.vectors == view.vectors
            &&& after.payloads == view.payloads
            &&& after.links == view.links
            &&& after.entry == view.entry
            &&& after.max_layer == view.max_layer
            &&& after.rng == view.rng
            &&& after.distance == view.distance
            &&& after.level == view.level
        }),
{
}

/// An index can hold as many vectors as there are numbers of thirty-two bits,
/// whenever twice the connection target can be counted.
pub proof fn law_capacity_is_all_numbers_of_a_node(view: HnswView)
    requires
        2 * view.config.m <= usize::MAX,
    ensures
        view.capacity() == 0x1_0000_0000,
{
}

/// An empty index holds nothing, starts the generator from the seed, and answers
/// every search with nothing.
pub proof fn law_empty_index_answers_nothing(
    dim: nat,
    metric: Metric,
    config: HnswConfig,
    distance: spec_fn(Seq<Single>, Seq<Single>) -> Single,
    level: spec_fn(Double, usize) -> Double,
    query: Seq<Single>,
    k: nat,
    filter: Filter,
)
    ensures
        ({
            let view = HnswView::empty(dim, metric, config, distance, level);
            &&& view.dim == dim
            &&& view.metric == metric
            &&& view.config == config
            &&& view.ids.len() == 0
            &&& view.vectors.len() == 0
            &&& view.payloads.len() == 0
            &&& view.links.len() == 0
            &&& view.entry is None
            &&& view.max_layer == 0
            &&& view.rng == config.seed
            &&& view.distance == distance
            &&& view.level == level
            &&& view.hits(query, k).len() == 0
            &&& view.filtered_hits(query, k, filter).len() == 0
        }),
{
    let view = HnswView::empty(dim, metric, config, distance, level);
    let none = view.candidates(query, k);
    assert(none.len() == 0);
    none.lemma_filter_len(|s: Scored| filter.holds(view.payloads[s.node as int]));
}

/// What adding a vector does: it stands last, under its id, with its payload and its
/// layers; what was there before stays where it is; the generator makes one step; and
/// the new vector becomes the entry point exactly if it reaches higher than the graph
/// did, or is the first.
pub proof fn law_insert_adds_one_vector(
    view: HnswView,
    id: u64,
    vector: Seq<Single>,
    payload: Option<Fields>,
    v: int,
)
    requires
        view.well_formed(),
        view.ids.len() <= u32::MAX,
        vector.len() == view.dim,
        0 <= v < view.ids.len(),
    ensures
        ({
            let n = view.ids.len() as int;
            let after = view.inserted(id, vector, payload);
            &&& after.ids.len() == n + 1
            &&& after.ids[n] == id
            &&& after.vectors[n] == vector
            &&& after.payloads[n] == payload
            &&& after.links[n].len() == view.next_level() + 1
            &&& after.ids[v] == view.ids[v]
            &&& after.vectors[v] == view.vectors[v]
            &&& after.payloads[v] == view.payloads[v]
            &&& after.links[v].len() == view.links[v].len()
            &&& after.rng == view.rng.wrapping_add(0x9E37_79B9_7F4A_7C15)
            &&& after.dim == view.dim
            &&& after.metric == view.metric
            &&& after.config == view.config
            &&& after.distance == view.distance
            &&& after.level == view.level
            &&& if view.next_level() > view.max_layer {
                after.entry == Some(n as usize) && after.max_layer == view.next_level()
            } else {
                after.entry == view.entry && after.max_layer == view.max_layer
            }
        }),
{
    let level = view.next_level();
    let fresh = view.appended(id, vector, payload, level);
    lemma_appended(view, id, vector, payload, level);
    lemma_ready(view, id, vector, payload);
    let ep = fresh.space().descend(
        fresh.links,
        vector,
        view.entry->0,
        view.max_layer as int,
        level as int + 1,
    );
    let start = if level < view.max_layer {
        level
    } else {
        view.max_layer
    };
    crate::graph::lemma_connected(
        fresh.space(),
        fresh.links,
        vector,
        view.ids.len() as u32,
        seq![ep],
        ep,
        start as int,
        view.config.m as nat,
        view.config.ef_construction as nat,
    );
    assert(fresh.links[v] == view.links[v]);
}

/// A new vector is linked both ways. Where a stored vector is among its neighbours on
/// a layer, it is among the stored vector's, unless that had as many as it may have:
/// `2 * m` on the base layer, `m` above. Then the stored vector keeps a spread of the
/// nearest of them all. The neighbours of other vectors, and those on layers that the
/// new one does not reach, stay as they are.
pub proof fn law_insert_links_both_ways(
    view: HnswView,
    id: u64,
    vector: Seq<Single>,
    payload: Option<Fields>,
    v: int,
    l: int,
)
    requires
        view.well_formed(),
        view.ids.len() <= u32::MAX,
        vector.len() == view.dim,
        0 <= v < view.ids.len(),
        0 <= l < view.links[v].len(),
    ensures
        ({
            let n = view.ids.len() as int;
            let after = view.inserted(id, vector, payload);
            let limit = if l == 0 {
                2 * view.config.m as nat
            } else {
                view.config.m as nat
            };
            let old = view.links[v][l];
            let linked = l <= view.next_level() && after.links[n][l].contains(v as u32);
            &&& linked && old.len() < limit ==> after.links[v][l] == old.push(n as u32)
            &&& linked && old.len() >= limit ==> after.links[v][l] == after.space().pruned(
                v as usize,
                old.push(n as u32),
                limit,
            )
            &&& !linked ==> after.links[v][l] == old
        }),
{
    let level = view.next_level();
    let fresh = view.appended(id, vector, payload, level);
    let node = view.ids.len() as u32;
    lemma_appended(view, id, vector, payload, level);
    lemma_ready(view, id, vector, payload);
    let ep = fresh.space().descend(
        fresh.links,
        vector,
        view.entry->0,
        view.max_layer as int,
        level as int + 1,
    );
    let start = if level < view.max_layer {
        level
    } else {
        view.max_layer
    };
    assert(fresh.links[v] == view.links[v]);
    crate::graph::law_connecting_links_both_ways(
        fresh.space(),
        fresh.links,
        vector,
        node,
        seq![ep],
        ep,
        start as int,
        view.config.m as nat,
        view.config.ef_construction as nat,
        v,
        l,
    );
}

/// A search is never worse off than where it starts: neither the entry point nor the
/// end of the descent through the upper layers is nearer to the query than the first
/// hit.
pub proof fn law_first_hit_is_no_farther_than_the_entry(
    view: HnswView,
    query: Seq<Single>,
    k: nat,
)
    requires
        view.well_formed(),
        view.ids.len() <= usize::MAX,
        k > 0,
        view.entry is Some,
        forall|v: int|
            0 <= v < view.vectors.len() ==> !(view.distance)(
                query,
                #[trigger] view.vectors[v],
            ).nan(),
    ensures
        view.hits(query, k).len() > 0,
        !(view.distance)(query, view.vectors[view.entry->0 as int]).less(
            view.hits(query, k)[0].distance,
        ),
        !(view.distance)(
            query,
            view.vectors[view.space().descend(
                view.links,
                query,
                view.entry->0,
                view.max_layer as int,
                1,
            ) as int],
        ).less(view.hits(query, k)[0].distance),
{
    let entry = view.entry->0;
    let space = view.space();
    let ep = space.descend(view.links, query, entry, view.max_layer as int, 1);
    let ef = if view.config.ef_search < k {
        k
    } else {
        view.config.ef_search as nat
    };
    let t = space.terrain(view.links, query, 0);
    let n = view.links.len();
    let allowed = |v: usize| on_layer(view.links, v as int, 0) && None::<u32> != Some(v as u32);
    lemma_candidates(view, query, k);
    if view.max_layer >= 1 {
        crate::graph::law_descent_ends_at_a_local_optimum(
            space,
            view.links,
            query,
            entry,
            view.max_layer as int,
            1,
            0,
        );
    }
    crate::graph::lemma_terrain_closed(space, view.links, query, 0, None);
    assert(t.numeric(n)) by {
        assert forall|v: usize| v < n implies !(#[trigger] (t.dist)(v)).nan() by {
            assert(!(view.distance)(query, view.vectors[v as int]).nan());
        }
    }
    assert(seq![ep][0] == ep);
    crate::beam::law_search_is_no_farther_than_its_start(t, seq![ep], ef, n, allowed, 0);
    let found = view.candidates(query, k);
    assert(found[0].node < view.ids.len());
    assert(!(view.distance)(query, view.vectors[entry as int]).nan());
    assert(!(view.distance)(query, view.vectors[ep as int]).nan());
    assert(!(view.distance)(query, view.vectors[found[0].node as int]).nan());
}

/// A filtered search of an index that holds no more than `2 * m + 1` vectors, and no
/// more than the search is wide, finds the `k` nearest vectors among all whose payload
/// matches.
pub proof fn law_small_index_is_filtered_exactly(
    dim: nat,
    metric: Metric,
    config: HnswConfig,
    distance: spec_fn(Seq<Single>, Seq<Single>) -> Single,
    level: spec_fn(Double, usize) -> Double,
    additions: Seq<Addition>,
    query: Seq<Single>,
    k: nat,
    filter: Filter,
)
    requires
        dim > 0,
        config.m >= 2,
        config.ef_construction > 0,
        additions.len() <= u32::MAX + 1,
        additions.len() <= 2 * config.m + 1,
        additions.len() <= usize::MAX,
        config.ef_search >= additions.len() || k >= additions.len(),
        forall|i: int| 0 <= i < additions.len() ==> (#[trigger] additions[i]).1.len() == dim,
    ensures
        ({
            let view = built(HnswView::empty(dim, metric, config, distance, level), additions);
            let hits = view.filtered_hits(query, k, filter);
            let matching = vstd::set_lib::set_int_range(0, additions.len() as int).filter(
                |v: int| filter.holds(additions[v].2),
            );
            &&& nearest_first(hits)
            &&& hits.len() == if k < matching.len() {
                k
            } else {
                matching.len()
            }
            &&& exists|at: Seq<int>|
                {
                    &&& at.len() == hits.len()
                    &&& #[trigger] at.no_duplicates()
                    &&& forall|i: int|
                        0 <= i < at.len() ==> matching.contains(#[trigger] at[i]) && hits[i].id
                            == additions[at[i]].0 && hits[i].distance == distance(
                            query,
                            additions[at[i]].1,
                        )
                    &&& forall|v: int, i: int|
                        #[trigger] matching.contains(v) && !at.contains(v) && 0 <= i < hits.len()
                            ==> (#[trigger] hits[i]).distance.rank() <= distance(
                            query,
                            additions[v].1,
                        ).rank()
                }
        }),
{
    let view = built(HnswView::empty(dim, metric, config, distance, level), additions);
    let hits = view.filtered_hits(query, k, filter);
    let n = additions.len() as int;
    law_small_index_is_joined(dim, metric, config, distance, level, additions);
    law_built_index_is_well_formed(dim, metric, config, distance, level, additions);
    lemma_built_keeps_parameters(dim, metric, config, distance, level, additions);
    law_wide_filtered_search_is_exact(view, query, k, filter);
    let range = vstd::set_lib::set_int_range(0, n);
    let stored = range.filter(|v: int| filter.holds(view.payloads[v]));
    let matching = range.filter(|v: int| filter.holds(additions[v].2));
    assert forall|v: int| stored.contains(v) == matching.contains(v) by {
        if 0 <= v < n {
            assert(view.payloads[v] == additions[v].2);
        }
    }
    assert(stored =~= matching);
    let at = choose|at: Seq<int>|
        {
            &&& #[trigger] hits_are_at(hits, at, view.ids, view.vectors, query, view.distance)
            &&& forall|i: int| 0 <= i < at.len() ==> filter.holds(view.payloads[#[trigger] at[i]])
            &&& forall|v: int, i: int|
                stored.contains(v) && !at.contains(v) && 0 <= i < hits.len() ==> (
                #[trigger] hits[i]).distance.rank() <= (#[trigger] (view.distance)(
                    query,
                    view.vectors[v],
                )).rank()
        };
    assert(at.no_duplicates());
    assert forall|i: int| 0 <= i < at.len() implies matching.contains(#[trigger] at[i])
        && hits[i].id == additions[at[i]].0 && hits[i].distance == distance(
        query,
        additions[at[i]].1,
    ) by {
        assert(0 <= at[i] < n);
        assert(view.payloads[at[i]] == additions[at[i]].2);
    }
    assert forall|v: int, i: int|
        #[trigger] matching.contains(v) && !at.contains(v) && 0 <= i < hits.len() implies (
    #[trigger] hits[i]).distance.rank() <= distance(query, additions[v].1).rank() by {
        assert(stored.contains(v));
        assert(view.vectors[v] == additions[v].1);
        assert(hits[i].distance.rank() <= (view.distance)(query, view.vectors[v]).rank());
    }
}

/// How high a new vector reaches: to the layer that is the integer part of the height
/// that is given for a draw from the open unit interval, and at most to the layer 32.
/// The draw is made from the next state of the generator.
pub proof fn law_level_is_the_integer_part_of_a_height(view: HnswView)
    ensures
        view.next_level() <= 32,
        ({
            let b = (scramble(next_state(view.rng)) >> 11) as nat;
            let u = Double { bits: open_unit_bits(b) as u64 };
            let height = (view.level)(u, view.config.m);
            &&& height.nan() ==> view.next_level() == 0
            &&& height.bits == 0x7FF0_0000_0000_0000 ==> view.next_level() == 32
            &&& height.finite() && height.units() < 0 ==> view.next_level() == 0
            &&& height.finite() && height.units() >= 0 ==> {
                &&& view.next_level() * double_one() <= height.units()
                &&& view.next_level() < 32 ==> height.units() < (view.next_level() + 1)
                    * double_one()
            }
        }),
{
    let b = (scramble(next_state(view.rng)) >> 11) as nat;
    let u = Double { bits: open_unit_bits(b) as u64 };
    let height = (view.level)(u, view.config.m);
    if height.finite() {
        crate::exact::law_integer_part_is_the_floor(height, MAX_LEVEL as nat);
    }
}

/// What a well-formed index is: its ids, vectors, payloads and nodes are as many; every
/// vector has its dimension; a link leads to another node that reaches its layer, and
/// no node has two links to one on a layer; a node has at most `2 * m` links on the base
/// layer and `m` on every other; no node reaches above the layer 32 or above the entry
/// point, and an index that is not empty has an entry point.
pub proof fn law_well_formed_means(view: HnswView, v: int, l: int, i: int, j: int)
    requires
        view.well_formed(),
        0 <= v < view.ids.len(),
        0 <= l < view.links[v].len(),
        0 <= i < j < view.links[v][l].len(),
    ensures
        view.vectors.len() == view.ids.len(),
        view.payloads.len() == view.ids.len(),
        view.links.len() == view.ids.len(),
        view.vectors[v].len() == view.dim,
        ({
            let to = view.links[v][l][i];
            &&& to < view.ids.len()
            &&& to != v
            &&& l < view.links[to as int].len()
            &&& to != view.links[v][l][j]
        }),
        view.links[v][l].len() <= if l == 0 {
            2 * view.config.m
        } else {
            view.config.m as int
        },
        view.links[v].len() <= 33,
        view.entry is Some,
        view.entry->0 < view.ids.len(),
        view.links[v].len() <= view.links[view.entry->0 as int].len(),
{
    assert(crate::graph::list_ok(view.links, v, l));
    assert(on_layer(view.links, view.links[v][l][i] as int, l));
    assert(view.links[v][l].len() <= cap(view.config.m as nat, l as nat));
}

/// A new vector is linked to the nearest one: where the base layer leads from every
/// vector to every other and the candidate list for inserts is as long as the index is
/// large, the first neighbour of the new vector on the base layer is a stored vector
/// than which none is nearer to it.
pub proof fn law_added_vector_is_linked_to_the_nearest(
    view: HnswView,
    id: u64,
    vector: Seq<Single>,
    payload: Option<Fields>,
    v: int,
)
    requires
        view.well_formed(),
        base_layer_is_joined(view.links),
        0 < view.ids.len() <= u32::MAX,
        vector.len() == view.dim,
        view.config.ef_construction >= view.ids.len(),
        0 <= v < view.ids.len(),
    ensures
        ({
            let first = view.inserted(id, vector, payload).links[view.ids.len() as int][0];
            &&& first.len() > 0
            &&& first[0] < view.ids.len()
            &&& (view.distance)(vector, view.vectors[first[0] as int]).rank() <= (view.distance)(
                vector,
                view.vectors[v],
            ).rank()
        }),
{
    let level = view.next_level();
    let fresh = view.appended(id, vector, payload, level);
    let node = view.ids.len() as u32;
    let start = if level < view.max_layer {
        level
    } else {
        view.max_layer
    };
    lemma_appended(view, id, vector, payload, level);
    lemma_ready(view, id, vector, payload);
    lemma_fresh_is_joined(view, id, vector, payload, level);
    let ep = fresh.space().descend(
        fresh.links,
        vector,
        view.entry->0,
        view.max_layer as int,
        level as int + 1,
    );
    crate::graph::law_connecting_links_to_the_nearest(
        fresh.space(),
        fresh.links,
        vector,
        node,
        seq![ep],
        ep,
        start as int,
        view.config.m as nat,
        view.config.ef_construction as nat,
        v as usize,
    );
    let first = view.inserted(id, vector, payload).links[view.ids.len() as int][0];
    assert(fresh.vectors[first[0] as int] == view.vectors[first[0] as int]);
    assert(fresh.vectors[v] == view.vectors[v]);
}

/// The first vector of an index is its entry point, on all layers up to the one that it
/// is given, and nothing is linked to it.
pub proof fn law_first_vector_is_the_entry(
    view: HnswView,
    id: u64,
    vector: Seq<Single>,
    payload: Option<Fields>,
)
    requires
        view.well_formed(),
        view.ids.len() == 0,
    ensures
        ({
            let after = view.inserted(id, vector, payload);
            &&& after.ids == seq![id]
            &&& after.vectors == seq![vector]
            &&& after.payloads == seq![payload]
            &&& after.links.len() == 1
            &&& after.links[0].len() == view.next_level() + 1
            &&& forall|l: int|
                0 <= l <= view.next_level() ==> (#[trigger] after.links[0][l]).len() == 0
            &&& after.entry == Some(0usize)
            &&& after.max_layer == view.next_level()
            &&& after.rng == view.rng.wrapping_add(0x9E37_79B9_7F4A_7C15)
            &&& after.dim == view.dim
            &&& after.metric == view.metric
            &&& after.config == view.config
            &&& after.distance == view.distance
            &&& after.level == view.level
        }),
{
    let after = view.inserted(id, vector, payload);
    assert(view.entry is None);
    assert(after.ids =~= seq![id]);
    assert(after.vectors =~= seq![vector]);
    assert(after.payloads =~= seq![payload]);
}

/// A search looks no further than its width: it has at most as many candidates as the
/// greater of the search parameter and the number of hits that is asked for.
pub proof fn law_candidates_are_within_the_width(view: HnswView, query: Seq<Single>, k: nat)
    requires
        view.well_formed(),
    ensures
        view.candidates(query, k).len() <= view.config.ef_search || view.candidates(
            query,
            k,
        ).len() <= k,
{
    lemma_candidates(view, query, k);
}

} // verus!
