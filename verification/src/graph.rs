//! The layered neighbour graph as a mathematical object: how a layer is
//! searched, which neighbours a node is given, and how a node is wired in.

use crate::beam::Terrain;
use crate::float::Single;
use crate::order::{distinct_nodes, has_node, sort, sorted, Scored};
use vstd::prelude::*;

verus! {

/// The neighbours of every node: `links[v][l]` lists those of `v` on layer `l`.
pub type Links = Seq<Seq<Seq<u32>>>;

/// How many neighbours a node may have on a layer: the base layer carries the
/// most connections.
pub open spec fn cap(m: nat, layer: nat) -> nat {
    if layer == 0 {
        2 * m
    } else {
        m
    }
}

/// The node exists and reaches up to `layer`.
pub open spec fn on_layer(links: Links, v: int, layer: int) -> bool {
    0 <= v < links.len() && layer < links[v].len()
}

/// The neighbours of `v` on layer `l` are distinct nodes of that layer other
/// than `v`.
pub open spec fn list_ok(links: Links, v: int, l: int) -> bool {
    &&& links[v][l].no_duplicates()
    &&& forall|j: int|
        0 <= j < links[v][l].len() ==> on_layer(links, #[trigger] links[v][l][j] as int, l)
            && links[v][l][j] != v
}

/// Every list of neighbours is in order.
pub open spec fn well_linked(links: Links) -> bool {
    forall|v: int, l: int|
        0 <= v < links.len() && 0 <= l < links[v].len() ==> #[trigger] list_ok(links, v, l)
}

/// No list of neighbours is longer than its layer allows.
pub open spec fn capped(links: Links, m: nat) -> bool {
    forall|v: int, l: int|
        0 <= v < links.len() && 0 <= l < links[v].len() ==> (#[trigger] links[v][l]).len() <= cap(
            m,
            l as nat,
        )
}

/// Nobody but `node` itself lists `node` on layer `l`.
pub open spec fn unlinked_on(links: Links, node: u32, l: int) -> bool {
    forall|v: int|
        0 <= v < links.len() && l < links[v].len() ==> !(#[trigger] links[v][l]).contains(node)
}

/// The stored vectors and the way to measure between them.
pub struct Space {
    /// The stored vectors.
    pub vectors: Seq<Seq<Single>>,
    /// The distance between two vectors.
    pub distance: spec_fn(Seq<Single>, Seq<Single>) -> Single,
}

impl Space {
    /// The distance between two stored vectors.
    pub open spec fn between(self, a: usize, b: usize) -> Single {
        (self.distance)(self.vectors[a as int], self.vectors[b as int])
    }

    /// One layer of the graph as seen from a query.
    pub open spec fn terrain(self, links: Links, query: Seq<Single>, layer: nat) -> Terrain {
        Terrain {
            dist: |v: usize| (self.distance)(query, self.vectors[v as int]),
            neighbours: |v: usize| links[v as int][layer as int],
        }
    }

    /// The nodes that a search of one layer finds.
    pub open spec fn search_layer(
        self,
        links: Links,
        query: Seq<Single>,
        entry_points: Seq<usize>,
        ef: nat,
        layer: nat,
    ) -> Seq<Scored> {
        self.terrain(links, query, layer).search(entry_points, ef, links.len())
    }

    /// The node at which a greedy walk from `ep` over one layer ends.
    pub open spec fn nearest_on(
        self,
        links: Links,
        query: Seq<Single>,
        ep: usize,
        layer: nat,
    ) -> usize {
        let found = self.search_layer(links, query, seq![ep], 1, layer);
        if found.len() > 0 {
            found[0].node
        } else {
            ep
        }
    }

    /// The node at which greedy walks from `ep` over the layers `top` down to
    /// `bottom`, one after the other, end.
    pub open spec fn descend(
        self,
        links: Links,
        query: Seq<Single>,
        ep: usize,
        top: int,
        bottom: int,
    ) -> usize
        decreases top - bottom + 1,
    {
        if top < bottom {
            ep
        } else {
            self.descend(
                links,
                query,
                self.nearest_on(links, query, ep, top as nat),
                top - 1,
                bottom,
            )
        }
    }

    /// A candidate is closer to a node that was already chosen than to the point
    /// that is being linked.
    pub open spec fn crowded(self, candidate: Scored, chosen: Seq<u32>) -> bool {
        exists|i: int|
            0 <= i < chosen.len() && self.between(
                candidate.node,
                #[trigger] chosen[i] as usize,
            ).less(candidate.dist)
    }

    /// The neighbours chosen among the first `count` candidates: in order, each
    /// that is not crowded by the ones chosen before, up to `m` of them.
    pub open spec fn chosen_among(self, candidates: Seq<Scored>, m: nat, count: nat) -> Seq<u32>
        decreases count,
    {
        if count == 0 {
            Seq::empty()
        } else {
            let before = self.chosen_among(candidates, m, (count - 1) as nat);
            let candidate = candidates[count - 1];
            if before.len() < m && !self.crowded(candidate, before) {
                before.push(candidate.node as u32)
            } else {
                before
            }
        }
    }

    /// The neighbours chosen among candidates that stand nearest first.
    pub open spec fn choose_neighbours(self, candidates: Seq<Scored>, m: nat) -> Seq<u32> {
        self.chosen_among(candidates, m, candidates.len())
    }

    /// Nodes with their distances from `base`.
    pub open spec fn scored_from(self, base: usize, nodes: Seq<u32>) -> Seq<Scored> {
        Seq::new(
            nodes.len(),
            |i: int|
                Scored { dist: self.between(base, nodes[i] as usize), node: nodes[i] as usize },
        )
    }

    /// The neighbours that `base` keeps out of `nodes`.
    pub open spec fn pruned(self, base: usize, nodes: Seq<u32>, m: nat) -> Seq<u32> {
        self.choose_neighbours(sort(self.scored_from(base, nodes)), m)
    }

    /// The neighbours of `base` after `node` was added to them, pruned if they
    /// have become more than `limit`.
    pub open spec fn attached(self, base: usize, nodes: Seq<u32>, node: u32, limit: nat) -> Seq<
        u32,
    > {
        let longer = nodes.push(node);
        if longer.len() > limit {
            self.pruned(base, longer, limit)
        } else {
            longer
        }
    }

    /// The graph after `node` was given the neighbours `chosen` on `layer`, and
    /// each of those in `done` was given `node`.
    pub open spec fn partly_wired(
        self,
        links: Links,
        node: u32,
        layer: int,
        chosen: Seq<u32>,
        done: Seq<u32>,
        limit: nat,
    ) -> Links {
        Seq::new(
            links.len(),
            |v: int|
                if v == node {
                    links[v].update(layer, chosen)
                } else if done.contains(v as u32) {
                    links[v].update(
                        layer,
                        self.attached(v as usize, links[v][layer], node, limit),
                    )
                } else {
                    links[v]
                },
        )
    }

    /// The graph after `node` was given the neighbours `chosen` on `layer`, and
    /// each of them was given `node`.
    pub open spec fn wired(
        self,
        links: Links,
        node: u32,
        layer: int,
        chosen: Seq<u32>,
        limit: nat,
    ) -> Links {
        self.partly_wired(links, node, layer, chosen, chosen, limit)
    }

    /// The graph after `node`, whose vector is `query`, was wired in on `layer`
    /// and every layer below. On each layer the search starts from what was
    /// found on the layer above.
    pub open spec fn connected(
        self,
        links: Links,
        query: Seq<Single>,
        node: u32,
        entry_points: Seq<usize>,
        fallback: usize,
        layer: int,
        m: nat,
        ef: nat,
    ) -> Links
        decreases layer + 1,
    {
        if layer < 0 {
            links
        } else {
            let found = self.search_layer(links, query, entry_points, ef, layer as nat);
            let limit = cap(m, layer as nat);
            let chosen = self.choose_neighbours(found, limit);
            self.connected(
                self.wired(links, node, layer, chosen, limit),
                query,
                node,
                next_entry_points(found, fallback),
                fallback,
                layer - 1,
                m,
                ef,
            )
        }
    }
}

/// A well-linked layer leads from its nodes to its nodes.
pub proof fn lemma_terrain_closed(
    space: Space,
    links: Links,
    query: Seq<Single>,
    layer: nat,
    avoid: Option<u32>,
)
    requires
        well_linked(links),
        avoid matches Some(node) ==> unlinked_on(links, node, layer as int),
    ensures
        space.terrain(links, query, layer).closed_under(
            links.len(),
            |v: usize| on_layer(links, v as int, layer as int) && avoid != Some(v as u32),
        ),
{
    let t = space.terrain(links, query, layer);
    assert forall|v: usize, j: int|
        v < links.len() && on_layer(links, v as int, layer as int) && avoid != Some(v as u32) && 0
            <= j < (t.neighbours)(v).len() implies (#[trigger] (t.neighbours)(v)[j]) < links.len()
        && on_layer(links, ((t.neighbours)(v)[j] as usize) as int, layer as int) && avoid != Some(
        ((t.neighbours)(v)[j] as usize) as u32,
    ) by {
        assert(list_ok(links, v as int, layer as int));
        let e = links[v as int][layer as int][j];
        assert(on_layer(links, e as int, layer as int));
        if avoid is Some {
            assert(!links[v as int][layer as int].contains(avoid->0));
            assert(links[v as int][layer as int].contains(e));
        }
    }
}

/// What a search of one layer finds: distinct nodes of that layer, nearest
/// first, with their distances.
pub proof fn lemma_search_layer(
    space: Space,
    links: Links,
    query: Seq<Single>,
    entry_points: Seq<usize>,
    ef: nat,
    layer: nat,
    avoid: Option<u32>,
)
    requires
        well_linked(links),
        avoid matches Some(node) ==> unlinked_on(links, node, layer as int),
        entry_points.no_duplicates(),
        forall|j: int|
            0 <= j < entry_points.len() ==> on_layer(
                links,
                #[trigger] entry_points[j] as int,
                layer as int,
            ) && avoid != Some(entry_points[j] as u32),
    ensures
        ({
            let found = space.search_layer(links, query, entry_points, ef, layer);
            &&& sorted(found)
            &&& distinct_nodes(found)
            &&& found.len() <= ef
            &&& entry_points.len() > 0 && ef > 0 ==> found.len() > 0
            &&& forall|i: int|
                0 <= i < found.len() ==> on_layer(
                    links,
                    (#[trigger] found[i]).node as int,
                    layer as int,
                ) && avoid != Some(found[i].node as u32) && found[i].dist == (space.distance)(
                    query,
                    space.vectors[found[i].node as int],
                )
        }),
{
    let t = space.terrain(links, query, layer);
    let allowed = |v: usize| on_layer(links, v as int, layer as int) && avoid != Some(v as u32);
    lemma_terrain_closed(space, links, query, layer, avoid);
    crate::beam::law_search_result(t, entry_points, ef, links.len(), allowed);
    let found = space.search_layer(links, query, entry_points, ef, layer);
    assert forall|i: int| 0 <= i < found.len() implies on_layer(
        links,
        (#[trigger] found[i]).node as int,
        layer as int,
    ) && avoid != Some(found[i].node as u32) && found[i].dist == (space.distance)(
        query,
        space.vectors[found[i].node as int],
    ) by {
        assert(found[i] == t.score(found[i].node));
        assert(allowed(found[i].node));
    }
}

/// A greedy walk ends on the layer that it walks.
pub proof fn lemma_nearest_on(
    space: Space,
    links: Links,
    query: Seq<Single>,
    ep: usize,
    layer: nat,
    avoid: Option<u32>,
)
    requires
        well_linked(links),
        avoid matches Some(node) ==> unlinked_on(links, node, layer as int),
        on_layer(links, ep as int, layer as int),
        avoid != Some(ep as u32),
    ensures
        on_layer(links, space.nearest_on(links, query, ep, layer) as int, layer as int),
        avoid != Some(space.nearest_on(links, query, ep, layer) as u32),
{
    lemma_search_layer(space, links, query, seq![ep], 1, layer, avoid);
}

/// Which neighbours are chosen: distinct candidates, at most `m`, and the
/// nearest candidate first.
pub proof fn lemma_chosen_among(space: Space, candidates: Seq<Scored>, m: nat, count: nat)
    requires
        count <= candidates.len(),
        distinct_nodes(candidates),
        forall|i: int| 0 <= i < candidates.len() ==> (#[trigger] candidates[i]).node <= u32::MAX,
    ensures
        space.chosen_among(candidates, m, count).len() <= m,
        space.chosen_among(candidates, m, count).len() <= count,
        space.chosen_among(candidates, m, count).no_duplicates(),
        forall|i: int|
            0 <= i < space.chosen_among(candidates, m, count).len() ==> exists|j: int|
                0 <= j < count && (#[trigger] candidates[j]).node == #[trigger] space.chosen_among(
                    candidates,
                    m,
                    count,
                )[i],
        count > 0 && m > 0 ==> space.chosen_among(candidates, m, count).len() > 0
            && space.chosen_among(candidates, m, count)[0] == candidates[0].node,
    decreases count,
{
    if count > 0 {
        let before = space.chosen_among(candidates, m, (count - 1) as nat);
        let after = space.chosen_among(candidates, m, count);
        let candidate = candidates[count - 1];
        lemma_chosen_among(space, candidates, m, (count - 1) as nat);
        if before.len() < m && !space.crowded(candidate, before) {
            assert forall|i: int, j: int|
                0 <= i < after.len() && 0 <= j < after.len() && i != j implies after[i]
                != after[j] by {
                if i == before.len() {
                    let k = choose|k: int|
                        0 <= k < count - 1 && (#[trigger] candidates[k]).node == before[j];
                    assert(candidates[k].node != candidates[count - 1].node);
                } else if j == before.len() {
                    let k = choose|k: int|
                        0 <= k < count - 1 && (#[trigger] candidates[k]).node == before[i];
                    assert(candidates[k].node != candidates[count - 1].node);
                }
            }
            assert forall|i: int| 0 <= i < after.len() implies exists|j: int|
                0 <= j < count && (#[trigger] candidates[j]).node == #[trigger] after[i] by {
                if i < before.len() {
                    let k = choose|k: int|
                        0 <= k < count - 1 && (#[trigger] candidates[k]).node == before[i];
                    assert(candidates[k].node == after[i]);
                } else {
                    assert(candidates[count - 1].node == after[i]);
                }
            }
        } else {
            assert forall|i: int| 0 <= i < after.len() implies exists|j: int|
                0 <= j < count && (#[trigger] candidates[j]).node == #[trigger] after[i] by {
                let k = choose|k: int|
                    0 <= k < count - 1 && (#[trigger] candidates[k]).node == before[i];
                assert(candidates[k].node == after[i]);
            }
            if count == 1 {
                assert(before.len() == 0);
                assert(!space.crowded(candidate, before));
            }
        }
    }
}

/// The chosen neighbours are spread out: none of them is closer to one that was
/// chosen before it than to the point that is being linked.
pub proof fn law_chosen_neighbours_are_spread(
    space: Space,
    candidates: Seq<Scored>,
    m: nat,
    count: nat,
    i: int,
    j: int,
)
    requires
        count <= candidates.len(),
        distinct_nodes(candidates),
        forall|k: int| 0 <= k < candidates.len() ==> (#[trigger] candidates[k]).node <= u32::MAX,
        0 <= i < j < space.chosen_among(candidates, m, count).len(),
    ensures
        ({
            let chosen = space.chosen_among(candidates, m, count);
            exists|k: int|
                0 <= k < count && (#[trigger] candidates[k]).node == chosen[j] && !space.between(
                    candidates[k].node,
                    chosen[i] as usize,
                ).less(candidates[k].dist)
        }),
    decreases count,
{
    if count > 0 {
        let before = space.chosen_among(candidates, m, (count - 1) as nat);
        let chosen = space.chosen_among(candidates, m, count);
        if j < before.len() {
            law_chosen_neighbours_are_spread(space, candidates, m, (count - 1) as nat, i, j);
            let k = choose|k: int|
                0 <= k < count - 1 && (#[trigger] candidates[k]).node == before[j]
                    && !space.between(candidates[k].node, before[i] as usize).less(
                    candidates[k].dist,
                );
            assert(candidates[k].node == chosen[j]);
        } else {
            let candidate = candidates[count - 1];
            assert(candidate.node == chosen[j]);
            assert(chosen[i] == before[i]);
            assert(!space.crowded(candidate, before));
        }
    }
}

/// What is left of a list of neighbours after pruning: distinct members of it,
/// at most `m` of them.
pub proof fn lemma_pruned(space: Space, base: usize, nodes: Seq<u32>, m: nat)
    requires
        nodes.no_duplicates(),
    ensures
        space.pruned(base, nodes, m).len() <= m,
        space.pruned(base, nodes, m).no_duplicates(),
        forall|i: int|
            0 <= i < space.pruned(base, nodes, m).len() ==> nodes.contains(
                #[trigger] space.pruned(base, nodes, m)[i],
            ),
{
    let scored = space.scored_from(base, nodes);
    let candidates = sort(scored);
    crate::order::lemma_sort(scored);
    assert(distinct_nodes(scored)) by {
        assert forall|i: int, j: int| 0 <= i < j < scored.len() implies (#[trigger] scored[i]).node
            != (#[trigger] scored[j]).node by {
            assert(nodes[i] != nodes[j]);
        }
    }
    crate::order::lemma_sort_nodes(scored);
    assert forall|i: int| 0 <= i < candidates.len() implies (#[trigger] candidates[i]).node
        <= u32::MAX && nodes.contains(candidates[i].node as u32) by {
        let j = choose|j: int| 0 <= j < scored.len() && scored[j] == candidates[i];
        assert(nodes[j] == candidates[i].node);
    }
    lemma_chosen_among(space, candidates, m, candidates.len());
    let kept = space.pruned(base, nodes, m);
    assert forall|i: int| 0 <= i < kept.len() implies nodes.contains(#[trigger] kept[i]) by {
        let j = choose|j: int| 0 <= j < candidates.len() && (#[trigger] candidates[j]).node
            == kept[i];
        assert(nodes.contains(candidates[j].node as u32));
    }
}

/// The graphs have the same nodes on the same layers.
pub open spec fn same_shape(a: Links, b: Links) -> bool {
    &&& a.len() == b.len()
    &&& forall|v: int| 0 <= v < a.len() ==> (#[trigger] a[v]).len() == b[v].len()
}

/// The graphs agree on every layer above `layer`.
pub open spec fn same_above(a: Links, b: Links, layer: int) -> bool {
    forall|v: int, l: int|
        0 <= v < a.len() && layer < l < a[v].len() ==> #[trigger] a[v][l] == b[v][l]
}

/// The graphs agree on every layer below `layer`.
pub open spec fn same_below(a: Links, b: Links, layer: int) -> bool {
    forall|v: int, l: int|
        0 <= v < a.len() && 0 <= l < layer && l < a[v].len() ==> #[trigger] a[v][l] == b[v][l]
}

/// The neighbours chosen for a node are fit to be wired on a layer.
pub open spec fn fit_to_wire(
    links: Links,
    node: u32,
    layer: int,
    chosen: Seq<u32>,
    limit: nat,
) -> bool {
    &&& on_layer(links, node as int, layer)
    &&& chosen.no_duplicates()
    &&& chosen.len() <= limit
    &&& forall|i: int|
        0 <= i < chosen.len() ==> on_layer(links, #[trigger] chosen[i] as int, layer) && chosen[i]
            != node
}

/// A list without repetition is still one with a node appended that it lacks.
proof fn lemma_longer_list(list: Seq<u32>, node: u32)
    requires
        list.no_duplicates(),
        !list.contains(node),
    ensures
        list.push(node).no_duplicates(),
{
    let longer = list.push(node);
    assert forall|i: int, j: int|
        0 <= i < longer.len() && 0 <= j < longer.len() && i != j implies longer[i] != longer[j] by {
        if i == list.len() {
            assert(list.contains(list[j]));
        } else if j == list.len() {
            assert(list.contains(list[i]));
        }
    }
}

/// Wiring a node in on one layer keeps the graph in order and touches no other
/// layer.
pub proof fn lemma_wired(
    space: Space,
    links: Links,
    node: u32,
    layer: int,
    chosen: Seq<u32>,
    m: nat,
)
    requires
        0 <= layer,
        links.len() <= u32::MAX + 1,
        well_linked(links),
        capped(links, m),
        unlinked_on(links, node, layer),
        fit_to_wire(links, node, layer, chosen, cap(m, layer as nat)),
    ensures
        ({
            let after = space.wired(links, node, layer, chosen, cap(m, layer as nat));
            &&& same_shape(links, after)
            &&& same_above(links, after, layer)
            &&& same_below(links, after, layer)
            &&& well_linked(after)
            &&& capped(after, m)
        }),
{
    let limit = cap(m, layer as nat);
    let after = space.wired(links, node, layer, chosen, limit);
    assert(same_shape(links, after));
    assert forall|v: int, l: int|
        0 <= v < after.len() && 0 <= l < after[v].len() implies #[trigger] list_ok(after, v, l) by {
        assert(list_ok(links, v, l));
        let old_list = links[v][l];
        let list = after[v][l];
        if l == layer && v == node {
            assert(list == chosen);
        } else if l == layer && chosen.contains(v as u32) {
            let longer = old_list.push(node);
            lemma_longer_list(old_list, node);
            lemma_pruned(space, v as usize, longer, limit);
            assert forall|j: int| 0 <= j < list.len() implies on_layer(
                after,
                #[trigger] list[j] as int,
                l,
            ) && list[j] != v by {
                if longer.len() > limit {
                    assert(longer.contains(list[j]));
                    let k = choose|k: int| 0 <= k < longer.len() && longer[k] == list[j];
                    if k < old_list.len() {
                        assert(old_list[k] == list[j]);
                        assert(on_layer(links, old_list[k] as int, l));
                    }
                } else if j < old_list.len() {
                    assert(on_layer(links, old_list[j] as int, l));
                }
            }
        } else {
            assert(list == old_list);
        }
        if list == old_list {
            assert forall|j: int| 0 <= j < list.len() implies on_layer(
                after,
                #[trigger] list[j] as int,
                l,
            ) && list[j] != v by {
                assert(on_layer(links, old_list[j] as int, l));
            }
        }
    }
    assert forall|v: int, l: int|
        0 <= v < after.len() && 0 <= l < after[v].len() implies (#[trigger] after[v][l]).len()
        <= cap(m, l as nat) by {
        assert(links[v][l].len() <= cap(m, l as nat));
        if l == layer && v != node && chosen.contains(v as u32) {
            assert(list_ok(links, v, l));
            let old_list = links[v][l];
            let longer = old_list.push(node);
            lemma_longer_list(old_list, node);
            lemma_pruned(space, v as usize, longer, limit);
        }
    }
}

/// The neighbours chosen among what a search of a layer found are fit to be
/// wired there.
pub proof fn lemma_found_is_fit(
    space: Space,
    links: Links,
    query: Seq<Single>,
    node: u32,
    entry_points: Seq<usize>,
    layer: int,
    m: nat,
    ef: nat,
)
    requires
        0 <= layer,
        links.len() <= u32::MAX + 1,
        well_linked(links),
        unlinked_on(links, node, layer),
        on_layer(links, node as int, layer),
        entry_points.no_duplicates(),
        forall|j: int|
            0 <= j < entry_points.len() ==> on_layer(
                links,
                #[trigger] entry_points[j] as int,
                layer,
            ) && entry_points[j] != node,
    ensures
        ({
            let found = space.search_layer(links, query, entry_points, ef, layer as nat);
            let limit = cap(m, layer as nat);
            &&& distinct_nodes(found)
            &&& forall|i: int|
                0 <= i < found.len() ==> on_layer(links, (#[trigger] found[i]).node as int, layer)
                    && found[i].node != node
            &&& fit_to_wire(links, node, layer, space.choose_neighbours(found, limit), limit)
            &&& found.len() > 0 && m > 0 ==> space.choose_neighbours(found, limit).len() > 0
            &&& entry_points.len() > 0 && ef > 0 ==> found.len() > 0
        }),
{
    let found = space.search_layer(links, query, entry_points, ef, layer as nat);
    let limit = cap(m, layer as nat);
    assert forall|j: int| 0 <= j < entry_points.len() implies on_layer(
        links,
        #[trigger] entry_points[j] as int,
        layer,
    ) && Some(node) != Some(entry_points[j] as u32) by {
        assert(entry_points[j] < links.len());
    }
    lemma_search_layer(space, links, query, entry_points, ef, layer as nat, Some(node));
    assert forall|i: int| 0 <= i < found.len() implies (#[trigger] found[i]).node <= u32::MAX
        && found[i].node != node by {
        assert(on_layer(links, found[i].node as int, layer));
    }
    lemma_chosen_among(space, found, limit, found.len());
    let chosen = space.choose_neighbours(found, limit);
    assert forall|i: int| 0 <= i < chosen.len() implies on_layer(
        links,
        #[trigger] chosen[i] as int,
        layer,
    ) && chosen[i] != node by {
        let j = choose|j: int| 0 <= j < found.len() && (#[trigger] found[j]).node == chosen[i];
        assert(on_layer(links, found[j].node as int, layer));
    }
}

/// The entry points for the layer below: distinct nodes of that layer.
pub open spec fn next_entry_points(found: Seq<Scored>, fallback: usize) -> Seq<usize> {
    if found.len() > 0 {
        found.map_values(|s: Scored| s.node)
    } else {
        seq![fallback]
    }
}

/// Where a node is to be wired in, and from where, on `layer` and below.
pub open spec fn ready_to_connect(
    links: Links,
    node: u32,
    entry_points: Seq<usize>,
    fallback: usize,
    layer: int,
) -> bool {
    &&& links.len() <= u32::MAX + 1
    &&& well_linked(links)
    &&& on_layer(links, node as int, layer)
    &&& forall|l: int| 0 <= l <= layer ==> #[trigger] unlinked_on(links, node, l)
    &&& entry_points.len() > 0
    &&& entry_points.no_duplicates()
    &&& forall|j: int|
        0 <= j < entry_points.len() ==> on_layer(links, #[trigger] entry_points[j] as int, layer)
            && entry_points[j] != node
    &&& on_layer(links, fallback as int, layer)
    &&& fallback != node
}

/// One layer of wiring leaves the graph ready for the next.
pub proof fn lemma_wire_one_layer(
    space: Space,
    links: Links,
    query: Seq<Single>,
    node: u32,
    entry_points: Seq<usize>,
    fallback: usize,
    layer: int,
    m: nat,
    ef: nat,
)
    requires
        0 <= layer,
        capped(links, m),
        ready_to_connect(links, node, entry_points, fallback, layer),
    ensures
        ({
            let found = space.search_layer(links, query, entry_points, ef, layer as nat);
            let limit = cap(m, layer as nat);
            let chosen = space.choose_neighbours(found, limit);
            let after = space.wired(links, node, layer, chosen, limit);
            &&& fit_to_wire(links, node, layer, chosen, limit)
            &&& same_shape(links, after)
            &&& same_above(links, after, layer)
            &&& well_linked(after)
            &&& capped(after, m)
            &&& ready_to_connect(
                after,
                node,
                next_entry_points(found, fallback),
                fallback,
                layer - 1,
            )
        }),
{
    let found = space.search_layer(links, query, entry_points, ef, layer as nat);
    let limit = cap(m, layer as nat);
    let chosen = space.choose_neighbours(found, limit);
    let after = space.wired(links, node, layer, chosen, limit);
    let next = next_entry_points(found, fallback);
    assert(unlinked_on(links, node, layer));
    lemma_found_is_fit(space, links, query, node, entry_points, layer, m, ef);
    lemma_wired(space, links, node, layer, chosen, m);
    assert forall|l: int| 0 <= l <= layer - 1 implies #[trigger] unlinked_on(after, node, l) by {
        assert(unlinked_on(links, node, l));
        assert forall|v: int| 0 <= v < after.len() && l < after[v].len() implies !(
        #[trigger] after[v][l]).contains(node) by {
            assert(links[v][l] == after[v][l]);
        }
    }
    assert(next.no_duplicates()) by {
        if found.len() > 0 {
            assert forall|i: int, j: int|
                0 <= i < next.len() && 0 <= j < next.len() && i != j implies next[i] != next[j] by {
                assert(found[i].node != found[j].node);
            }
        }
    }
    assert forall|j: int| 0 <= j < next.len() implies on_layer(
        after,
        #[trigger] next[j] as int,
        layer - 1,
    ) && next[j] != node by {
        if found.len() > 0 {
            assert(on_layer(links, found[j].node as int, layer));
        }
    }
}

/// Wiring a node in keeps the graph in order and touches no layer above the one
/// that it starts on.
pub proof fn lemma_connected(
    space: Space,
    links: Links,
    query: Seq<Single>,
    node: u32,
    entry_points: Seq<usize>,
    fallback: usize,
    layer: int,
    m: nat,
    ef: nat,
)
    requires
        capped(links, m),
        ready_to_connect(links, node, entry_points, fallback, layer),
    ensures
        ({
            let after = space.connected(
                links,
                query,
                node,
                entry_points,
                fallback,
                layer,
                m,
                ef,
            );
            &&& same_shape(links, after)
            &&& same_above(links, after, layer)
            &&& well_linked(after)
            &&& capped(after, m)
        }),
    decreases layer + 1,
{
    if layer >= 0 {
        let found = space.search_layer(links, query, entry_points, ef, layer as nat);
        let limit = cap(m, layer as nat);
        let chosen = space.choose_neighbours(found, limit);
        let mid = space.wired(links, node, layer, chosen, limit);
        lemma_wire_one_layer(
            space,
            links,
            query,
            node,
            entry_points,
            fallback,
            layer,
            m,
            ef,
        );
        lemma_connected(
            space,
            mid,
            query,
            node,
            next_entry_points(found, fallback),
            fallback,
            layer - 1,
            m,
            ef,
        );
    }
}

/// Giving one more neighbour the new node.
pub proof fn lemma_wire_one_neighbour(
    space: Space,
    links: Links,
    node: u32,
    layer: int,
    chosen: Seq<u32>,
    k: int,
    limit: nat,
)
    requires
        0 <= layer,
        0 <= k < chosen.len(),
        links.len() <= u32::MAX + 1,
        fit_to_wire(links, node, layer, chosen, limit),
    ensures
        ({
            let before = space.partly_wired(links, node, layer, chosen, chosen.take(k), limit);
            let nb = chosen[k] as int;
            &&& on_layer(links, nb, layer)
            &&& nb != node
            &&& before.len() == links.len()
            &&& before[nb] == links[nb]
            &&& space.partly_wired(links, node, layer, chosen, chosen.take(k + 1), limit)
                == before.update(
                nb,
                before[nb].update(
                    layer,
                    space.attached(nb as usize, links[nb][layer], node, limit),
                ),
            )
        }),
{
    let before = space.partly_wired(links, node, layer, chosen, chosen.take(k), limit);
    let after = space.partly_wired(links, node, layer, chosen, chosen.take(k + 1), limit);
    let nb = chosen[k] as int;
    assert(on_layer(links, chosen[k] as int, layer));
    assert(!chosen.take(k).contains(chosen[k])) by {
        if chosen.take(k).contains(chosen[k]) {
            let i = choose|i: int| 0 <= i < k && chosen.take(k)[i] == chosen[k];
            assert(chosen[i] == chosen[k]);
        }
    }
    let longer = chosen.take(k + 1);
    let shorter = chosen.take(k);
    assert(longer =~= shorter.push(chosen[k]));
    assert forall|v: int| 0 <= v < links.len() && v != nb implies longer.contains(v as u32)
        == #[trigger] shorter.contains(v as u32) by {
        if longer.contains(v as u32) {
            let i = choose|i: int| 0 <= i < longer.len() && longer[i] == v as u32;
            assert(i < k);
            assert(shorter[i] == v as u32);
        }
        if shorter.contains(v as u32) {
            let i = choose|i: int| 0 <= i < shorter.len() && shorter[i] == v as u32;
            assert(longer[i] == v as u32);
        }
    }
    assert(longer[k] == nb as u32);
    assert(after =~= before.update(
        nb,
        before[nb].update(layer, space.attached(nb as usize, links[nb][layer], node, limit)),
    ));
}

/// Greedy walks from `ep` over the layers `top` down to `bottom` end on the last
/// layer that they walk.
pub proof fn lemma_descend(
    space: Space,
    links: Links,
    query: Seq<Single>,
    ep: usize,
    top: int,
    bottom: int,
    avoid: Option<u32>,
)
    requires
        well_linked(links),
        0 <= bottom,
        avoid matches Some(node) ==> forall|l: int|
            bottom <= l <= top ==> #[trigger] unlinked_on(links, node, l),
        on_layer(links, ep as int, top),
        avoid != Some(ep as u32),
    ensures
        ({
            let end = space.descend(links, query, ep, top, bottom);
            &&& on_layer(
                links,
                end as int,
                if top < bottom {
                    top
                } else {
                    bottom
                },
            )
            &&& avoid != Some(end as u32)
        }),
    decreases top - bottom + 1,
{
    if top >= bottom {
        if avoid is Some {
            assert(unlinked_on(links, avoid->0, top));
        }
        lemma_nearest_on(space, links, query, ep, top as nat, avoid);
        let next = space.nearest_on(links, query, ep, top as nat);
        lemma_descend(space, links, query, next, top - 1, bottom, avoid);
    }
}

/// On every layer on which a node is wired in, it is given a neighbour.
pub proof fn lemma_connected_gives_neighbours(
    space: Space,
    links: Links,
    query: Seq<Single>,
    node: u32,
    entry_points: Seq<usize>,
    fallback: usize,
    layer: int,
    m: nat,
    ef: nat,
)
    requires
        m > 0,
        ef > 0,
        capped(links, m),
        ready_to_connect(links, node, entry_points, fallback, layer),
    ensures
        ({
            let after = space.connected(
                links,
                query,
                node,
                entry_points,
                fallback,
                layer,
                m,
                ef,
            );
            forall|l: int| 0 <= l <= layer ==> (#[trigger] after[node as int][l]).len() > 0
        }),
    decreases layer + 1,
{
    if layer >= 0 {
        let found = space.search_layer(links, query, entry_points, ef, layer as nat);
        let limit = cap(m, layer as nat);
        let chosen = space.choose_neighbours(found, limit);
        let mid = space.wired(links, node, layer, chosen, limit);
        let next = next_entry_points(found, fallback);
        assert(unlinked_on(links, node, layer));
        lemma_found_is_fit(space, links, query, node, entry_points, layer, m, ef);
        lemma_wire_one_layer(space, links, query, node, entry_points, fallback, layer, m, ef);
        lemma_connected_gives_neighbours(space, mid, query, node, next, fallback, layer - 1, m, ef);
        lemma_connected(space, mid, query, node, next, fallback, layer - 1, m, ef);
        let after = space.connected(mid, query, node, next, fallback, layer - 1, m, ef);
        assert(mid[node as int][layer] == chosen);
        assert(after[node as int][layer] == mid[node as int][layer]);
        assert forall|l: int| 0 <= l <= layer implies (#[trigger] after[node as int][l]).len()
            > 0 by {
            if l < layer {
                assert(0 <= l <= layer - 1);
            }
        }
    }
}

/// The base layer leads from every node to every other: a set of nodes that no
/// link leaves is empty or holds all of them.
pub open spec fn base_layer_is_joined(links: Links) -> bool {
    forall|s: Set<usize>| #[trigger]
        closed_on_base(links, s) && s.len() > 0 ==> forall|v: usize|
            v < links.len() ==> #[trigger] s.contains(v)
}

/// No link of the base layer leaves the set.
pub open spec fn closed_on_base(links: Links, s: Set<usize>) -> bool {
    &&& s.finite()
    &&& forall|v: usize| #[trigger] s.contains(v) ==> on_layer(links, v as int, 0)
    &&& forall|v: usize, j: int|
        s.contains(v) && 0 <= j < links[v as int][0].len() ==> s.contains(
            #[trigger] links[v as int][0][j] as usize,
        )
}

/// Where the base layer leads everywhere, a search of it from one of its nodes
/// finds as many nodes as it may: `ef`, or all there are.
pub proof fn lemma_joined_search(
    space: Space,
    links: Links,
    query: Seq<Single>,
    ep: usize,
    ef: nat,
)
    requires
        well_linked(links),
        base_layer_is_joined(links),
        on_layer(links, ep as int, 0),
        links.len() <= usize::MAX,
    ensures
        ({
            let found = space.search_layer(links, query, seq![ep], ef, 0);
            found.len() == ef || found.len() >= links.len()
        }),
{
    let found = space.search_layer(links, query, seq![ep], ef, 0);
    let t = space.terrain(links, query, 0);
    let n = links.len();
    let allowed = |v: usize| on_layer(links, v as int, 0) && None::<u32> != Some(v as u32);
    lemma_search_layer(space, links, query, seq![ep], ef, 0, None);
    lemma_terrain_closed(space, links, query, 0, None);
    if found.len() < ef {
        crate::beam::law_short_search_is_exhaustive(t, seq![ep], ef, n, allowed);
        let nodes = Seq::new(found.len(), |i: int| found[i].node);
        let s = nodes.to_set();
        assert(nodes.no_duplicates()) by {
            assert forall|i: int, j: int|
                0 <= i < nodes.len() && 0 <= j < nodes.len() && i != j implies nodes[i]
                != nodes[j] by {
                assert(found[i].node != found[j].node);
            }
        }
        nodes.unique_seq_to_set();
        assert forall|v: usize| has_node(found, v) == s.contains(v) by {
            if has_node(found, v) {
                let i = choose|i: int| 0 <= i < found.len() && (#[trigger] found[i]).node == v;
                assert(nodes[i] == v);
            }
            if s.contains(v) {
                let i = choose|i: int| 0 <= i < nodes.len() && nodes[i] == v;
                assert(found[i].node == v);
            }
        }
        assert(closed_on_base(links, s)) by {
            assert forall|v: usize| #[trigger] s.contains(v) implies on_layer(
                links,
                v as int,
                0,
            ) by {
                assert(has_node(found, v));
                let i = choose|i: int| 0 <= i < found.len() && (#[trigger] found[i]).node == v;
                assert(on_layer(links, found[i].node as int, 0));
            }
            assert forall|v: usize, j: int|
                s.contains(v) && 0 <= j < links[v as int][0].len() implies s.contains(
                #[trigger] links[v as int][0][j] as usize,
            ) by {
                assert(has_node(found, v));
                assert(has_node(found, (t.neighbours)(v)[j] as usize));
            }
        }
        assert(seq![ep][0] == ep);
        assert(has_node(found, ep));
        assert(s.contains(ep));
        assert(s.len() > 0) by {
            if s.len() == 0 {
                assert(s =~= Set::<usize>::empty());
            }
        }
        let all = Seq::new(n, |v: int| v as usize);
        assert(all.no_duplicates());
        all.unique_seq_to_set();
        assert(all.to_set().subset_of(s)) by {
            assert forall|v: usize| all.to_set().contains(v) implies s.contains(v) by {
                let i = choose|i: int| 0 <= i < all.len() && all[i] == v;
                assert(v < links.len());
            }
        }
        vstd::set_lib::lemma_len_subset(all.to_set(), s);
    }
}

/// The base layer leads from every node but one to every other but that one, as
/// long as it does not lead to that one.
pub open spec fn base_layer_is_joined_without(links: Links, node: u32) -> bool {
    forall|s: Set<usize>| #[trigger]
        closed_on_base(links, s) && s.len() > 0 && !s.contains(node as usize) ==> forall|v: usize|
            v < links.len() && v != node ==> #[trigger] s.contains(v)
}

/// Two nodes that a list leaves out make it that much shorter than the number of
/// all nodes.
proof fn lemma_list_is_short(list: Seq<u32>, n: nat, u: int, v: int)
    requires
        list.no_duplicates(),
        0 <= u < n,
        0 <= v < n,
        u != v,
        forall|j: int| 0 <= j < list.len() ==> (#[trigger] list[j]) < n && list[j] != u && list[j]
            != v,
    ensures
        list.len() + 2 <= n,
{
    let ints = list.map_values(|x: u32| x as int);
    assert(ints.no_duplicates()) by {
        assert forall|i: int, j: int|
            0 <= i < ints.len() && 0 <= j < ints.len() && i != j implies ints[i] != ints[j] by {
            assert(list[i] != list[j]);
        }
    }
    let others = vstd::set_lib::set_int_range(0, n as int).remove(u).remove(v);
    vstd::set_lib::lemma_int_range(0, n as int);
    ints.unique_seq_to_set();
    assert(ints.to_set().subset_of(others)) by {
        assert forall|x: int| ints.to_set().contains(x) implies others.contains(x) by {
            let i = choose|i: int| 0 <= i < ints.len() && ints[i] == x;
            assert(list[i] < n);
        }
    }
    vstd::set_lib::lemma_len_subset(ints.to_set(), others);
}

/// In a graph that is no larger than its lists may be long, a node that is given
/// a neighbour on the base layer is given to that neighbour as well, and nothing
/// is pruned. So the base layer leads to it and from it.
proof fn lemma_wired_base_is_joined(
    space: Space,
    links: Links,
    node: u32,
    chosen: Seq<u32>,
    limit: nat,
)
    requires
        links.len() <= u32::MAX + 1,
        links.len() <= limit + 1,
        well_linked(links),
        unlinked_on(links, node, 0),
        fit_to_wire(links, node, 0, chosen, limit),
        chosen.len() > 0,
        base_layer_is_joined_without(links, node),
    ensures
        base_layer_is_joined(space.wired(links, node, 0, chosen, limit)),
{
    let after = space.wired(links, node, 0, chosen, limit);
    let first = chosen[0];
    assert(on_layer(links, chosen[0] as int, 0) && first != node);
    assert forall|v: int| 0 <= v < links.len() && v != node && on_layer(links, v, 0) implies (
    #[trigger] after[v])[0] == links[v][0] || after[v][0] == links[v][0].push(node) by {
        assert(list_ok(links, v, 0));
        let list = links[v][0];
        assert forall|j: int| 0 <= j < list.len() implies (#[trigger] list[j]) < links.len()
            && list[j] != v && list[j] != node by {
            assert(on_layer(links, links[v][0][j] as int, 0));
            assert(!list.contains(node));
        }
        lemma_list_is_short(list, links.len(), v, node as int);
    }
    assert(after[first as int][0] == links[first as int][0].push(node)) by {
        assert(chosen.contains(first));
        assert(list_ok(links, first as int, 0));
        let list = links[first as int][0];
        assert forall|j: int| 0 <= j < list.len() implies (#[trigger] list[j]) < links.len()
            && list[j] != first && list[j] != node by {
            assert(on_layer(links, links[first as int][0][j] as int, 0));
            assert(!list.contains(node));
        }
        lemma_list_is_short(list, links.len(), first as int, node as int);
    }
    assert forall|s: Set<usize>| #[trigger] closed_on_base(after, s) && s.len() > 0 implies forall|
        v: usize,
    |
        v < after.len() ==> #[trigger] s.contains(v) by {
        let others = s.remove(node as usize);
        assert(closed_on_base(links, others)) by {
            assert forall|v: usize| #[trigger] others.contains(v) implies on_layer(
                links,
                v as int,
                0,
            ) by {
                assert(s.contains(v));
                assert(on_layer(after, v as int, 0));
            }
            assert forall|v: usize, j: int|
                others.contains(v) && 0 <= j < links[v as int][0].len() implies others.contains(
                #[trigger] links[v as int][0][j] as usize,
            ) by {
                assert(s.contains(v));
                assert(on_layer(links, v as int, 0));
                assert(after[v as int][0][j] == links[v as int][0][j]);
                assert(s.contains(after[v as int][0][j] as usize));
                assert(!links[v as int][0].contains(node));
                assert(links[v as int][0].contains(links[v as int][0][j]));
            }
        }
        if others.len() == 0 {
            assert(others =~= Set::empty());
            if !s.contains(node as usize) {
                assert(s =~= others);
            }
            assert(after[node as int][0] == chosen);
            assert(s.contains(after[node as int][0][0] as usize));
            assert(others.contains(first as usize));
        }
        assert(closed_on_base(links, others) && others.len() > 0);
        assert(others.contains(first as usize));
        assert(s.contains(first as usize));
        let last = links[first as int][0].len() as int;
        assert(after[first as int][0][last] == node);
        assert(s.contains(after[first as int][0][last] as usize));
        assert forall|v: usize| v < after.len() implies #[trigger] s.contains(v) by {
            if v != node {
                assert(others.contains(v));
            }
        }
    }
}

/// Graphs of one shape with the same lists on the base layer lead to the same
/// nodes there.
proof fn lemma_same_base(a: Links, b: Links, node: u32)
    requires
        same_shape(a, b),
        same_below(a, b, 1),
        base_layer_is_joined_without(a, node),
    ensures
        base_layer_is_joined_without(b, node),
{
    assert forall|s: Set<usize>| #[trigger]
        closed_on_base(b, s) && s.len() > 0 && !s.contains(node as usize) implies forall|v: usize|
        v < b.len() && v != node ==> #[trigger] s.contains(v) by {
        assert(closed_on_base(a, s)) by {
            assert forall|v: usize| #[trigger] s.contains(v) implies on_layer(a, v as int, 0) by {
                assert(on_layer(b, v as int, 0));
                assert(a[v as int].len() == b[v as int].len());
            }
            assert forall|v: usize, j: int|
                s.contains(v) && 0 <= j < a[v as int][0].len() implies s.contains(
                #[trigger] a[v as int][0][j] as usize,
            ) by {
                assert(on_layer(a, v as int, 0));
                assert(a[v as int][0] == b[v as int][0]);
                assert(s.contains(b[v as int][0][j] as usize));
            }
        }
    }
}

/// In a graph that is no larger than the lists of its base layer may be long,
/// wiring a node in keeps the base layer joined.
pub proof fn lemma_connected_is_joined(
    space: Space,
    links: Links,
    query: Seq<Single>,
    node: u32,
    entry_points: Seq<usize>,
    fallback: usize,
    layer: int,
    m: nat,
    ef: nat,
)
    requires
        m > 0,
        ef > 0,
        0 <= layer,
        links.len() <= 2 * m + 1,
        capped(links, m),
        ready_to_connect(links, node, entry_points, fallback, layer),
        base_layer_is_joined_without(links, node),
    ensures
        base_layer_is_joined(
            space.connected(links, query, node, entry_points, fallback, layer, m, ef),
        ),
    decreases layer,
{
    let found = space.search_layer(links, query, entry_points, ef, layer as nat);
    let limit = cap(m, layer as nat);
    let chosen = space.choose_neighbours(found, limit);
    let mid = space.wired(links, node, layer, chosen, limit);
    let next = next_entry_points(found, fallback);
    assert(unlinked_on(links, node, layer));
    lemma_found_is_fit(space, links, query, node, entry_points, layer, m, ef);
    lemma_wire_one_layer(space, links, query, node, entry_points, fallback, layer, m, ef);
    if layer == 0 {
        lemma_wired_base_is_joined(space, links, node, chosen, limit);
        assert(space.connected(mid, query, node, next, fallback, layer - 1, m, ef) == mid);
    } else {
        lemma_wired(space, links, node, layer, chosen, m);
        lemma_same_base(links, mid, node);
        lemma_connected_is_joined(space, mid, query, node, next, fallback, layer - 1, m, ef);
    }
}

/// A greedy walk over one layer ends where no neighbour is nearer, and no farther
/// from the query than where it starts.
pub proof fn law_walk_ends_at_a_local_optimum(
    space: Space,
    links: Links,
    query: Seq<Single>,
    ep: usize,
    layer: nat,
    j: int,
)
    requires
        well_linked(links),
        on_layer(links, ep as int, layer as int),
        links.len() <= usize::MAX,
        forall|v: int|
            0 <= v < links.len() ==> !(space.distance)(query, #[trigger] space.vectors[v]).nan(),
    ensures
        ({
            let end = space.nearest_on(links, query, ep, layer);
            let d = (space.distance)(query, space.vectors[end as int]);
            &&& !(space.distance)(query, space.vectors[ep as int]).less(d)
            &&& 0 <= j < links[end as int][layer as int].len() ==> !(space.distance)(
                query,
                space.vectors[links[end as int][layer as int][j] as int],
            ).less(d)
        }),
{
    let t = space.terrain(links, query, layer);
    let n = links.len();
    let allowed = |v: usize|
        on_layer(links, v as int, layer as int) && None::<u32> != Some(v as u32);
    let found = space.search_layer(links, query, seq![ep], 1, layer);
    let end = space.nearest_on(links, query, ep, layer);
    lemma_terrain_closed(space, links, query, layer, None);
    lemma_search_layer(space, links, query, seq![ep], 1, layer, None);
    assert(t.numeric(n)) by {
        assert forall|v: usize| v < n implies !(#[trigger] (t.dist)(v)).nan() by {
            assert(!(space.distance)(query, space.vectors[v as int]).nan());
        }
    }
    assert(seq![ep][0] == ep);
    crate::beam::law_search_is_no_farther_than_its_start(t, seq![ep], 1, n, allowed, 0);
    assert(found.len() == 1);
    assert(found[0].node == end);
    assert(found[0].dist == (t.dist)(end));
    if 0 <= j < links[end as int][layer as int].len() {
        crate::beam::law_search_ends_at_a_local_optimum(t, seq![ep], 1, n, allowed, 0, j);
        let neighbour = (t.neighbours)(end)[j] as usize;
        if has_node(found, neighbour) {
            let i = choose|i: int| 0 <= i < found.len() && (#[trigger] found[i]).node == neighbour;
            assert(i == 0);
        }
    }
}

/// A descent never leads away from the query, and on the last layer that it walks
/// it ends where no neighbour is nearer.
pub proof fn law_descent_ends_at_a_local_optimum(
    space: Space,
    links: Links,
    query: Seq<Single>,
    ep: usize,
    top: int,
    bottom: int,
    j: int,
)
    requires
        well_linked(links),
        0 <= bottom <= top,
        on_layer(links, ep as int, top),
        links.len() <= usize::MAX,
        forall|v: int|
            0 <= v < links.len() ==> !(space.distance)(query, #[trigger] space.vectors[v]).nan(),
    ensures
        ({
            let end = space.descend(links, query, ep, top, bottom);
            let d = (space.distance)(query, space.vectors[end as int]);
            &&& on_layer(links, end as int, bottom)
            &&& !(space.distance)(query, space.vectors[ep as int]).less(d)
            &&& 0 <= j < links[end as int][bottom].len() ==> !(space.distance)(
                query,
                space.vectors[links[end as int][bottom][j] as int],
            ).less(d)
        }),
    decreases top - bottom,
{
    let next = space.nearest_on(links, query, ep, top as nat);
    law_walk_ends_at_a_local_optimum(space, links, query, ep, top as nat, j);
    lemma_nearest_on(space, links, query, ep, top as nat, None);
    assert(space.descend(links, query, ep, top, bottom) == space.descend(
        links,
        query,
        next,
        top - 1,
        bottom,
    ));
    if top > bottom {
        law_descent_ends_at_a_local_optimum(space, links, query, next, top - 1, bottom, j);
        lemma_descend(space, links, query, next, top - 1, bottom, None);
        let end = space.descend(links, query, next, top - 1, bottom);
        assert(!(space.distance)(query, space.vectors[ep as int]).nan());
        assert(!(space.distance)(query, space.vectors[next as int]).nan());
        assert(!(space.distance)(query, space.vectors[end as int]).nan());
    } else {
        assert(space.descend(links, query, next, top - 1, bottom) == next);
    }
}

/// The choice of neighbours leaves out no more than it has to: a candidate that is
/// not chosen is closer to one that was chosen than to the point that is being
/// linked, or `m` others were chosen. The nearest candidate is always chosen.
pub proof fn law_choice_of_neighbours_is_complete(
    space: Space,
    candidates: Seq<Scored>,
    m: nat,
    k: int,
)
    requires
        0 <= k < candidates.len(),
        distinct_nodes(candidates),
        m > 0,
        forall|i: int| 0 <= i < candidates.len() ==> (#[trigger] candidates[i]).node <= u32::MAX,
    ensures
        ({
            let chosen = space.choose_neighbours(candidates, m);
            &&& chosen.len() <= m
            &&& chosen.len() > 0 && chosen[0] == candidates[0].node
            &&& {
                ||| chosen.contains(candidates[k].node as u32)
                ||| chosen.len() == m
                ||| exists|i: int|
                    0 <= i < chosen.len() && space.between(
                        candidates[k].node,
                        #[trigger] chosen[i] as usize,
                    ).less(candidates[k].dist)
            }
        }),
{
    lemma_chosen_among(space, candidates, m, candidates.len());
    let before = space.chosen_among(candidates, m, k as nat);
    let after = space.chosen_among(candidates, m, (k + 1) as nat);
    let chosen = space.choose_neighbours(candidates, m);
    lemma_choice_grows(space, candidates, m, (k + 1) as nat, candidates.len());
    if before.len() < m && !space.crowded(candidates[k], before) {
        assert(after[after.len() - 1] == candidates[k].node as u32);
        assert(chosen[after.len() - 1] == candidates[k].node as u32);
    } else if space.crowded(candidates[k], before) {
        let i = choose|i: int|
            0 <= i < before.len() && space.between(
                candidates[k].node,
                #[trigger] before[i] as usize,
            ).less(candidates[k].dist);
        assert(chosen[i] == before[i]);
    }
}

/// What was chosen stays chosen, in its place.
proof fn lemma_choice_grows(
    space: Space,
    candidates: Seq<Scored>,
    m: nat,
    from: nat,
    to: nat,
)
    requires
        from <= to <= candidates.len(),
    ensures
        space.chosen_among(candidates, m, from).len() <= space.chosen_among(
            candidates,
            m,
            to,
        ).len(),
        forall|i: int|
            0 <= i < space.chosen_among(candidates, m, from).len() ==> #[trigger]
            space.chosen_among(
                candidates,
                m,
                from,
            )[i] == space.chosen_among(candidates, m, to)[i],
    decreases to - from,
{
    if from < to {
        lemma_choice_grows(space, candidates, m, from, (to - 1) as nat);
    }
}

/// What a node keeps of neighbours that have become too many: at most `m` of them,
/// the nearest first, none that is closer to one kept before it than to the node,
/// and one that is not kept is closer to a kept one than to the node, or `m` are
/// kept.
pub proof fn law_pruning_keeps_a_spread_of_the_nearest(
    space: Space,
    base: usize,
    nodes: Seq<u32>,
    m: nat,
    k: int,
)
    requires
        nodes.no_duplicates(),
        m > 0,
        0 <= k < nodes.len(),
    ensures
        ({
            let kept = space.pruned(base, nodes, m);
            &&& 0 < kept.len() <= m
            &&& kept.no_duplicates()
            &&& forall|i: int| 0 <= i < kept.len() ==> nodes.contains(#[trigger] kept[i])
            &&& space.between(base, kept[0] as usize).rank() <= space.between(
                base,
                nodes[k] as usize,
            ).rank()
            &&& {
                ||| kept.contains(nodes[k])
                ||| kept.len() == m
                ||| exists|i: int|
                    0 <= i < kept.len() && space.between(
                        nodes[k] as usize,
                        #[trigger] kept[i] as usize,
                    ).less(space.between(base, nodes[k] as usize))
            }
        }),
{
    let scored = space.scored_from(base, nodes);
    let candidates = sort(scored);
    lemma_pruned(space, base, nodes, m);
    crate::order::lemma_sort(scored);
    assert(distinct_nodes(scored)) by {
        assert forall|i: int, j: int| 0 <= i < j < scored.len() implies (#[trigger] scored[i]).node
            != (#[trigger] scored[j]).node by {
            assert(nodes[i] != nodes[j]);
        }
    }
    crate::order::lemma_sort_nodes(scored);
    assert forall|i: int| 0 <= i < candidates.len() implies (#[trigger] candidates[i]).node
        <= u32::MAX by {
        let j = choose|j: int| 0 <= j < scored.len() && scored[j] == candidates[i];
        assert(scored[j].node == nodes[j]);
    }
    assert(scored[k].node == nodes[k] as usize);
    assert(has_node(scored, nodes[k] as usize));
    let p = choose|p: int| 0 <= p < candidates.len() && (#[trigger] candidates[p]).node
        == nodes[k] as usize;
    let j = choose|j: int| 0 <= j < scored.len() && scored[j] == candidates[p];
    assert(scored[j].node == nodes[j] as usize);
    assert(nodes[j] == nodes[k]);
    assert(j == k);
    law_choice_of_neighbours_is_complete(space, candidates, m, p);
    assert(p == 0 || candidates[0].up_to(candidates[p]));
    let z = choose|z: int| 0 <= z < scored.len() && scored[z] == candidates[0];
    assert(candidates[0].dist == space.between(base, candidates[0].node));
}

/// Wiring a node in on one layer: the node has the chosen neighbours; each of them
/// has the node, unless it had as many neighbours as it may have before; and nobody
/// else's neighbours change.
pub proof fn law_wiring_links_both_ways(
    space: Space,
    links: Links,
    node: u32,
    layer: int,
    chosen: Seq<u32>,
    limit: nat,
    v: int,
)
    requires
        0 <= layer,
        links.len() <= u32::MAX + 1,
        fit_to_wire(links, node, layer, chosen, limit),
        0 <= v < links.len(),
        v != node,
    ensures
        ({
            let after = space.wired(links, node, layer, chosen, limit);
            &&& after.len() == links.len()
            &&& after[node as int][layer] == chosen
            &&& chosen.contains(v as u32) && links[v][layer].len() < limit ==> after[v][layer]
                == links[v][layer].push(node)
            &&& chosen.contains(v as u32) && links[v][layer].len() >= limit ==> after[v][layer]
                == space.pruned(v as usize, links[v][layer].push(node), limit)
            &&& !chosen.contains(v as u32) ==> after[v] == links[v]
            &&& forall|l: int|
                0 <= l < links[v].len() && l != layer ==> #[trigger] after[v][l] == links[v][l]
        }),
{
    if chosen.contains(v as u32) {
        let i = choose|i: int| 0 <= i < chosen.len() && chosen[i] == v as u32;
        assert(on_layer(links, chosen[i] as int, layer));
    }
}

/// A node that is wired in from `start` downwards is linked both ways on every one
/// of those layers: where another node is among its neighbours there, it is among
/// that node's, unless that node had as many as it may have before, which are `2 * m`
/// on the base layer and `m` above. Nobody else's neighbours change.
pub proof fn law_connecting_links_both_ways(
    space: Space,
    links: Links,
    query: Seq<Single>,
    node: u32,
    entry_points: Seq<usize>,
    fallback: usize,
    start: int,
    m: nat,
    ef: nat,
    v: int,
    l: int,
)
    requires
        capped(links, m),
        ready_to_connect(links, node, entry_points, fallback, start),
        0 <= v < links.len(),
        v != node,
        0 <= l < links[v].len(),
    ensures
        ({
            let after = space.connected(
                links,
                query,
                node,
                entry_points,
                fallback,
                start,
                m,
                ef,
            );
            let limit = if l == 0 {
                2 * m
            } else {
                m
            };
            &&& l > start ==> after[v][l] == links[v][l]
            &&& l <= start ==> {
                &&& after[node as int][l].contains(v as u32) && links[v][l].len() < limit
                    ==> after[v][l] == links[v][l].push(node)
                &&& after[node as int][l].contains(v as u32) && links[v][l].len() >= limit
                    ==> after[v][l] == space.pruned(v as usize, links[v][l].push(node), limit)
                &&& !after[node as int][l].contains(v as u32) ==> after[v][l] == links[v][l]
            }
        }),
    decreases start + 1,
{
    if start >= 0 {
        let found = space.search_layer(links, query, entry_points, ef, start as nat);
        let limit = cap(m, start as nat);
        let chosen = space.choose_neighbours(found, limit);
        let mid = space.wired(links, node, start, chosen, limit);
        let next = next_entry_points(found, fallback);
        lemma_wire_one_layer(space, links, query, node, entry_points, fallback, start, m, ef);
        law_wiring_links_both_ways(space, links, node, start, chosen, limit, v);
        lemma_connected(space, mid, query, node, next, fallback, start - 1, m, ef);
        assert(mid[v].len() == links[v].len());
        law_connecting_links_both_ways(
            space,
            mid,
            query,
            node,
            next,
            fallback,
            start - 1,
            m,
            ef,
            v,
            l,
        );
        let after = space.connected(mid, query, node, next, fallback, start - 1, m, ef);
        if l < start {
            assert(mid[v][l] == links[v][l]);
        } else if l == start {
            assert(same_above(mid, after, start - 1));
            assert(mid[node as int][start] == after[node as int][start]);
            assert(mid[v][start] == after[v][start]);
        } else {
            assert(mid[v][l] == links[v][l]);
        }
    }
}

/// Where the base layer leads everywhere but to a new node, a search of it finds as many
/// nodes as it may: `ef`, or all but the new one.
proof fn lemma_joined_search_without(
    space: Space,
    links: Links,
    query: Seq<Single>,
    node: u32,
    entry_points: Seq<usize>,
    ef: nat,
)
    requires
        node < links.len(),
        well_linked(links),
        unlinked_on(links, node, 0),
        base_layer_is_joined_without(links, node),
        links.len() <= u32::MAX + 1,
        entry_points.len() > 0,
        entry_points.no_duplicates(),
        forall|j: int|
            0 <= j < entry_points.len() ==> on_layer(links, #[trigger] entry_points[j] as int, 0)
                && entry_points[j] != node,
        ef + 1 >= links.len(),
        ef > 0,
    ensures
        forall|v: usize|
            v < links.len() && v != node ==> #[trigger] has_node(
                space.search_layer(links, query, entry_points, ef, 0),
                v,
            ),
{
    let found = space.search_layer(links, query, entry_points, ef, 0);
    let t = space.terrain(links, query, 0);
    let n = links.len();
    let avoid = Some(node);
    let allowed = |v: usize| on_layer(links, v as int, 0) && avoid != Some(v as u32);
    assert forall|j: int| 0 <= j < entry_points.len() implies on_layer(
        links,
        #[trigger] entry_points[j] as int,
        0,
    ) && avoid != Some(entry_points[j] as u32) by {
        assert(entry_points[j] < links.len());
    }
    lemma_search_layer(space, links, query, entry_points, ef, 0, avoid);
    lemma_terrain_closed(space, links, query, 0, avoid);
    let nodes = Seq::new(found.len(), |i: int| found[i].node);
    let s = nodes.to_set();
    assert(nodes.no_duplicates()) by {
        assert forall|i: int, j: int|
            0 <= i < nodes.len() && 0 <= j < nodes.len() && i != j implies nodes[i]
            != nodes[j] by {
            assert(found[i].node != found[j].node);
        }
    }
    nodes.unique_seq_to_set();
    assert forall|v: usize| has_node(found, v) == s.contains(v) by {
        if has_node(found, v) {
            let i = choose|i: int| 0 <= i < found.len() && (#[trigger] found[i]).node == v;
            assert(nodes[i] == v);
        }
        if s.contains(v) {
            let i = choose|i: int| 0 <= i < nodes.len() && nodes[i] == v;
            assert(found[i].node == v);
        }
    }
    assert forall|v: usize| #[trigger] s.contains(v) implies v < n && on_layer(links, v as int, 0)
        && v != node by {
        assert(has_node(found, v));
        let i = choose|i: int| 0 <= i < found.len() && (#[trigger] found[i]).node == v;
        assert(on_layer(links, found[i].node as int, 0));
    }
    if found.len() < ef {
        crate::beam::law_short_search_is_exhaustive(t, entry_points, ef, n, allowed);
        assert(closed_on_base(links, s)) by {
            assert forall|v: usize, j: int|
                s.contains(v) && 0 <= j < links[v as int][0].len() implies s.contains(
                #[trigger] links[v as int][0][j] as usize,
            ) by {
                assert(has_node(found, v));
                assert(has_node(found, (t.neighbours)(v)[j] as usize));
            }
        }
        assert(has_node(found, entry_points[0]));
        assert(s.contains(entry_points[0]));
        assert(s.len() > 0) by {
            if s.len() == 0 {
                assert(s =~= Set::<usize>::empty());
            }
        }
        assert(!s.contains(node as usize));
        assert forall|v: usize| v < links.len() && v != node implies #[trigger] has_node(
            found,
            v,
        ) by {
            assert(s.contains(v));
        }
    } else {
        let all = Seq::new(n, |v: int| v as usize);
        let others = all.to_set().remove(node as usize);
        assert(all.no_duplicates());
        all.unique_seq_to_set();
        assert(s.subset_of(others)) by {
            assert forall|v: usize| s.contains(v) implies others.contains(v) by {
                assert(all[v as int] == v);
            }
        }
        assert(all[node as int] == node as usize);
        assert(others.len() == n - 1);
        vstd::set_lib::lemma_len_subset(s, others);
        vstd::set_lib::lemma_subset_equality(s, others);
        assert forall|v: usize| v < links.len() && v != node implies #[trigger] has_node(
            found,
            v,
        ) by {
            assert(all[v as int] == v);
            assert(others.contains(v));
            assert(s.contains(v));
        }
    }
}

/// Where the base layer leads everywhere but to a new node and the candidate list is
/// long enough for all others, the new node is wired in with a nearest one as its first
/// neighbour on the base layer.
pub proof fn law_connecting_links_to_the_nearest(
    space: Space,
    links: Links,
    query: Seq<Single>,
    node: u32,
    entry_points: Seq<usize>,
    fallback: usize,
    start: int,
    m: nat,
    ef: nat,
    v: usize,
)
    requires
        m > 0,
        ef > 0,
        0 <= start,
        node < links.len(),
        ef + 1 >= links.len(),
        capped(links, m),
        ready_to_connect(links, node, entry_points, fallback, start),
        base_layer_is_joined_without(links, node),
        v < links.len(),
        v != node,
    ensures
        ({
            let list = space.connected(
                links,
                query,
                node,
                entry_points,
                fallback,
                start,
                m,
                ef,
            )[node as int][0];
            &&& list.len() > 0
            &&& list[0] < links.len()
            &&& list[0] != node
            &&& (space.distance)(query, space.vectors[list[0] as int]).rank() <= (space.distance)(
                query,
                space.vectors[v as int],
            ).rank()
        }),
    decreases start,
{
    let found = space.search_layer(links, query, entry_points, ef, start as nat);
    let limit = cap(m, start as nat);
    let chosen = space.choose_neighbours(found, limit);
    let mid = space.wired(links, node, start, chosen, limit);
    let next = next_entry_points(found, fallback);
    assert(unlinked_on(links, node, start));
    lemma_found_is_fit(space, links, query, node, entry_points, start, m, ef);
    lemma_wire_one_layer(space, links, query, node, entry_points, fallback, start, m, ef);
    if start == 0 {
        lemma_joined_search_without(space, links, query, node, entry_points, ef);
        assert forall|j: int| 0 <= j < entry_points.len() implies on_layer(
            links,
            #[trigger] entry_points[j] as int,
            0,
        ) && Some(node) != Some(entry_points[j] as u32) by {
            assert(entry_points[j] < links.len());
        }
        lemma_search_layer(space, links, query, entry_points, ef, 0, Some(node));
        assert forall|i: int| 0 <= i < found.len() implies (#[trigger] found[i]).node
            <= u32::MAX by {
            assert(on_layer(links, found[i].node as int, 0));
        }
        lemma_chosen_among(space, found, limit, found.len());
        assert(has_node(found, v));
        let i = choose|i: int| 0 <= i < found.len() && (#[trigger] found[i]).node == v;
        assert(i == 0 || found[0].up_to(found[i]));
        assert(on_layer(links, found[0].node as int, 0));
        assert(space.connected(mid, query, node, next, fallback, -1, m, ef) == mid);
        assert(mid[node as int][0] == chosen);
    } else {
        lemma_wired(space, links, node, start, chosen, m);
        lemma_same_base(links, mid, node);
        law_connecting_links_to_the_nearest(
            space,
            mid,
            query,
            node,
            next,
            fallback,
            start - 1,
            m,
            ef,
            v,
        );
    }
}

} // verus!
