//! Beam search over one layer of a neighbour graph.
//!
//! The search keeps three things: the nodes it has seen, the frontier of nodes
//! whose neighbours it has not looked at yet, and the nearest nodes so far, at
//! most a fixed number of them. It repeatedly expands the nearest frontier node
//! and stops once that node is farther than everything it would have to beat.

use crate::float::Single;
use crate::order::{distinct_nodes, has_node, insert, insert_sorted, sorted, Scored};
use std::collections::HashSet;
use vstd::prelude::*;

verus! {

broadcast use vstd::std_specs::hash::group_hash_axioms;

/// The state of a beam search.
#[verifier::ext_equal]
pub struct BeamView {
    /// Every node that has been seen.
    pub visited: Set<usize>,
    /// Seen nodes that are still to be expanded, nearest first.
    pub frontier: Seq<Scored>,
    /// The best nodes seen so far, nearest first.
    pub nearest: Seq<Scored>,
}

impl BeamView {
    /// Nothing has been seen.
    pub open spec fn blank() -> BeamView {
        BeamView { visited: Set::empty(), frontier: Seq::empty(), nearest: Seq::empty() }
    }

    /// An entry point is put on the frontier and among the nearest nodes.
    pub open spec fn seeded(self, s: Scored) -> BeamView {
        BeamView {
            visited: self.visited.insert(s.node),
            frontier: insert_sorted(self.frontier, s),
            nearest: insert_sorted(self.nearest, s),
        }
    }

    /// Only the `ef` nearest nodes are kept.
    pub open spec fn trimmed(self, ef: nat) -> BeamView {
        if self.nearest.len() > ef {
            BeamView { nearest: self.nearest.take(ef as int), ..self }
        } else {
            self
        }
    }

    /// A node at distance `d` is worth keeping: there is room for it, or it is
    /// nearer than the farthest of the nearest nodes.
    pub open spec fn admits(self, ef: nat, d: Single) -> bool {
        self.nearest.len() < ef || self.nearest.len() == 0 || d.less(self.nearest.last().dist)
    }

    /// The node of `s` is seen: on the first sight it is kept if it is worth it.
    pub open spec fn offered(self, ef: nat, s: Scored) -> BeamView {
        if self.visited.contains(s.node) {
            self
        } else if self.admits(ef, s.dist) {
            self.seeded(s).trimmed(ef)
        } else {
            BeamView { visited: self.visited.insert(s.node), ..self }
        }
    }

    /// Nothing on the frontier can improve the result: it is empty, or there are
    /// `ef` results and the nearest frontier node is farther than all of them.
    pub open spec fn settled(self, ef: nat) -> bool {
        ||| self.frontier.len() == 0
        ||| self.nearest.len() > 0 && self.nearest.len() >= ef && self.nearest.last().dist.less(
            self.frontier[0].dist,
        )
    }
}

/// A beam search as a whole: what it measures distances with, and where the
/// graph leads.
pub struct Terrain {
    /// The distance of each node from the query.
    pub dist: spec_fn(usize) -> Single,
    /// The neighbours of each node.
    pub neighbours: spec_fn(usize) -> Seq<u32>,
}

impl Terrain {
    /// A node with its distance.
    pub open spec fn score(self, node: usize) -> Scored {
        Scored { dist: (self.dist)(node), node }
    }

    /// The state after seeding the entry points in order.
    pub open spec fn seed_all(self, entry_points: Seq<usize>) -> BeamView
        decreases entry_points.len(),
    {
        if entry_points.len() == 0 {
            BeamView::blank()
        } else {
            self.seed_all(entry_points.drop_last()).seeded(self.score(entry_points.last()))
        }
    }

    /// The state after looking at the nodes `es` in order.
    pub open spec fn offer_all(self, beam: BeamView, ef: nat, es: Seq<u32>) -> BeamView
        decreases es.len(),
    {
        if es.len() == 0 {
            beam
        } else {
            self.offer_all(beam, ef, es.drop_last()).offered(ef, self.score(es.last() as usize))
        }
    }

    /// The state after expanding the nearest frontier node.
    pub open spec fn expanded(self, beam: BeamView, ef: nat) -> BeamView {
        self.offer_all(
            BeamView { frontier: beam.frontier.drop_first(), ..beam },
            ef,
            (self.neighbours)(beam.frontier[0].node),
        )
    }

    /// The state after expanding until the search has settled, or `steps` times.
    pub open spec fn explored(self, beam: BeamView, ef: nat, steps: nat) -> BeamView
        decreases steps,
    {
        if steps == 0 || beam.settled(ef) {
            beam
        } else {
            self.explored(self.expanded(beam, ef), ef, (steps - 1) as nat)
        }
    }

    /// The state in which a search from `entry_points` over `n` nodes ends. Each
    /// step takes one node off the frontier, and a node enters the frontier once,
    /// so that many steps are enough to settle.
    pub open spec fn final_beam(self, entry_points: Seq<usize>, ef: nat, n: nat) -> BeamView {
        self.explored(self.seed_all(entry_points).trimmed(ef), ef, n + entry_points.len())
    }

    /// The result of a search from `entry_points` over `n` nodes: at most `ef`
    /// nodes, nearest first.
    pub open spec fn search(self, entry_points: Seq<usize>, ef: nat, n: nat) -> Seq<Scored> {
        self.final_beam(entry_points, ef, n).nearest
    }

    /// The state is consistent: what is kept was seen and stands in order with
    /// its distance, and only nodes below `n` that `allowed` holds of were seen.
    pub open spec fn consistent(
        self,
        beam: BeamView,
        n: nat,
        allowed: spec_fn(usize) -> bool,
    ) -> bool {
        &&& sorted(beam.frontier)
        &&& sorted(beam.nearest)
        &&& beam.visited.finite()
        &&& forall|v: usize| #[trigger] beam.visited.contains(v) ==> v < n && allowed(v)
        &&& forall|i: int|
            0 <= i < beam.frontier.len() ==> (#[trigger] beam.frontier[i]) == self.score(
                beam.frontier[i].node,
            ) && beam.visited.contains(beam.frontier[i].node)
        &&& forall|i: int|
            0 <= i < beam.nearest.len() ==> (#[trigger] beam.nearest[i]) == self.score(
                beam.nearest[i].node,
            ) && beam.visited.contains(beam.nearest[i].node)
    }

    /// The graph leads from allowed nodes to allowed nodes below `n`.
    pub open spec fn closed_under(self, n: nat, allowed: spec_fn(usize) -> bool) -> bool {
        forall|v: usize, j: int|
            v < n && allowed(v) && 0 <= j < (self.neighbours)(v).len() ==> (#[trigger] (
            self.neighbours)(v)[j]) < n && allowed((self.neighbours)(v)[j] as usize)
    }

    /// No node is kept twice, and as many are kept as there can be.
    pub open spec fn full(self, beam: BeamView, ef: nat) -> bool {
        &&& distinct_nodes(beam.nearest)
        &&& beam.nearest.len() == if beam.visited.len() < ef {
            beam.visited.len()
        } else {
            ef
        }
    }

    /// Every neighbour of `node` was seen.
    pub open spec fn surveyed(self, beam: BeamView, node: usize) -> bool {
        forall|j: int|
            0 <= j < (self.neighbours)(node).len() ==> beam.visited.contains(
                #[trigger] (self.neighbours)(node)[j] as usize,
            )
    }

    /// Every kept node but `except` is still to be expanded, or all its
    /// neighbours were seen.
    pub open spec fn accounted(self, beam: BeamView, except: Option<usize>) -> bool {
        forall|i: int|
            0 <= i < beam.nearest.len() ==> beam.frontier.contains(#[trigger] beam.nearest[i])
                || self.surveyed(beam, beam.nearest[i].node) || except == Some(
                beam.nearest[i].node,
            )
    }

    /// A seen node is left out only where `ef` nodes are kept that are at least
    /// as near.
    pub open spec fn best_kept(self, beam: BeamView, ef: nat) -> bool {
        &&& forall|v: usize|
            #[trigger] beam.visited.contains(v) && !has_node(beam.nearest, v)
                ==> beam.nearest.len() >= ef
        &&& forall|v: usize, i: int|
            #[trigger] beam.visited.contains(v) && !has_node(beam.nearest, v) && 0 <= i
                < beam.nearest.len() ==> (#[trigger] beam.nearest[i]).dist.signed() <= (self.dist)(
                v,
            ).signed()
    }

    /// Every distance to one of the `n` nodes is a number.
    pub open spec fn numeric(self, n: nat) -> bool {
        forall|v: usize| v < n ==> !(#[trigger] (self.dist)(v)).nan()
    }
}

/// A beam search in progress.
#[derive(Debug)]
pub struct Beam {
    visited: HashSet<usize>,
    frontier: Vec<Scored>,
    nearest: Vec<Scored>,
}

impl View for Beam {
    type V = BeamView;

    closed spec fn view(&self) -> BeamView {
        BeamView {
            visited: self.visited@,
            frontier: self.frontier@,
            nearest: self.nearest@,
        }
    }
}

impl Beam {
    /// A search that has seen nothing.
    pub fn new() -> (beam: Beam)
        ensures
            beam@ == BeamView::blank(),
    {
        Beam { visited: HashSet::new(), frontier: Vec::new(), nearest: Vec::new() }
    }

    /// Put an entry point on the frontier and among the nearest nodes.
    pub fn seed(&mut self, s: Scored)
        requires
            sorted(old(self)@.frontier),
            sorted(old(self)@.nearest),
        ensures
            final(self)@ == old(self)@.seeded(s),
    {
        self.visited.insert(s.node);
        insert(&mut self.frontier, s);
        insert(&mut self.nearest, s);
    }

    /// Keep only the `ef` nearest nodes.
    pub fn trim(&mut self, ef: usize)
        ensures
            final(self)@ == old(self)@.trimmed(ef as nat),
    {
        self.nearest.truncate(ef);
    }

    /// Mark a node as seen. Returns whether this was the first sight of it.
    pub fn mark(&mut self, node: usize) -> (first: bool)
        ensures
            first == !old(self)@.visited.contains(node),
            final(self)@ == (BeamView {
                visited: old(self)@.visited.insert(node),
                ..old(self)@
            }),
    {
        self.visited.insert(node)
    }

    /// Keep a node that has just been marked, if it is worth it.
    pub fn offer(&mut self, ef: usize, s: Scored)
        requires
            sorted(old(self)@.frontier),
            sorted(old(self)@.nearest),
        ensures
            final(self)@ == if old(self)@.admits(ef as nat, s.dist) {
                old(self)@.seeded(s).trimmed(ef as nat)
            } else {
                old(self)@
            },
    {
        let count: usize = self.nearest.len();
        let worthy: bool = count < ef || count == 0 || s.dist.lt(self.nearest[count - 1].dist);
        if worthy {
            self.seed(s);
            self.trim(ef);
        }
    }

    /// Has the search settled?
    pub fn is_settled(&self, ef: usize) -> (settled: bool)
        ensures
            settled == self@.settled(ef as nat),
    {
        let count: usize = self.nearest.len();
        self.frontier.len() == 0 || (count > 0 && count >= ef && self.nearest[count - 1].dist.lt(
            self.frontier[0].dist,
        ))
    }

    /// Take the nearest node off the frontier.
    pub fn advance(&mut self) -> (c: Scored)
        requires
            old(self)@.frontier.len() > 0,
        ensures
            c == old(self)@.frontier[0],
            final(self)@ == (BeamView {
                frontier: old(self)@.frontier.drop_first(),
                ..old(self)@
            }),
    {
        let c = self.frontier.remove(0);
        assert(self.frontier@ =~= old(self)@.frontier.drop_first());
        c
    }

    /// The nearest nodes.
    pub fn into_nearest(self) -> (nearest: Vec<Scored>)
        ensures
            nearest@ == self@.nearest,
    {
        self.nearest
    }
}

/// A set of numbers below `n` has at most `n` members.
proof fn lemma_bounded_set(s: Set<usize>, n: nat)
    requires
        s.finite(),
        forall|v: usize| #[trigger] s.contains(v) ==> v < n,
    ensures
        s.len() <= n,
    decreases n,
{
    if n == 0 {
        assert(s =~= Set::empty());
    } else if n - 1 <= usize::MAX {
        let m = (n - 1) as usize;
        lemma_bounded_set(s.remove(m), (n - 1) as nat);
    } else {
        lemma_bounded_set(s, (n - 1) as nat);
    }
}

/// Seeding or trimming keeps a state consistent.
proof fn lemma_seeded_consistent(
    t: Terrain,
    beam: BeamView,
    n: nat,
    allowed: spec_fn(usize) -> bool,
    node: usize,
)
    requires
        t.consistent(beam, n, allowed),
        node < n,
        allowed(node),
    ensures
        t.consistent(beam.seeded(t.score(node)), n, allowed),
        beam.seeded(t.score(node)).frontier.len() == beam.frontier.len() + 1,
        beam.seeded(t.score(node)).nearest.len() == beam.nearest.len() + 1,
{
    let s = t.score(node);
    crate::order::lemma_insert_sorted(beam.frontier, s);
    crate::order::lemma_insert_sorted(beam.nearest, s);
}

proof fn lemma_trimmed_consistent(
    t: Terrain,
    beam: BeamView,
    n: nat,
    allowed: spec_fn(usize) -> bool,
    ef: nat,
)
    requires
        t.consistent(beam, n, allowed),
    ensures
        t.consistent(beam.trimmed(ef), n, allowed),
        beam.trimmed(ef).frontier == beam.frontier,
        beam.trimmed(ef).visited == beam.visited,
{
}

/// Looking at a node keeps a state consistent, and puts no more on the frontier
/// than it marks as seen.
pub proof fn lemma_offered_consistent(
    t: Terrain,
    beam: BeamView,
    n: nat,
    allowed: spec_fn(usize) -> bool,
    ef: nat,
    node: usize,
)
    requires
        t.consistent(beam, n, allowed),
        node < n,
        allowed(node),
    ensures
        t.consistent(beam.offered(ef, t.score(node)), n, allowed),
        beam.offered(ef, t.score(node)).visited == beam.visited.insert(node),
        beam.offered(ef, t.score(node)).frontier.len() - beam.offered(
            ef,
            t.score(node),
        ).visited.len() <= beam.frontier.len() - beam.visited.len(),
{
    let s = t.score(node);
    if beam.visited.contains(node) {
        assert(beam.visited =~= beam.visited.insert(node));
    } else if beam.admits(ef, s.dist) {
        lemma_seeded_consistent(t, beam, n, allowed, node);
        lemma_trimmed_consistent(t, beam.seeded(s), n, allowed, ef);
    }
}

/// Looking at several nodes keeps a state consistent.
pub proof fn lemma_offer_all_consistent(
    t: Terrain,
    beam: BeamView,
    n: nat,
    allowed: spec_fn(usize) -> bool,
    ef: nat,
    es: Seq<u32>,
)
    requires
        t.consistent(beam, n, allowed),
        forall|j: int| 0 <= j < es.len() ==> (#[trigger] es[j]) < n && allowed(es[j] as usize),
    ensures
        t.consistent(t.offer_all(beam, ef, es), n, allowed),
        beam.visited.subset_of(t.offer_all(beam, ef, es).visited),
        forall|j: int|
            0 <= j < es.len() ==> t.offer_all(beam, ef, es).visited.contains(
                #[trigger] es[j] as usize,
            ),
        t.offer_all(beam, ef, es).frontier.len() - t.offer_all(beam, ef, es).visited.len()
            <= beam.frontier.len() - beam.visited.len(),
    decreases es.len(),
{
    if es.len() > 0 {
        let front = es.drop_last();
        assert forall|j: int| 0 <= j < front.len() implies (#[trigger] front[j]) < n && allowed(
            front[j] as usize,
        ) by {
            assert(front[j] == es[j]);
        }
        lemma_offer_all_consistent(t, beam, n, allowed, ef, front);
        assert(es.last() == es[es.len() - 1]);
        lemma_offered_consistent(
            t,
            t.offer_all(beam, ef, front),
            n,
            allowed,
            ef,
            es.last() as usize,
        );
        assert forall|j: int| 0 <= j < es.len() implies t.offer_all(beam, ef, es).visited.contains(
            #[trigger] es[j] as usize,
        ) by {
            if j < front.len() {
                assert(front[j] == es[j]);
            }
        }
    }
}

/// Seeding all entry points gives a consistent state.
pub proof fn lemma_seed_all_consistent(
    t: Terrain,
    n: nat,
    allowed: spec_fn(usize) -> bool,
    entry_points: Seq<usize>,
)
    requires
        forall|j: int|
            0 <= j < entry_points.len() ==> (#[trigger] entry_points[j]) < n && allowed(
                entry_points[j],
            ),
    ensures
        t.consistent(t.seed_all(entry_points), n, allowed),
        t.seed_all(entry_points).frontier.len() == entry_points.len(),
        t.seed_all(entry_points).nearest.len() == entry_points.len(),
        t.seed_all(entry_points).visited == entry_points.to_set(),
    decreases entry_points.len(),
{
    if entry_points.len() > 0 {
        let front = entry_points.drop_last();
        let last = entry_points.last();
        assert forall|j: int| 0 <= j < front.len() implies (#[trigger] front[j]) < n && allowed(
            front[j],
        ) by {
            assert(front[j] == entry_points[j]);
        }
        lemma_seed_all_consistent(t, n, allowed, front);
        assert(last == entry_points[entry_points.len() - 1]);
        lemma_seeded_consistent(t, t.seed_all(front), n, allowed, last);
        assert(entry_points =~= front.push(last));
        assert(entry_points.to_set() =~= front.to_set().insert(last)) by {
            assert forall|v: usize| front.to_set().insert(last).contains(v) implies entry_points
                .to_set().contains(v) by {
                if v == last {
                    assert(entry_points[entry_points.len() - 1] == v);
                } else {
                    let j = choose|j: int| 0 <= j < front.len() && front[j] == v;
                    assert(entry_points[j] == v);
                }
            }
            assert forall|v: usize| entry_points.to_set().contains(v) implies front.to_set().insert(
                last,
            ).contains(v) by {
                let j = choose|j: int| 0 <= j < entry_points.len() && entry_points[j] == v;
                if j < front.len() {
                    assert(front[j] == v);
                }
            }
        }
    } else {
        assert(entry_points.to_set() =~= Set::empty());
    }
}

/// Expanding a frontier node keeps a state consistent and brings the search
/// nearer to its end.
pub proof fn lemma_expanded_consistent(
    t: Terrain,
    beam: BeamView,
    n: nat,
    allowed: spec_fn(usize) -> bool,
    ef: nat,
)
    requires
        t.consistent(beam, n, allowed),
        t.closed_under(n, allowed),
        beam.frontier.len() > 0,
    ensures
        t.consistent(t.expanded(beam, ef), n, allowed),
        beam.visited.subset_of(t.expanded(beam, ef).visited),
        t.surveyed(t.expanded(beam, ef), beam.frontier[0].node),
        t.expanded(beam, ef).frontier.len() - t.expanded(beam, ef).visited.len()
            < beam.frontier.len() - beam.visited.len(),
{
    let c = beam.frontier[0];
    let rest = BeamView { frontier: beam.frontier.drop_first(), ..beam };
    assert forall|i: int| 0 <= i < rest.frontier.len() implies (#[trigger] rest.frontier[i])
        == t.score(rest.frontier[i].node) && rest.visited.contains(rest.frontier[i].node) by {
        assert(rest.frontier[i] == beam.frontier[i + 1]);
    }
    assert(sorted(rest.frontier)) by {
        assert forall|i: int, j: int| 0 <= i < j < rest.frontier.len() implies (
        #[trigger] rest.frontier[i]).up_to(#[trigger] rest.frontier[j]) by {
            assert(beam.frontier[i + 1].up_to(beam.frontier[j + 1]));
        }
    }
    lemma_offer_all_consistent(t, rest, n, allowed, ef, (t.neighbours)(c.node));
}

/// The steps that are left: every frontier node, and every node not yet seen.
pub open spec fn steps_left(beam: BeamView, n: nat) -> int {
    n - beam.visited.len() + beam.frontier.len()
}

/// There is a step left for every node on the frontier.
pub proof fn lemma_steps_left(
    t: Terrain,
    beam: BeamView,
    n: nat,
    allowed: spec_fn(usize) -> bool,
)
    requires
        t.consistent(beam, n, allowed),
    ensures
        steps_left(beam, n) >= beam.frontier.len(),
{
    lemma_bounded_set(beam.visited, n);
}

/// Enough steps settle a search: one more step changes nothing, and the final
/// state is consistent.
pub proof fn lemma_explored(
    t: Terrain,
    beam: BeamView,
    n: nat,
    allowed: spec_fn(usize) -> bool,
    ef: nat,
    steps: nat,
)
    requires
        t.consistent(beam, n, allowed),
        t.closed_under(n, allowed),
        steps_left(beam, n) <= steps,
    ensures
        t.consistent(t.explored(beam, ef, steps), n, allowed),
        t.explored(beam, ef, steps).settled(ef),
    decreases steps,
{
    lemma_bounded_set(beam.visited, n);
    if !beam.settled(ef) {
        lemma_expanded_consistent(t, beam, n, allowed, ef);
        let next = t.expanded(beam, ef);
        lemma_bounded_set(next.visited, n);
        lemma_explored(t, next, n, allowed, ef, (steps - 1) as nat);
    }
}

/// Looking at a node keeps as many nodes as there can be.
proof fn lemma_offered_full(
    t: Terrain,
    beam: BeamView,
    n: nat,
    allowed: spec_fn(usize) -> bool,
    ef: nat,
    node: usize,
)
    requires
        t.consistent(beam, n, allowed),
        t.full(beam, ef),
    ensures
        t.full(beam.offered(ef, t.score(node)), ef),
{
    let s = t.score(node);
    if !beam.visited.contains(node) && beam.admits(ef, s.dist) {
        assert(!has_node(beam.nearest, node));
        crate::order::lemma_insert_sorted(beam.nearest, s);
        crate::order::lemma_insert_sorted_distinct(beam.nearest, s);
    }
}

/// Looking at a node loses no node that is still to be expanded.
proof fn lemma_offered_accounted(
    t: Terrain,
    beam: BeamView,
    n: nat,
    allowed: spec_fn(usize) -> bool,
    ef: nat,
    node: usize,
    except: Option<usize>,
)
    requires
        t.consistent(beam, n, allowed),
        t.accounted(beam, except),
    ensures
        t.accounted(beam.offered(ef, t.score(node)), except),
{
    let s = t.score(node);
    let next = beam.offered(ef, s);
    if !beam.visited.contains(node) {
        if beam.admits(ef, s.dist) {
            let p = crate::order::position(beam.nearest, s) as int;
            let q = crate::order::position(beam.frontier, s) as int;
            crate::order::lemma_insert_sorted(beam.nearest, s);
            crate::order::lemma_insert_sorted(beam.frontier, s);
            assert forall|i: int| 0 <= i < next.nearest.len() implies next.frontier.contains(
                #[trigger] next.nearest[i],
            ) || t.surveyed(next, next.nearest[i].node) || except == Some(
                next.nearest[i].node,
            ) by {
                assert(next.nearest[i] == insert_sorted(beam.nearest, s)[i]);
                if i == p {
                    assert(next.frontier[q] == s);
                } else {
                    let k = if i < p { i } else { i - 1 };
                    let x = beam.nearest[k];
                    assert(next.nearest[i] == x);
                    if beam.frontier.contains(x) {
                        let f = choose|f: int|
                            0 <= f < beam.frontier.len() && beam.frontier[f] == x;
                        let g = if f < q { f } else { f + 1 };
                        assert(next.frontier[g] == x);
                    }
                }
            }
        }
    }
}

/// Looking at a node leaves out no node that is nearer than a kept one.
proof fn lemma_offered_best_kept(
    t: Terrain,
    beam: BeamView,
    n: nat,
    allowed: spec_fn(usize) -> bool,
    ef: nat,
    node: usize,
)
    requires
        t.consistent(beam, n, allowed),
        t.numeric(n),
        t.best_kept(beam, ef),
        beam.nearest.len() <= ef,
        node < n,
    ensures
        t.best_kept(beam.offered(ef, t.score(node)), ef),
{
    let s = t.score(node);
    let next = beam.offered(ef, s);
    if !beam.visited.contains(node) {
        assert(!(t.dist)(node).nan());
        if beam.admits(ef, s.dist) {
            let p = crate::order::position(beam.nearest, s) as int;
            let all = insert_sorted(beam.nearest, s);
            crate::order::lemma_insert_sorted(beam.nearest, s);
            assert forall|v: usize| #[trigger]
                next.visited.contains(v) && !has_node(next.nearest, v) implies next.nearest.len()
                >= ef by {
                if all.len() <= ef {
                    assert(next.nearest == all);
                    if v == node {
                        assert(all[p].node == v);
                    } else {
                        assert(beam.visited.contains(v));
                        if has_node(beam.nearest, v) {
                            let k = choose|k: int|
                                0 <= k < beam.nearest.len() && (#[trigger] beam.nearest[k]).node
                                    == v;
                            let l = if k < p { k } else { k + 1 };
                            assert(all[l].node == v);
                        }
                    }
                }
            }
            assert forall|v: usize, i: int| #[trigger]
                next.visited.contains(v) && !has_node(next.nearest, v) && 0 <= i
                    < next.nearest.len() implies (#[trigger] next.nearest[i]).dist.signed() <= (
            t.dist)(v).signed() by {
                assert(next.nearest[i] == all[i]);
                assert(!(t.dist)(v).nan());
                assert(all[i] == if i < p {
                    beam.nearest[i]
                } else if i == p {
                    s
                } else {
                    beam.nearest[i - 1]
                });
                assert(!(t.dist)(all[i].node).nan());
                if v == node {
                    assert(all[p].node == v);
                    assert(p >= next.nearest.len()) by {
                        if p < next.nearest.len() {
                            assert(next.nearest[p].node == v);
                        }
                    }
                    assert(all[i].up_to(all[p]));
                } else if has_node(beam.nearest, v) {
                    let k = choose|k: int|
                        0 <= k < beam.nearest.len() && (#[trigger] beam.nearest[k]).node == v;
                    let l = if k < p { k } else { k + 1 };
                    assert(all[l] == beam.nearest[k]);
                    assert(l >= next.nearest.len()) by {
                        if l < next.nearest.len() {
                            assert(next.nearest[l].node == v);
                        }
                    }
                    assert(all[i].up_to(all[l]));
                } else {
                    assert(beam.visited.contains(v));
                    if i == p {
                        let last = beam.nearest.last();
                        assert(last == beam.nearest[beam.nearest.len() - 1]);
                        assert(last.dist.signed() <= (t.dist)(v).signed());
                    }
                }
            }
        } else {
            assert forall|v: usize, i: int| #[trigger]
                next.visited.contains(v) && !has_node(next.nearest, v) && 0 <= i
                    < next.nearest.len() implies (#[trigger] next.nearest[i]).dist.signed() <= (
            t.dist)(v).signed() by {
                if v == node {
                    let last = beam.nearest.last();
                    assert(last == beam.nearest[beam.nearest.len() - 1]);
                    assert(!(t.dist)(last.node).nan());
                    assert(!(t.dist)(beam.nearest[i].node).nan());
                    assert(i == beam.nearest.len() - 1 || beam.nearest[i].up_to(last));
                } else {
                    assert(beam.visited.contains(v));
                }
            }
        }
    }
}

/// What holds of a state is kept while neighbours are looked at.
proof fn lemma_offer_all_kept(
    t: Terrain,
    beam: BeamView,
    n: nat,
    allowed: spec_fn(usize) -> bool,
    ef: nat,
    es: Seq<u32>,
    except: Option<usize>,
)
    requires
        t.consistent(beam, n, allowed),
        forall|j: int| 0 <= j < es.len() ==> (#[trigger] es[j]) < n && allowed(es[j] as usize),
        t.full(beam, ef),
        t.accounted(beam, except),
        t.numeric(n) ==> t.best_kept(beam, ef),
    ensures
        t.full(t.offer_all(beam, ef, es), ef),
        t.accounted(t.offer_all(beam, ef, es), except),
        t.numeric(n) ==> t.best_kept(t.offer_all(beam, ef, es), ef),
    decreases es.len(),
{
    if es.len() > 0 {
        let front = es.drop_last();
        assert forall|j: int| 0 <= j < front.len() implies (#[trigger] front[j]) < n && allowed(
            front[j] as usize,
        ) by {
            assert(front[j] == es[j]);
        }
        lemma_offer_all_consistent(t, beam, n, allowed, ef, front);
        lemma_offer_all_kept(t, beam, n, allowed, ef, front, except);
        let mid = t.offer_all(beam, ef, front);
        let node = es.last() as usize;
        lemma_offered_full(t, mid, n, allowed, ef, node);
        lemma_offered_accounted(t, mid, n, allowed, ef, node, except);
        if t.numeric(n) {
            lemma_offered_best_kept(t, mid, n, allowed, ef, node);
        }
    }
}

/// What holds of a state is kept by every step up to the end of the search.
proof fn lemma_explored_kept(
    t: Terrain,
    beam: BeamView,
    n: nat,
    allowed: spec_fn(usize) -> bool,
    ef: nat,
    steps: nat,
)
    requires
        t.consistent(beam, n, allowed),
        t.closed_under(n, allowed),
        t.full(beam, ef),
        t.accounted(beam, None),
        t.numeric(n) ==> t.best_kept(beam, ef),
    ensures
        t.full(t.explored(beam, ef, steps), ef),
        t.accounted(t.explored(beam, ef, steps), None),
        t.numeric(n) ==> t.best_kept(t.explored(beam, ef, steps), ef),
        beam.visited.subset_of(t.explored(beam, ef, steps).visited),
    decreases steps,
{
    if steps > 0 && !beam.settled(ef) {
        let c = beam.frontier[0];
        let rest = BeamView { frontier: beam.frontier.drop_first(), ..beam };
        let next = t.expanded(beam, ef);
        lemma_expanded_consistent(t, beam, n, allowed, ef);
        assert(t.accounted(rest, Some(c.node))) by {
            assert forall|i: int| 0 <= i < rest.nearest.len() implies rest.frontier.contains(
                #[trigger] rest.nearest[i],
            ) || t.surveyed(rest, rest.nearest[i].node) || Some(c.node) == Some(
                rest.nearest[i].node,
            ) by {
                let x = rest.nearest[i];
                if beam.frontier.contains(x) {
                    let f = choose|f: int| 0 <= f < beam.frontier.len() && beam.frontier[f] == x;
                    if f > 0 {
                        assert(rest.frontier[f - 1] == x);
                    }
                }
            }
        }
        assert(t.consistent(rest, n, allowed)) by {
            assert forall|i: int| 0 <= i < rest.frontier.len() implies (#[trigger] rest.frontier[i])
                == t.score(rest.frontier[i].node) && rest.visited.contains(
                rest.frontier[i].node,
            ) by {
                assert(rest.frontier[i] == beam.frontier[i + 1]);
            }
            assert forall|i: int, j: int| 0 <= i < j < rest.frontier.len() implies (
            #[trigger] rest.frontier[i]).up_to(#[trigger] rest.frontier[j]) by {
                assert(beam.frontier[i + 1].up_to(beam.frontier[j + 1]));
            }
        }
        assert(t.numeric(n) ==> t.best_kept(rest, ef));
        assert(c == beam.frontier[0] && beam.visited.contains(c.node));
        lemma_offer_all_kept(
            t,
            rest,
            n,
            allowed,
            ef,
            (t.neighbours)(c.node),
            Some(c.node),
        );
        assert(t.accounted(next, None)) by {
            assert forall|i: int| 0 <= i < next.nearest.len() implies next.frontier.contains(
                #[trigger] next.nearest[i],
            ) || t.surveyed(next, next.nearest[i].node) || None::<usize> == Some(
                next.nearest[i].node,
            ) by {
                if next.nearest[i].node == c.node {
                    assert(t.surveyed(next, c.node));
                }
            }
        }
        lemma_explored_kept(t, next, n, allowed, ef, (steps - 1) as nat);
    }
}

/// The state after seeding distinct entry points and trimming has every
/// property that the search keeps.
proof fn lemma_seed_all_kept(
    t: Terrain,
    n: nat,
    allowed: spec_fn(usize) -> bool,
    entry_points: Seq<usize>,
    ef: nat,
)
    requires
        forall|j: int|
            0 <= j < entry_points.len() ==> (#[trigger] entry_points[j]) < n && allowed(
                entry_points[j],
            ),
        entry_points.no_duplicates(),
    ensures
        t.full(t.seed_all(entry_points).trimmed(ef), ef),
        t.accounted(t.seed_all(entry_points).trimmed(ef), None),
        t.numeric(n) ==> t.best_kept(t.seed_all(entry_points).trimmed(ef), ef),
{
    lemma_seed_all_consistent(t, n, allowed, entry_points);
    lemma_seed_all_nodes(t, n, allowed, entry_points);
    let all = t.seed_all(entry_points);
    let start = all.trimmed(ef);
    entry_points.unique_seq_to_set();
    assert forall|i: int, j: int| 0 <= i < j < start.nearest.len() implies (
    #[trigger] start.nearest[i]).node != (#[trigger] start.nearest[j]).node by {
        assert(start.nearest[i] == all.nearest[i] && start.nearest[j] == all.nearest[j]);
    }
    assert forall|i: int| 0 <= i < start.nearest.len() implies start.frontier.contains(
        #[trigger] start.nearest[i],
    ) by {
        assert(start.nearest[i] == all.nearest[i]);
        assert(start.frontier[i] == start.nearest[i]);
    }
    if t.numeric(n) {
        assert forall|v: usize, i: int| #[trigger]
            start.visited.contains(v) && !has_node(start.nearest, v) && 0 <= i
                < start.nearest.len() implies (#[trigger] start.nearest[i]).dist.signed() <= (
        t.dist)(v).signed() by {
            let k = choose|k: int|
                0 <= k < all.nearest.len() && (#[trigger] all.nearest[k]).node == v;
            assert(!(t.dist)(v).nan());
            assert(!(t.dist)(all.nearest[i].node).nan());
            assert(start.nearest[i] == all.nearest[i]);
            assert(k >= start.nearest.len()) by {
                if k < start.nearest.len() {
                    assert(start.nearest[k].node == v);
                }
            }
            assert(all.nearest[i].up_to(all.nearest[k]));
        }
        assert forall|v: usize| #[trigger]
            start.visited.contains(v) && !has_node(start.nearest, v) implies start.nearest.len()
            >= ef by {
            if start.nearest.len() < ef {
                assert(start.nearest == all.nearest);
            }
        }
    }
}

/// Seeding keeps every entry point on the frontier and among the nearest nodes.
proof fn lemma_seed_all_nodes(
    t: Terrain,
    n: nat,
    allowed: spec_fn(usize) -> bool,
    entry_points: Seq<usize>,
)
    requires
        forall|j: int|
            0 <= j < entry_points.len() ==> (#[trigger] entry_points[j]) < n && allowed(
                entry_points[j],
            ),
        entry_points.no_duplicates(),
    ensures
        t.seed_all(entry_points).nearest == t.seed_all(entry_points).frontier,
        distinct_nodes(t.seed_all(entry_points).nearest),
        forall|v: usize| #[trigger]
            t.seed_all(entry_points).visited.contains(v) ==> has_node(
                t.seed_all(entry_points).nearest,
                v,
            ),
    decreases entry_points.len(),
{
    if entry_points.len() > 0 {
        let front = entry_points.drop_last();
        let last = entry_points.last();
        let before = t.seed_all(front);
        let after = t.seed_all(entry_points);
        let s = t.score(last);
        assert forall|j: int| 0 <= j < front.len() implies (#[trigger] front[j]) < n && allowed(
            front[j],
        ) by {
            assert(front[j] == entry_points[j]);
        }
        assert(front.no_duplicates()) by {
            assert forall|i: int, j: int| 0 <= i < front.len() && 0 <= j < front.len() && i
                != j implies front[i] != front[j] by {
                assert(entry_points[i] != entry_points[j]);
            }
        }
        lemma_seed_all_nodes(t, n, allowed, front);
        lemma_seed_all_consistent(t, n, allowed, front);
        assert(!before.visited.contains(last)) by {
            if front.to_set().contains(last) {
                let j = choose|j: int| 0 <= j < front.len() && front[j] == last;
                assert(entry_points[j] == entry_points[entry_points.len() - 1]);
            }
        }
        assert(!has_node(before.nearest, last));
        crate::order::lemma_insert_sorted(before.nearest, s);
        crate::order::lemma_insert_sorted_distinct(before.nearest, s);
        let p = crate::order::position(before.nearest, s) as int;
        assert forall|v: usize| #[trigger] after.visited.contains(v) implies has_node(
            after.nearest,
            v,
        ) by {
            if v == last {
                assert(after.nearest[p].node == v);
            } else {
                assert(before.visited.contains(v));
                let k = choose|k: int|
                    0 <= k < before.nearest.len() && (#[trigger] before.nearest[k]).node == v;
                let l = if k < p { k } else { k + 1 };
                assert(after.nearest[l] == before.nearest[k]);
            }
        }
    }
}

/// Everything that holds of the end of a search from distinct entry points.
pub proof fn lemma_final_beam(
    t: Terrain,
    entry_points: Seq<usize>,
    ef: nat,
    n: nat,
    allowed: spec_fn(usize) -> bool,
)
    requires
        t.closed_under(n, allowed),
        forall|j: int|
            0 <= j < entry_points.len() ==> (#[trigger] entry_points[j]) < n && allowed(
                entry_points[j],
            ),
        entry_points.no_duplicates(),
    ensures
        t.consistent(t.final_beam(entry_points, ef, n), n, allowed),
        t.final_beam(entry_points, ef, n).settled(ef),
        t.full(t.final_beam(entry_points, ef, n), ef),
        t.accounted(t.final_beam(entry_points, ef, n), None),
        t.numeric(n) ==> t.best_kept(t.final_beam(entry_points, ef, n), ef),
        entry_points.to_set().subset_of(t.final_beam(entry_points, ef, n).visited),
        t.final_beam(entry_points, ef, n).visited.len() >= entry_points.len(),
{
    let start = t.seed_all(entry_points).trimmed(ef);
    lemma_seed_all_consistent(t, n, allowed, entry_points);
    lemma_trimmed_consistent(t, t.seed_all(entry_points), n, allowed, ef);
    lemma_seed_all_kept(t, n, allowed, entry_points, ef);
    lemma_bounded_set(start.visited, n);
    lemma_explored(t, start, n, allowed, ef, n + entry_points.len());
    lemma_explored_kept(t, start, n, allowed, ef, n + entry_points.len());
    entry_points.unique_seq_to_set();
    vstd::set_lib::lemma_len_subset(
        entry_points.to_set(),
        t.final_beam(entry_points, ef, n).visited,
    );
}

/// A search returns at most `ef` nodes, nearest first, each at its true distance
/// and none of them twice. From an entry point it finds something unless `ef` is
/// zero.
pub proof fn law_search_result(
    t: Terrain,
    entry_points: Seq<usize>,
    ef: nat,
    n: nat,
    allowed: spec_fn(usize) -> bool,
)
    requires
        t.closed_under(n, allowed),
        forall|j: int|
            0 <= j < entry_points.len() ==> (#[trigger] entry_points[j]) < n && allowed(
                entry_points[j],
            ),
        entry_points.no_duplicates(),
    ensures
        sorted(t.search(entry_points, ef, n)),
        distinct_nodes(t.search(entry_points, ef, n)),
        t.search(entry_points, ef, n).len() <= ef,
        entry_points.len() > 0 && ef > 0 ==> t.search(entry_points, ef, n).len() > 0,
        forall|i: int|
            0 <= i < t.search(entry_points, ef, n).len() ==> (#[trigger] t.search(
                entry_points,
                ef,
                n,
            )[i]) == t.score(t.search(entry_points, ef, n)[i].node) && t.search(
                entry_points,
                ef,
                n,
            )[i].node < n && allowed(t.search(entry_points, ef, n)[i].node),
{
    lemma_final_beam(t, entry_points, ef, n, allowed);
}

/// A search keeps the `ef` closest nodes that it has seen: while it keeps fewer,
/// it keeps all of them, and otherwise no seen node that it left out is nearer
/// than one that it kept.
pub proof fn law_search_keeps_the_closest_seen(
    t: Terrain,
    entry_points: Seq<usize>,
    ef: nat,
    n: nat,
    allowed: spec_fn(usize) -> bool,
    seen: usize,
)
    requires
        t.numeric(n),
        t.closed_under(n, allowed),
        forall|j: int|
            0 <= j < entry_points.len() ==> (#[trigger] entry_points[j]) < n && allowed(
                entry_points[j],
            ),
        entry_points.no_duplicates(),
        t.final_beam(entry_points, ef, n).visited.contains(seen),
        !has_node(t.search(entry_points, ef, n), seen),
    ensures
        t.search(entry_points, ef, n).len() == ef,
        forall|i: int|
            0 <= i < t.search(entry_points, ef, n).len() ==> !(t.dist)(seen).less(
                (#[trigger] t.search(entry_points, ef, n)[i]).dist,
            ),
{
    lemma_final_beam(t, entry_points, ef, n, allowed);
}

/// A search ends at a local optimum: it has seen every neighbour of every node
/// that it returns, so such a neighbour is returned too, or it is no nearer than
/// any of `ef` results.
pub proof fn law_search_ends_at_a_local_optimum(
    t: Terrain,
    entry_points: Seq<usize>,
    ef: nat,
    n: nat,
    allowed: spec_fn(usize) -> bool,
    i: int,
    j: int,
)
    requires
        t.numeric(n),
        t.closed_under(n, allowed),
        forall|j: int|
            0 <= j < entry_points.len() ==> (#[trigger] entry_points[j]) < n && allowed(
                entry_points[j],
            ),
        entry_points.no_duplicates(),
        0 <= i < t.search(entry_points, ef, n).len(),
        0 <= j < (t.neighbours)(t.search(entry_points, ef, n)[i].node).len(),
    ensures
        ({
            let result = t.search(entry_points, ef, n);
            let neighbour = (t.neighbours)(result[i].node)[j] as usize;
            ||| has_node(result, neighbour)
            ||| result.len() == ef && forall|k: int|
                0 <= k < result.len() ==> !(t.dist)(neighbour).less((#[trigger] result[k]).dist)
        }),
{
    lemma_final_beam(t, entry_points, ef, n, allowed);
    let end = t.final_beam(entry_points, ef, n);
    let r = end.nearest[i];
    let neighbour = (t.neighbours)(r.node)[j] as usize;
    if end.frontier.contains(r) {
        let f = choose|f: int| 0 <= f < end.frontier.len() && end.frontier[f] == r;
        let last = end.nearest.last();
        assert(last == end.nearest[end.nearest.len() - 1]);
        assert(f == 0 || end.frontier[0].up_to(end.frontier[f]));
        assert(i == end.nearest.len() - 1 || end.nearest[i].up_to(last));
        assert(false);
    }
    assert(t.surveyed(end, r.node));
    if !has_node(end.nearest, neighbour) {
        law_search_keeps_the_closest_seen(t, entry_points, ef, n, allowed, neighbour);
    }
}

/// A search that returns fewer than `ef` nodes has returned everything that its
/// entry points lead to: the entry points themselves, and every neighbour of
/// every node that it returns.
pub proof fn law_short_search_is_exhaustive(
    t: Terrain,
    entry_points: Seq<usize>,
    ef: nat,
    n: nat,
    allowed: spec_fn(usize) -> bool,
)
    requires
        t.closed_under(n, allowed),
        forall|j: int|
            0 <= j < entry_points.len() ==> (#[trigger] entry_points[j]) < n && allowed(
                entry_points[j],
            ),
        entry_points.no_duplicates(),
        t.search(entry_points, ef, n).len() < ef,
    ensures
        forall|j: int|
            0 <= j < entry_points.len() ==> has_node(
                t.search(entry_points, ef, n),
                #[trigger] entry_points[j],
            ),
        forall|v: usize, j: int|
            has_node(t.search(entry_points, ef, n), v) && 0 <= j < (t.neighbours)(v).len()
                ==> has_node(
                t.search(entry_points, ef, n),
                #[trigger] (t.neighbours)(v)[j] as usize,
            ),
{
    lemma_final_beam(t, entry_points, ef, n, allowed);
    let end = t.final_beam(entry_points, ef, n);
    let nodes = Seq::new(end.nearest.len(), |i: int| end.nearest[i].node);
    assert(nodes.no_duplicates()) by {
        assert forall|i: int, j: int|
            0 <= i < nodes.len() && 0 <= j < nodes.len() && i != j implies nodes[i] != nodes[j] by {
            assert(end.nearest[i].node != end.nearest[j].node);
        }
    }
    nodes.unique_seq_to_set();
    assert(nodes.to_set().subset_of(end.visited)) by {
        assert forall|v: usize| nodes.to_set().contains(v) implies end.visited.contains(v) by {
            let i = choose|i: int| 0 <= i < nodes.len() && nodes[i] == v;
            assert(end.visited.contains(end.nearest[i].node));
        }
    }
    vstd::set_lib::lemma_subset_equality(nodes.to_set(), end.visited);
    assert forall|v: usize| end.visited.contains(v) implies has_node(end.nearest, v) by {
        let i = choose|i: int| 0 <= i < nodes.len() && nodes[i] == v;
        assert(end.nearest[i].node == v);
    }
    assert forall|j: int| 0 <= j < entry_points.len() implies has_node(
        end.nearest,
        #[trigger] entry_points[j],
    ) by {
        assert(entry_points.to_set().contains(entry_points[j]));
    }
    assert forall|v: usize, j: int|
        has_node(end.nearest, v) && 0 <= j < (t.neighbours)(v).len() implies has_node(
        end.nearest,
        #[trigger] (t.neighbours)(v)[j] as usize,
    ) by {
        let i = choose|i: int| 0 <= i < end.nearest.len() && (#[trigger] end.nearest[i]).node == v;
        assert(!end.frontier.contains(end.nearest[i]));
        assert(t.surveyed(end, v));
    }
}

/// A search is never worse off than where it starts: no entry point is nearer than
/// the nearest node that it returns.
pub proof fn law_search_is_no_farther_than_its_start(
    t: Terrain,
    entry_points: Seq<usize>,
    ef: nat,
    n: nat,
    allowed: spec_fn(usize) -> bool,
    e: int,
)
    requires
        t.numeric(n),
        t.closed_under(n, allowed),
        forall|j: int|
            0 <= j < entry_points.len() ==> (#[trigger] entry_points[j]) < n && allowed(
                entry_points[j],
            ),
        entry_points.no_duplicates(),
        0 <= e < entry_points.len(),
        ef > 0,
    ensures
        t.search(entry_points, ef, n).len() > 0,
        !(t.dist)(entry_points[e]).less(t.search(entry_points, ef, n)[0].dist),
{
    lemma_final_beam(t, entry_points, ef, n, allowed);
    law_search_result(t, entry_points, ef, n, allowed);
    let found = t.search(entry_points, ef, n);
    let start = entry_points[e];
    assert(entry_points.to_set().contains(start));
    if has_node(found, start) {
        let i = choose|i: int| 0 <= i < found.len() && (#[trigger] found[i]).node == start;
        assert(found[i] == t.score(start));
        assert(i == 0 || found[0].up_to(found[i]));
        assert(!(t.dist)(found[0].node).nan() && !(t.dist)(start).nan());
        assert(found[0] == t.score(found[0].node));
    } else {
        law_search_keeps_the_closest_seen(t, entry_points, ef, n, allowed, start);
    }
}

} // verus!
