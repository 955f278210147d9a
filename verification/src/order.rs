//! Scored candidates and the order that drives every search.
//!
//! A search ranks candidates by distance, nearest first, with the candidate's
//! position as the tie-break, so that no two distinct candidates rank equally
//! and every sorted list of candidates is determined by its contents.

use crate::float::Single;
use vstd::prelude::*;
use vstd::relations::{sorted_by, total_ordering};
use vstd::seq_lib::{lemma_multiset_commutative, lemma_sorted_unique};

verus! {

/// A stored vector, by its position, paired with its distance to some point.
#[derive(Debug, Clone, Copy)]
pub struct Scored {
    /// Distance to the point in question.
    pub dist: Single,
    /// Position of the stored vector.
    pub node: usize,
}

impl Scored {
    /// Does `self` rank strictly before `other`?
    pub open spec fn before(self, other: Scored) -> bool {
        ||| self.dist.rank() < other.dist.rank()
        ||| self.dist.rank() == other.dist.rank() && self.node < other.node
    }

    /// Does `self` rank before or at the place of `other`?
    pub open spec fn up_to(self, other: Scored) -> bool {
        !other.before(self)
    }

    /// Does `self` rank strictly before `other`?
    pub fn lt(self, other: Scored) -> (b: bool)
        ensures
            b == self.before(other),
    {
        self.dist.total_lt(other.dist) || (!other.dist.total_lt(self.dist) && self.node
            < other.node)
    }
}

/// The candidates stand nearest first.
pub open spec fn sorted(s: Seq<Scored>) -> bool {
    forall|i: int, j: int| 0 <= i < j < s.len() ==> (#[trigger] s[i]).up_to(#[trigger] s[j])
}

/// No two candidates are the same stored vector.
pub open spec fn distinct_nodes(s: Seq<Scored>) -> bool {
    forall|i: int, j: int|
        0 <= i < j < s.len() ==> (#[trigger] s[i]).node != (#[trigger] s[j]).node
}

/// Some candidate is the stored vector at `node`.
pub open spec fn has_node(s: Seq<Scored>, node: usize) -> bool {
    exists|i: int| 0 <= i < s.len() && (#[trigger] s[i]).node == node
}

/// How many candidates at the front of `s` rank strictly before `x`.
pub open spec fn position(s: Seq<Scored>, x: Scored) -> nat
    decreases s.len(),
{
    if s.len() == 0 || !s[0].before(x) {
        0
    } else {
        1 + position(s.drop_first(), x)
    }
}

/// The sorted list `s` with `x` put in its place.
pub open spec fn insert_sorted(s: Seq<Scored>, x: Scored) -> Seq<Scored> {
    s.insert(position(s, x) as int, x)
}

/// The candidates of `s`, nearest first.
pub open spec fn sort(s: Seq<Scored>) -> Seq<Scored>
    decreases s.len(),
{
    if s.len() == 0 {
        s
    } else {
        insert_sorted(sort(s.drop_last()), s.last())
    }
}

/// Ranking is a total order, and candidates that rank equally are the same.
pub proof fn lemma_total_order()
    ensures
        total_ordering(|a: Scored, b: Scored| a.up_to(b)),
{
    assert forall|a: Scored, b: Scored| a.up_to(b) && b.up_to(a) implies a == b by {
        assert(a.dist.bits == b.dist.bits);
    }
}

proof fn lemma_position_bound(s: Seq<Scored>, x: Scored)
    ensures
        position(s, x) <= s.len(),
    decreases s.len(),
{
    if s.len() > 0 && s[0].before(x) {
        lemma_position_bound(s.drop_first(), x);
    }
}

/// The place of `x` is where smaller candidates end.
proof fn lemma_position_splits(s: Seq<Scored>, x: Scored)
    requires
        sorted(s),
    ensures
        position(s, x) <= s.len(),
        forall|i: int| 0 <= i < position(s, x) ==> (#[trigger] s[i]).before(x),
        forall|i: int| position(s, x) <= i < s.len() ==> x.up_to(#[trigger] s[i]),
    decreases s.len(),
{
    if s.len() > 0 {
        if s[0].before(x) {
            let t = s.drop_first();
            assert(sorted(t));
            lemma_position_splits(t, x);
            assert forall|i: int| 0 <= i < position(s, x) implies (#[trigger] s[i]).before(x) by {
                if i > 0 {
                    assert(s[i] == t[i - 1]);
                }
            }
            assert forall|i: int| position(s, x) <= i < s.len() implies x.up_to(
                #[trigger] s[i],
            ) by {
                assert(s[i] == t[i - 1]);
            }
        } else {
            assert forall|i: int| position(s, x) <= i < s.len() implies x.up_to(
                #[trigger] s[i],
            ) by {
                assert(i == 0 || s[0].up_to(s[i]));
            }
        }
    }
}

/// Whatever index separates the smaller candidates from the rest is the place
/// of `x`.
proof fn lemma_position_unique(s: Seq<Scored>, x: Scored, at: int)
    requires
        0 <= at <= s.len(),
        forall|i: int| 0 <= i < at ==> (#[trigger] s[i]).before(x),
        at < s.len() ==> x.up_to(s[at]),
    ensures
        position(s, x) == at,
    decreases s.len(),
{
    if s.len() > 0 && at > 0 {
        let t = s.drop_first();
        assert forall|i: int| 0 <= i < at - 1 implies (#[trigger] t[i]).before(x) by {
            assert(t[i] == s[i + 1]);
        }
        lemma_position_unique(t, x, at - 1);
    }
}

/// Putting a candidate in its place keeps a list sorted and adds exactly that
/// candidate.
pub proof fn lemma_insert_sorted(s: Seq<Scored>, x: Scored)
    requires
        sorted(s),
    ensures
        sorted(insert_sorted(s, x)),
        insert_sorted(s, x).len() == s.len() + 1,
        insert_sorted(s, x).to_multiset() == s.to_multiset().insert(x),
        insert_sorted(s, x)[position(s, x) as int] == x,
        position(s, x) <= s.len(),
        forall|i: int|
            0 <= i < s.len() ==> #[trigger] s[i] == insert_sorted(s, x)[if i < position(s, x) {
                i
            } else {
                i + 1
            }],
        forall|i: int|
            0 <= i <= s.len() ==> #[trigger] insert_sorted(s, x)[i] == if i < position(s, x) {
                s[i]
            } else if i == position(s, x) {
                x
            } else {
                s[i - 1]
            },
{
    lemma_position_splits(s, x);
    let r = insert_sorted(s, x);
    let p = position(s, x) as int;
    assert forall|i: int, j: int| 0 <= i < j < r.len() implies (#[trigger] r[i]).up_to(
        #[trigger] r[j],
    ) by {
        if i < p {
            assert(r[i] == s[i]);
        } else if i > p {
            assert(r[i] == s[i - 1]);
        }
        if j < p {
            assert(r[j] == s[j]);
        } else if j > p {
            assert(r[j] == s[j - 1]);
        }
    }
    vstd::seq_lib::to_multiset_insert(s, p, x);
}

/// Putting a candidate for a new node in its place keeps the nodes distinct.
pub proof fn lemma_insert_sorted_distinct(s: Seq<Scored>, x: Scored)
    requires
        sorted(s),
        distinct_nodes(s),
        !has_node(s, x.node),
    ensures
        distinct_nodes(insert_sorted(s, x)),
{
    lemma_insert_sorted(s, x);
    let r = insert_sorted(s, x);
    assert forall|i: int, j: int| 0 <= i < j < r.len() implies (#[trigger] r[i]).node != (
    #[trigger] r[j]).node by {
        let p = position(s, x) as int;
        if i < p {
            assert(r[i] == s[i]);
        } else if i > p {
            assert(r[i] == s[i - 1]);
        }
        if j < p {
            assert(r[j] == s[j]);
        } else if j > p {
            assert(r[j] == s[j - 1]);
        }
    }
}

/// Two sorted lists with the same candidates are the same list.
pub proof fn lemma_sorted_lists_equal(a: Seq<Scored>, b: Seq<Scored>)
    requires
        sorted(a),
        sorted(b),
        a.to_multiset() == b.to_multiset(),
    ensures
        a == b,
{
    let leq = |x: Scored, y: Scored| x.up_to(y);
    lemma_total_order();
    assert(sorted_by(a, leq));
    assert(sorted_by(b, leq));
    lemma_sorted_unique(a, b, leq);
}

/// Sorting keeps the candidates and puts them in order.
pub proof fn lemma_sort(s: Seq<Scored>)
    ensures
        sorted(sort(s)),
        sort(s).to_multiset() == s.to_multiset(),
        sort(s).len() == s.len(),
    decreases s.len(),
{
    if s.len() > 0 {
        lemma_sort(s.drop_last());
        lemma_insert_sorted(sort(s.drop_last()), s.last());
        vstd::seq_lib::to_multiset_build(s.drop_last(), s.last());
        assert(s.drop_last().push(s.last()) =~= s);
    }
}

/// Sorting keeps exactly the nodes that were there.
pub proof fn lemma_sort_nodes(s: Seq<Scored>)
    ensures
        forall|n: usize| has_node(sort(s), n) <==> has_node(s, n),
        forall|i: int| 0 <= i < sort(s).len() ==> s.contains(#[trigger] sort(s)[i]),
        distinct_nodes(s) ==> distinct_nodes(sort(s)),
    decreases s.len(),
{
    if s.len() > 0 {
        let t = s.drop_last();
        let r = sort(s);
        let x = s.last();
        lemma_sort(t);
        lemma_sort_nodes(t);
        lemma_insert_sorted(sort(t), x);
        assert forall|n: usize| has_node(r, n) implies has_node(s, n) by {
            let i = choose|i: int| 0 <= i < r.len() && (#[trigger] r[i]).node == n;
            if r[i] == x {
                assert(s[s.len() - 1].node == n);
            } else {
                let k = if i < position(sort(t), x) { i } else { i - 1 };
                assert(r[i] == sort(t)[k]);
                assert(has_node(sort(t), n));
                let j = choose|j: int| 0 <= j < t.len() && (#[trigger] t[j]).node == n;
                assert(s[j] == t[j]);
            }
        }
        assert forall|n: usize| has_node(s, n) implies has_node(r, n) by {
            let i = choose|i: int| 0 <= i < s.len() && (#[trigger] s[i]).node == n;
            if i == s.len() - 1 {
                assert(r[position(sort(t), x) as int].node == n);
            } else {
                assert(t[i].node == n);
                assert(has_node(t, n));
                let j = choose|j: int| 0 <= j < sort(t).len() && (#[trigger] sort(t)[j]).node == n;
                let k = if j < position(sort(t), x) { j } else { j + 1 };
                assert(r[k].node == n);
            }
        }
        assert forall|i: int| 0 <= i < r.len() implies s.contains(#[trigger] r[i]) by {
            if r[i] == x {
                assert(s[s.len() - 1] == x);
            } else {
                let k = if i < position(sort(t), x) { i } else { i - 1 };
                assert(r[i] == sort(t)[k]);
                let j = choose|j: int| 0 <= j < t.len() && t[j] == sort(t)[k];
                assert(s[j] == t[j]);
            }
        }
        if distinct_nodes(s) {
            assert(distinct_nodes(t)) by {
                assert forall|i: int, j: int| 0 <= i < j < t.len() implies (#[trigger] t[i]).node
                    != (#[trigger] t[j]).node by {
                    assert(s[i] == t[i] && s[j] == t[j]);
                }
            }
            assert(!has_node(sort(t), x.node)) by {
                if has_node(sort(t), x.node) {
                    let j = choose|j: int| 0 <= j < t.len() && (#[trigger] t[j]).node == x.node;
                    assert(s[j].node == s[s.len() - 1].node);
                }
            }
            lemma_insert_sorted_distinct(sort(t), x);
        }
    }
}

/// Put `x` in its place in a sorted list.
pub fn insert(list: &mut Vec<Scored>, x: Scored)
    requires
        sorted(old(list)@),
    ensures
        final(list)@ == insert_sorted(old(list)@, x),
        sorted(final(list)@),
{
    let mut low: usize = 0;
    let mut high: usize = list.len();
    while low < high
        invariant
            low <= high <= list@.len(),
            sorted(list@),
            list@ == old(list)@,
            forall|i: int| 0 <= i < low ==> (#[trigger] list@[i]).before(x),
            forall|i: int| high <= i < list@.len() ==> x.up_to(#[trigger] list@[i]),
        decreases high - low,
    {
        let mid: usize = low + (high - low) / 2;
        if list[mid].lt(x) {
            assert forall|i: int| 0 <= i < mid + 1 implies (#[trigger] list@[i]).before(x) by {
                assert(i == mid || list@[i].up_to(list@[mid as int]));
            }
            low = mid + 1;
        } else {
            assert forall|i: int| mid <= i < list@.len() implies x.up_to(#[trigger] list@[i]) by {
                assert(i == mid || list@[mid as int].up_to(list@[i]));
            }
            high = mid;
        }
    }
    proof {
        lemma_position_unique(list@, x, low as int);
        lemma_insert_sorted(list@, x);
    }
    list.insert(low, x);
}

/// Merge two sorted lists.
fn merge(a: &Vec<Scored>, b: &Vec<Scored>) -> (out: Vec<Scored>)
    requires
        sorted(a@),
        sorted(b@),
    ensures
        sorted(out@),
        out@.to_multiset() == a@.to_multiset().add(b@.to_multiset()),
{
    let mut out: Vec<Scored> = Vec::new();
    let mut i: usize = 0;
    let mut j: usize = 0;
    proof {
        assert(a@.take(0) =~= Seq::<Scored>::empty());
        assert(b@.take(0) =~= Seq::<Scored>::empty());
        lemma_multiset_commutative(a@.take(0), b@.take(0));
        assert(a@.take(0) + b@.take(0) =~= out@);
    }
    while i < a.len() || j < b.len()
        invariant
            i <= a@.len(),
            j <= b@.len(),
            sorted(a@),
            sorted(b@),
            sorted(out@),
            out@.to_multiset() == a@.take(i as int).to_multiset().add(
                b@.take(j as int).to_multiset(),
            ),
            forall|k: int, l: int|
                0 <= k < out@.len() && i <= l < a@.len() ==> (#[trigger] out@[k]).up_to(
                    #[trigger] a@[l],
                ),
            forall|k: int, l: int|
                0 <= k < out@.len() && j <= l < b@.len() ==> (#[trigger] out@[k]).up_to(
                    #[trigger] b@[l],
                ),
        decreases a@.len() - i + b@.len() - j,
    {
        if j >= b.len() || (i < a.len() && !b[j].lt(a[i])) {
            proof {
                assert(a@.take(i as int).push(a@[i as int]) =~= a@.take(i + 1));
                vstd::seq_lib::to_multiset_build(a@.take(i as int), a@[i as int]);
                vstd::seq_lib::to_multiset_build(out@, a@[i as int]);
                assert(out@.push(a@[i as int]).to_multiset() =~= a@.take(i + 1).to_multiset().add(
                    b@.take(j as int).to_multiset(),
                ));
                assert forall|l: int| j <= l < b@.len() implies a@[i as int].up_to(
                    #[trigger] b@[l],
                ) by {
                    assert(l == j || b@[j as int].up_to(b@[l]));
                }
            }
            out.push(a[i]);
            i = i + 1;
        } else {
            proof {
                assert(b@.take(j as int).push(b@[j as int]) =~= b@.take(j + 1));
                vstd::seq_lib::to_multiset_build(b@.take(j as int), b@[j as int]);
                vstd::seq_lib::to_multiset_build(out@, b@[j as int]);
                assert(out@.push(b@[j as int]).to_multiset() =~= a@.take(
                    i as int,
                ).to_multiset().add(b@.take(j + 1).to_multiset()));
                assert forall|l: int| i <= l < a@.len() implies b@[j as int].up_to(
                    #[trigger] a@[l],
                ) by {
                    assert(l == i || a@[i as int].up_to(a@[l]));
                }
            }
            out.push(b[j]);
            j = j + 1;
        }
    }
    proof {
        assert(a@.take(a@.len() as int) =~= a@);
        assert(b@.take(b@.len() as int) =~= b@);
    }
    out
}

/// Sort candidates, nearest first.
pub fn sort_scored(list: Vec<Scored>) -> (out: Vec<Scored>)
    ensures
        out@ == sort(list@),
    decreases list@.len(),
{
    if list.len() <= 1 {
        proof {
            lemma_sort(list@);
            assert(sorted(list@));
            lemma_sorted_lists_equal(list@, sort(list@));
        }
        return list;
    }
    let ghost whole = list@;
    let mut left = list;
    let half: usize = left.len() / 2;
    let right = left.split_off(half);
    proof {
        assert(whole =~= left@ + right@);
        lemma_multiset_commutative(left@, right@);
        lemma_sort(left@);
        lemma_sort(right@);
        lemma_sort(whole);
    }
    let a = sort_scored(left);
    let b = sort_scored(right);
    let out = merge(&a, &b);
    proof {
        lemma_sorted_lists_equal(out@, sort(whole));
    }
    out
}

/// Candidates are ordered by distance, nearest first, and by their position where the
/// distance is the same: sorting gives back the same candidates in that order.
pub proof fn law_sorting_orders_by_distance(s: Seq<Scored>, i: int, j: int)
    requires
        0 <= i < j < s.len(),
    ensures
        sort(s).len() == s.len(),
        sort(s).to_multiset() == s.to_multiset(),
        sort(s)[i].dist.rank() <= sort(s)[j].dist.rank(),
        sort(s)[i].dist.rank() == sort(s)[j].dist.rank() ==> sort(s)[i].node <= sort(s)[j].node,
{
    lemma_sort(s);
    assert(sort(s)[i].up_to(sort(s)[j]));
}

} // verus!
