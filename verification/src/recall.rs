//! How much of the exact answer an approximate answer recovers.
//!
//! An approximate index trades a little accuracy for a lot of speed, so how much
//! accuracy survives has to be measured: the hits of the index under test are
//! held against those of the exact one, query by query.

use crate::index::SearchResult;
use std::collections::HashSet;
use vstd::prelude::*;

verus! {

broadcast use vstd::std_specs::hash::group_hash_axioms;

/// Some hit has this id.
pub open spec fn has_id(hits: Seq<SearchResult>, id: u64) -> bool {
    exists|i: int| 0 <= i < hits.len() && (#[trigger] hits[i]).id == id
}

/// The hits of `candidate` whose ids are among those of `truth`.
pub open spec fn recovered(candidate: Seq<SearchResult>, truth: Seq<SearchResult>) -> Seq<
    SearchResult,
> {
    candidate.filter(|r: SearchResult| has_id(truth, r.id))
}

/// The ids of some hits.
fn ids_of(hits: &Vec<SearchResult>) -> (ids: HashSet<u64>)
    ensures
        forall|id: u64| #[trigger] ids@.contains(id) == has_id(hits@, id),
{
    let mut ids: HashSet<u64> = HashSet::new();
    for i in 0..hits.len()
        invariant
            forall|id: u64| #[trigger] ids@.contains(id) == has_id(hits@.take(i as int), id),
    {
        let ghost before = ids@;
        ids.insert(hits[i].id);
        proof {
            let longer = hits@.take(i + 1);
            let shorter = hits@.take(i as int);
            assert forall|id: u64| #[trigger] ids@.contains(id) == has_id(longer, id) by {
                assert(longer[i as int] == hits@[i as int]);
                if before.contains(id) {
                    let j = choose|j: int| 0 <= j < shorter.len() && (#[trigger] shorter[j]).id
                        == id;
                    assert(longer[j] == shorter[j]);
                }
                if has_id(longer, id) {
                    let j = choose|j: int| 0 <= j < longer.len() && (#[trigger] longer[j]).id
                        == id;
                    if j < i {
                        assert(shorter[j] == longer[j]);
                    }
                }
            }
        }
    }
    assert(hits@.take(hits@.len() as int) =~= hits@);
    ids
}

/// How many hits of `candidate` are among those of `truth`.
pub fn count_recovered(candidate: &Vec<SearchResult>, truth: &Vec<SearchResult>) -> (count: usize)
    ensures
        count == recovered(candidate@, truth@).len(),
{
    let truth_ids = ids_of(truth);
    let mut count: usize = 0;
    proof {
        reveal(Seq::filter);
        assert(candidate@.take(0) =~= Seq::empty());
    }
    for i in 0..candidate.len()
        invariant
            forall|id: u64| #[trigger] truth_ids@.contains(id) == has_id(truth@, id),
            count <= i,
            count == recovered(candidate@.take(i as int), truth@).len(),
    {
        proof {
            let longer = candidate@.take(i + 1);
            assert(longer.drop_last() =~= candidate@.take(i as int));
            assert(longer.last() == candidate@[i as int]);
            reveal(Seq::filter);
        }
        if truth_ids.contains(&candidate[i].id) {
            count += 1;
        }
    }
    assert(candidate@.take(candidate@.len() as int) =~= candidate@);
    count
}

/// For every query, how many hits of the candidate are among the true ones. The
/// lists are paired in order, up to the end of the shorter.
pub fn recovered_per_query(
    candidate: &Vec<Vec<SearchResult>>,
    truth: &Vec<Vec<SearchResult>>,
) -> (counts: Vec<usize>)
    ensures
        counts@.len() == if candidate@.len() < truth@.len() {
            candidate@.len()
        } else {
            truth@.len()
        },
        forall|i: int|
            0 <= i < counts@.len() ==> (#[trigger] counts@[i]) == recovered(
                candidate@[i]@,
                truth@[i]@,
            ).len(),
{
    let n: usize = if candidate.len() < truth.len() {
        candidate.len()
    } else {
        truth.len()
    };
    let mut counts: Vec<usize> = Vec::new();
    for i in 0..n
        invariant
            n <= candidate@.len(),
            n <= truth@.len(),
            counts@.len() == i,
            forall|j: int|
                0 <= j < i ==> (#[trigger] counts@[j]) == recovered(
                    candidate@[j]@,
                    truth@[j]@,
                ).len(),
    {
        counts.push(count_recovered(&candidate[i], &truth[i]));
    }
    counts
}

/// An answer recovers itself in full.
pub proof fn law_exact_answer_is_recovered(hits: Seq<SearchResult>)
    ensures
        recovered(hits, hits) == hits,
{
    lemma_all_recovered(hits, hits);
}

/// An answer whose ids all are among the true ones is recovered in full.
proof fn lemma_all_recovered(hits: Seq<SearchResult>, truth: Seq<SearchResult>)
    requires
        forall|i: int| 0 <= i < hits.len() ==> has_id(truth, (#[trigger] hits[i]).id),
    ensures
        recovered(hits, truth) == hits,
    decreases hits.len(),
{
    reveal(Seq::filter);
    if hits.len() > 0 {
        let front = hits.drop_last();
        assert forall|i: int| 0 <= i < front.len() implies has_id(
            truth,
            (#[trigger] front[i]).id,
        ) by {
            assert(front[i] == hits[i]);
        }
        lemma_all_recovered(front, truth);
        assert(has_id(truth, hits[hits.len() - 1].id));
        assert(front.push(hits.last()) =~= hits);
    } else {
        assert(hits =~= Seq::empty());
    }
}

/// No more is recovered than there is.
pub proof fn law_recovered_is_bounded(candidate: Seq<SearchResult>, truth: Seq<SearchResult>)
    ensures
        recovered(candidate, truth).len() <= candidate.len(),
{
    candidate.lemma_filter_len(|r: SearchResult| has_id(truth, r.id));
}

/// What is recovered: every hit whose id is among the true ones, and no other. One
/// more hit is recovered exactly if its id is that of a true one.
pub proof fn law_hits_with_true_ids_are_recovered(
    candidate: Seq<SearchResult>,
    truth: Seq<SearchResult>,
    hit: SearchResult,
)
    ensures
        recovered(Seq::empty(), truth).len() == 0,
        recovered(candidate.push(hit), truth).len() == recovered(candidate, truth).len() + (if (
        exists|i: int| 0 <= i < truth.len() && (#[trigger] truth[i]).id == hit.id) {
            1nat
        } else {
            0nat
        }),
{
    reveal(Seq::filter);
    let longer = candidate.push(hit);
    assert(longer.drop_last() =~= candidate);
    assert(longer.last() == hit);
}

} // verus!
