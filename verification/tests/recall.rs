use velo::float::Single;
use velo::recall::{count_recovered, recovered_per_query};
use velo::SearchResult;

fn hits(ids: &[u64]) -> Vec<SearchResult> {
    ids.iter().map(|id| SearchResult { id: *id, distance: Single::from_bits(0) }).collect()
}

#[test]
fn hits_are_counted_by_id() {
    assert_eq!(count_recovered(&hits(&[1, 2, 3]), &hits(&[3, 1, 9])), 2);
    assert_eq!(count_recovered(&hits(&[]), &hits(&[3])), 0);
    assert_eq!(count_recovered(&hits(&[4, 4]), &hits(&[4])), 2);
}

#[test]
fn exact_answers_recover_themselves() {
    let truth = hits(&[7, 8, 9]);
    assert_eq!(count_recovered(&truth, &truth), 3);
}

#[test]
fn queries_are_paired_up_to_the_shorter_list() {
    let candidate = vec![hits(&[1]), hits(&[2]), hits(&[3])];
    let truth = vec![hits(&[1, 5]), hits(&[6])];
    assert_eq!(recovered_per_query(&candidate, &truth), vec![1, 0]);
}
