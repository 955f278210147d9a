use velo::beam::Beam;
use velo::float::Single;
use velo::order::{insert, sort_scored, Scored};

fn scored(dist: f32, node: usize) -> Scored {
    Scored { dist: Single::from_bits(dist.to_bits()), node }
}

fn pairs(list: &[Scored]) -> Vec<(usize, f32)> {
    list.iter().map(|s| (s.node, f32::from_bits(s.dist.to_bits()))).collect()
}

/// Search a graph from node zero.
fn search(dist: &[f32], links: &[Vec<usize>], ef: usize) -> Vec<(usize, f32)> {
    let mut beam = Beam::new();
    beam.seed(scored(dist[0], 0));
    beam.trim(ef);
    while !beam.is_settled(ef) {
        let c = beam.advance();
        for &e in &links[c.node] {
            if beam.mark(e) {
                beam.offer(ef, scored(dist[e], e));
            }
        }
    }
    pairs(&beam.into_nearest())
}

fn line(n: usize) -> Vec<Vec<usize>> {
    (0..n)
        .map(|i| {
            let mut next = Vec::new();
            if i > 0 {
                next.push(i - 1);
            }
            if i + 1 < n {
                next.push(i + 1);
            }
            next
        })
        .collect()
}

#[test]
fn greedy_search_walks_downhill() {
    let dist = [9.0, 7.0, 5.0, 2.0, 4.0, 6.0];
    assert_eq!(search(&dist, &line(6), 1), vec![(3, 2.0)]);
}

#[test]
fn narrow_search_ends_at_a_local_optimum() {
    // Behind the hill at node three lies something nearer.
    let dist = [9.0, 4.0, 3.0, 8.0, 1.0];
    assert_eq!(search(&dist, &line(5), 1), vec![(2, 3.0)]);
    // A wider beam looks over the hill.
    assert_eq!(search(&dist, &line(5), 3), vec![(4, 1.0), (2, 3.0), (1, 4.0)]);
}

#[test]
fn search_with_room_returns_everything_that_it_reaches() {
    let dist = [3.0, 2.0, 1.0, 0.5];
    let links = vec![vec![1], vec![0, 2], vec![1], vec![0]];
    // Nothing leads to the last node.
    assert_eq!(search(&dist, &links, 10), vec![(2, 1.0), (1, 2.0), (0, 3.0)]);
}

#[test]
fn search_keeps_the_closest_that_it_has_seen() {
    let dist = [5.0, 1.0, 2.0, 3.0, 4.0];
    let star = vec![vec![1, 2, 3, 4], vec![0], vec![0], vec![0], vec![0]];
    assert_eq!(search(&dist, &star, 2), vec![(1, 1.0), (2, 2.0)]);
    assert!(search(&dist, &star, 0).is_empty());
}

#[test]
fn candidates_are_sorted_by_distance_and_then_by_node() {
    let list = vec![scored(2.0, 1), scored(-0.0, 9), scored(0.0, 3), scored(2.0, 0), scored(-1.0, 7)];
    let sorted = sort_scored(list);
    assert_eq!(
        sorted.iter().map(|s| s.node).collect::<Vec<usize>>(),
        vec![7, 9, 3, 0, 1]
    );
    let mut grown = sorted;
    insert(&mut grown, scored(0.0, 2));
    assert_eq!(
        grown.iter().map(|s| s.node).collect::<Vec<usize>>(),
        vec![7, 9, 2, 3, 0, 1]
    );
}
