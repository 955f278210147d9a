use velo::float::Single;
use velo::metric::Op;
use velo::{FlatIndex, Metric, VectorIndex};

fn vector(components: &[f32]) -> Vec<Single> {
    components.iter().map(|x| Single::from_bits(x.to_bits())).collect()
}

fn number(x: Single) -> f32 {
    f32::from_bits(x.to_bits())
}

fn arithmetic(op: Op, x: Single, y: Single) -> Single {
    let (x, y) = (number(x), number(y));
    let r = match op {
        Op::Add => x + y,
        Op::Sub => x - y,
        Op::Mul => x * y,
        Op::Div => x / y,
        Op::Sqrt => x.sqrt(),
    };
    Single::from_bits(r.to_bits())
}

type Arithmetic = fn(Op, Single, Single) -> Single;

fn build() -> FlatIndex<Arithmetic> {
    let mut idx = FlatIndex::new(2, Metric::L2, arithmetic as Arithmetic);
    idx.add(1, &vector(&[0.0, 0.0]));
    idx.add(2, &vector(&[1.0, 0.0]));
    idx.add(3, &vector(&[5.0, 5.0]));
    idx
}

#[test]
fn returns_k_closest_in_order() {
    let idx = build();
    let hits = idx.search(&vector(&[0.1, 0.0]), 2);
    assert_eq!(hits.len(), 2);
    assert_eq!(hits[0].id, 1);
    assert_eq!(hits[1].id, 2);
    assert!(number(hits[0].distance) <= number(hits[1].distance));
}

#[test]
fn k_larger_than_len_returns_all() {
    let idx = build();
    let hits = idx.search(&vector(&[0.0, 0.0]), 100);
    assert_eq!(hits.len(), 3);
}

#[test]
fn empty_index_and_zero_k_return_nothing() {
    let idx = FlatIndex::new(3, Metric::Cosine, arithmetic as Arithmetic);
    assert!(idx.is_empty());
    assert!(idx.search(&vector(&[1.0, 0.0, 0.0]), 5).is_empty());

    let populated = build();
    assert!(populated.search(&vector(&[0.0, 0.0]), 0).is_empty());
}

#[test]
fn distances_are_those_of_the_metric() {
    let idx = build();
    let hits = idx.search(&vector(&[0.0, 0.0]), 3);
    let found: Vec<(u64, f32)> = hits.iter().map(|h| (h.id, number(h.distance))).collect();
    assert_eq!(found, vec![(1, 0.0), (2, 1.0), (3, 50.0)]);
    assert_eq!(idx.len(), 3);
    assert!(!idx.is_empty());
    assert_eq!(idx.dim(), 2);
    assert_eq!(idx.metric(), Metric::L2);
}

#[test]
fn reused_id_appends_another_entry() {
    let mut idx = build();
    idx.add(1, &vector(&[0.5, 0.0]));
    assert_eq!(idx.len(), 4);
    let hits = idx.search(&vector(&[0.0, 0.0]), 2);
    assert_eq!((hits[0].id, hits[1].id), (1, 1));
}

#[test]
fn nothing_left_out_is_nearer() {
    let mut idx = FlatIndex::new(1, Metric::L2, arithmetic as Arithmetic);
    let mut all: Vec<f32> = Vec::new();
    for id in 0..50u64 {
        let x = ((id * 37) % 50) as f32;
        all.push(x * x);
        idx.add(id, &vector(&[x]));
    }
    all.sort_by(f32::total_cmp);
    let hits = idx.search(&vector(&[0.0]), 7);
    let found: Vec<f32> = hits.iter().map(|h| number(h.distance)).collect();
    assert_eq!(found, all[..7].to_vec());
}

#[test]
fn numbers_come_before_what_is_no_number() {
    let mut idx = FlatIndex::new(1, Metric::L2, arithmetic as Arithmetic);
    idx.add(1, &vector(&[f32::NAN]));
    idx.add(2, &vector(&[3.0]));
    let hits = idx.search(&vector(&[0.0]), 2);
    assert_eq!(hits[0].id, 2);
    assert_eq!(number(hits[0].distance), 9.0);
}

#[test]
fn copied_index_answers_alike_and_grows_alone() {
    let idx = build();
    let mut copy = idx.clone();
    let query = vector(&[0.1, 0.0]);
    assert_eq!(copy.search(&query, 3), idx.search(&query, 3));
    copy.add(4, &query);
    assert_eq!((copy.len(), idx.len()), (4, 3));
}
