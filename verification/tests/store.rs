use velo::float::Single;
use velo::metric::Op;
use velo::quant::ScalarQuantizer;
use velo::store::{quantized_distance, Components, VectorStore};
use velo::Metric;

fn single(x: f32) -> Single {
    Single::from_bits(x.to_bits())
}

fn singles(components: &[f32]) -> Vec<Single> {
    components.iter().map(|x| single(*x)).collect()
}

fn number(x: Single) -> f32 {
    f32::from_bits(x.to_bits())
}

fn arithmetic(op: Op, x: Single, y: Single) -> Single {
    let (x, y) = (number(x), number(y));
    let r = match op {
        Op::Add => x + y,
        Op::Sub => x - y,
        Op::Mul => x * y,
        Op::Div => x / y,
        Op::Sqrt => x.sqrt(),
    };
    Single::from_bits(r.to_bits())
}

#[test]
fn plain_store_measures_its_rows() {
    let mut store = VectorStore::plain(2);
    assert!(!store.is_quantized());
    store.push(&singles(&[0.0, 0.0]), &arithmetic);
    store.push(&singles(&[3.0, 4.0]), &arithmetic);
    store.push(&singles(&[1.0, 1.0]), &arithmetic);
    let query = singles(&[1.0, 0.0]);
    let to_first = store.dist_to_query(Metric::L2, 0, &query, &arithmetic);
    let to_second = store.dist_to_query(Metric::L2, 1, &query, &arithmetic);
    assert_eq!((number(to_first), number(to_second)), (1.0, 20.0));
    assert_eq!(number(store.dist_between(Metric::L2, 0, 1, &arithmetic)), 25.0);
    assert_eq!(number(store.dist_between(Metric::L2, 2, 1, &arithmetic)), 13.0);
}

#[test]
fn quantized_store_measures_what_its_codes_stand_for() {
    // A step of one half: these components are encoded without loss.
    let quant = ScalarQuantizer::from_parts(2, singles(&[0.0, -1.0]), singles(&[0.5, 0.5]));
    let mut store = VectorStore::quantized_from(2, vec![2, 4], quant);
    assert!(store.is_quantized());
    store.push(&singles(&[3.0, 4.0, 99.0]), &arithmetic);
    let query = singles(&[1.0, 1.0]);
    // The codes that the store was made of stand for (1, 1).
    assert_eq!(number(store.dist_to_query(Metric::L2, 0, &query, &arithmetic)), 0.0);
    assert_eq!(number(store.dist_to_query(Metric::L2, 1, &query, &arithmetic)), 13.0);
    assert_eq!(number(store.dist_between(Metric::L2, 1, 0, &arithmetic)), 13.0);
}

#[test]
fn given_rows_are_stored_as_they_are() {
    let store = VectorStore::plain_from(1, singles(&[5.0, 8.0]));
    assert_eq!(number(store.dist_between(Metric::L2, 0, 1, &arithmetic)), 9.0);
}

#[test]
fn quantized_store_mirrors_every_metric() {
    let quant = ScalarQuantizer::from_parts(2, singles(&[0.0, -1.0]), singles(&[0.5, 0.5]));
    let coded = VectorStore::quantized_from(2, vec![2, 4, 6, 10], quant);
    let plain = VectorStore::plain_from(2, singles(&[1.0, 1.0, 3.0, 4.0]));
    let query = singles(&[2.0, -1.0]);
    for metric in [Metric::Cosine, Metric::Dot, Metric::L2] {
        let a = coded.dist_between(metric, 0, 1, &arithmetic);
        let b = plain.dist_between(metric, 0, 1, &arithmetic);
        assert_eq!(a.to_bits(), b.to_bits());
        let a = coded.dist_to_query(metric, 1, &query, &arithmetic);
        let b = plain.dist_to_query(metric, 1, &query, &arithmetic);
        assert_eq!(a.to_bits(), b.to_bits());
    }
}

#[test]
fn component_by_component_is_the_distance() {
    let pairs = [
        ([1.0, -2.0], [0.5, 4.0]),
        ([0.0, 0.0], [1e20, 0.0]),
        ([1e-12, 0.0], [1.0, 0.0]),
        ([1e20, 3e20], [1e-25, 1.0]),
        ([1e-25, 2e-25], [1e-25, 2e-25]),
    ];
    for (x, y) in pairs {
        let (x, y) = (singles(&x), singles(&y));
        for metric in [Metric::Cosine, Metric::Dot, Metric::L2] {
            let (a, b) = (Components::Given(&x), Components::Given(&y));
            let lazy = quantized_distance(metric, 2, a, b, &arithmetic);
            assert_eq!(lazy.to_bits(), metric.distance(&x, &y, &arithmetic).to_bits());
        }
    }
    let zero = singles(&[0.0, 0.0]);
    let quant = ScalarQuantizer::from_parts(2, singles(&[0.0, -1.0]), singles(&[0.5, 0.5]));
    let (a, b) = (Components::Given(&zero), Components::Coded(&quant, &[2, 4]));
    assert_eq!(number(quantized_distance(Metric::Cosine, 2, a, b, &arithmetic)), 1.0);
    // The codes stand for (1, 1).
    assert_eq!(number(quantized_distance(Metric::L2, 2, a, b, &arithmetic)), 2.0);
}

#[test]
fn copied_stores_hold_the_same() {
    let quant = ScalarQuantizer::from_parts(1, singles(&[0.0]), singles(&[0.5]));
    let coded = VectorStore::quantized_from(1, vec![2, 8], quant);
    let plain = VectorStore::plain_from(1, singles(&[1.0, 4.0]));
    for store in [coded, plain] {
        let copy = store.clone();
        assert_eq!(copy.is_quantized(), store.is_quantized());
        assert_eq!(number(copy.dist_between(Metric::L2, 0, 1, &arithmetic)), 9.0);
    }
}

#[test]
fn quantized_store_leaves_the_rest_of_a_query_unread() {
    let quant = ScalarQuantizer::from_parts(2, singles(&[0.0, -1.0]), singles(&[0.5, 0.5]));
    let store = VectorStore::quantized_from(2, vec![2, 4, 6, 10], quant);
    let (short, long) = (singles(&[2.0, -1.0]), singles(&[2.0, -1.0, 99.0]));
    for metric in [Metric::Cosine, Metric::Dot, Metric::L2] {
        let a = store.dist_to_query(metric, 1, &short, &arithmetic);
        let b = store.dist_to_query(metric, 1, &long, &arithmetic);
        assert_eq!(a.to_bits(), b.to_bits());
    }
}
