use std::collections::HashSet;
use velo::float::{Double, Single};
use velo::metric::Op;
use velo::rng::SplitMix64;
use velo::{Filter, FlatIndex, HnswConfig, HnswIndex, Metric, Payload, Value, VectorIndex};

fn vector(components: &[f32]) -> Vec<Single> {
    components.iter().map(|x| Single::from_bits(x.to_bits())).collect()
}

fn number(x: Single) -> f32 {
    f32::from_bits(x.to_bits())
}

fn arithmetic(op: Op, x: Single, y: Single) -> Single {
    let (x, y) = (number(x), number(y));
    let r = match op {
        Op::Add => x + y,
        Op::Sub => x - y,
        Op::Mul => x * y,
        Op::Div => x / y,
        Op::Sqrt => x.sqrt(),
    };
    Single::from_bits(r.to_bits())
}

fn level(u: Double, m: usize) -> Double {
    let ml = 1.0 / (m as f64).ln();
    Double::from_bits((-f64::from_bits(u.to_bits()).ln() * ml).to_bits())
}

type Arithmetic = fn(Op, Single, Single) -> Single;
type Level = fn(Double, usize) -> Double;
type Index = HnswIndex<Arithmetic, Level>;

fn new(dim: usize, metric: Metric) -> Index {
    HnswIndex::new(dim, metric, arithmetic as Arithmetic, level as Level)
}

fn with_config(dim: usize, metric: Metric, config: HnswConfig) -> Index {
    HnswIndex::with_config(dim, metric, config, arithmetic as Arithmetic, level as Level)
}

fn random_vec(rng: &mut SplitMix64, d: usize) -> Vec<Single> {
    let components: Vec<f32> = (0..d).map(|_| number(rng.next_f32()) * 2.0 - 1.0).collect();
    vector(&components)
}

fn text(s: &str) -> Value {
    Value::Str(s.to_string())
}

#[test]
fn finds_exact_neighbour_in_tiny_index() {
    let mut idx = new(2, Metric::L2);
    idx.add(10, &vector(&[0.0, 0.0]));
    idx.add(20, &vector(&[1.0, 0.0]));
    idx.add(30, &vector(&[5.0, 5.0]));

    let hits = idx.search(&vector(&[0.9, 0.1]), 1);
    assert_eq!(hits.len(), 1);
    assert_eq!(hits[0].id, 20);
}

#[test]
fn empty_and_zero_k_return_nothing() {
    let idx = new(4, Metric::Cosine);
    assert!(idx.is_empty());
    assert!(idx.search(&vector(&[1.0, 0.0, 0.0, 0.0]), 5).is_empty());
}

#[test]
fn results_are_sorted_by_distance() {
    let mut rng = SplitMix64::new(1);
    let mut idx = new(8, Metric::L2);
    for id in 0..500 {
        idx.add(id, &random_vec(&mut rng, 8));
    }
    let hits = idx.search(&random_vec(&mut rng, 8), 10);
    assert_eq!(hits.len(), 10);
    for pair in hits.windows(2) {
        assert!(number(pair[0].distance) <= number(pair[1].distance));
    }
}

#[test]
fn recall_matches_brute_force() {
    // The real correctness gate: HNSW must recover almost all of the true
    // nearest neighbours that the exact index finds.
    let d = 16;
    let mut rng = SplitMix64::new(1234);

    let mut hnsw = new(d, Metric::Cosine);
    let mut flat = FlatIndex::new(d, Metric::Cosine, arithmetic as Arithmetic);
    for id in 0..2000u64 {
        let v = random_vec(&mut rng, d);
        hnsw.add(id, &v);
        flat.add(id, &v);
    }

    let k = 10;
    let queries = 200;
    let mut total = 0.0f32;
    for _ in 0..queries {
        let q = random_vec(&mut rng, d);
        let truth: HashSet<u64> = flat.search(&q, k).into_iter().map(|r| r.id).collect();
        let got = hnsw.search(&q, k);
        let hit = got.iter().filter(|r| truth.contains(&r.id)).count();
        total += hit as f32 / k as f32;
    }
    let recall = total / queries as f32;
    assert!(recall > 0.90, "recall too low: {recall:.3}");
}

#[test]
fn quick_start_finds_the_nearer_vector() {
    let mut index = new(3, Metric::Cosine);
    index.add(1, &vector(&[0.1, 0.2, 0.3]));
    index.add(2, &vector(&[0.9, 0.1, 0.0]));
    let hits = index.search(&vector(&[0.1, 0.2, 0.25]), 1);
    assert_eq!(hits[0].id, 1);
}

#[test]
fn default_configuration_is_the_recommended_one() {
    let config = HnswConfig::default();
    assert_eq!(
        (config.m, config.ef_construction, config.ef_search, config.seed),
        (16, 200, 64, 0x5EED_1234_ABCD_0001)
    );
    let idx = new(5, Metric::Dot);
    assert_eq!(idx.dim(), 5);
    assert_eq!(idx.metric(), Metric::Dot);
    assert_eq!(idx.config().m, 16);
    assert_eq!(idx.with_ef_search(7).config().ef_search, 7);
}

#[test]
fn hits_carry_true_distances_and_no_id_twice() {
    let mut rng = SplitMix64::new(5);
    let mut idx = new(4, Metric::L2);
    let mut stored = Vec::new();
    for id in 0..300u64 {
        let v = random_vec(&mut rng, 4);
        idx.add(id, &v);
        stored.push(v);
    }
    let q = random_vec(&mut rng, 4);
    let hits = idx.search(&q, 25);
    assert_eq!(hits.len(), 25);
    let ids: HashSet<u64> = hits.iter().map(|h| h.id).collect();
    assert_eq!(ids.len(), 25);
    for hit in &hits {
        let d = Metric::L2.distance(&q, &stored[hit.id as usize], &arithmetic);
        assert_eq!(hit.distance.to_bits(), d.to_bits());
    }
}

#[test]
fn small_index_returns_everything_in_the_exact_order() {
    let mut rng = SplitMix64::new(11);
    let mut idx = new(3, Metric::L2);
    let mut flat = FlatIndex::new(3, Metric::L2, arithmetic as Arithmetic);
    for id in 0..40u64 {
        let v = random_vec(&mut rng, 3);
        idx.add(id, &v);
        flat.add(id, &v);
    }
    let q = random_vec(&mut rng, 3);
    let approximate: Vec<u64> = idx.search(&q, 100).iter().map(|h| h.id).collect();
    let exact: Vec<u64> = flat.search(&q, 100).iter().map(|h| h.id).collect();
    assert_eq!(approximate, exact);
}

#[test]
fn same_inserts_build_the_same_index() {
    let build = |ef: usize| {
        let mut rng = SplitMix64::new(77);
        let mut idx = new(6, Metric::Cosine);
        for id in 0..200u64 {
            idx.set_ef_search(ef + (id as usize % 3));
            idx.add(id, &random_vec(&mut rng, 6));
        }
        idx.set_ef_search(30);
        let q = random_vec(&mut rng, 6);
        idx.search(&q, 15)
    };
    let found: Vec<(u64, u32)> = build(5).iter().map(|h| (h.id, h.distance.to_bits())).collect();
    let again: Vec<(u64, u32)> = build(90).iter().map(|h| (h.id, h.distance.to_bits())).collect();
    assert_eq!(found, again);
}

#[test]
fn wider_beam_explores_at_least_as_much() {
    let config = HnswConfig { m: 2, ef_construction: 4, ef_search: 1, seed: 9 };
    let mut rng = SplitMix64::new(3);
    let mut idx = with_config(4, Metric::L2, config);
    for id in 0..150u64 {
        idx.add(id, &random_vec(&mut rng, 4));
    }
    let q = random_vec(&mut rng, 4);
    let narrow = number(idx.search(&q, 1)[0].distance);
    idx.set_ef_search(150);
    let wide = number(idx.search(&q, 1)[0].distance);
    assert!(wide <= narrow);
    assert_eq!(idx.config().ef_search, 150);
    assert_eq!(idx.len(), 150);
}

#[test]
fn zero_construction_width_still_answers() {
    let config = HnswConfig { m: 2, ef_construction: 0, ef_search: 0, seed: 1 };
    let mut idx = with_config(1, Metric::L2, config);
    for id in 0..5u64 {
        idx.add(id, &vector(&[id as f32]));
    }
    // Without candidates nothing is linked, so only the entry point is found.
    let hits = idx.search(&vector(&[3.0]), 2);
    assert_eq!(hits.len(), 1);
}

fn articles() -> Index {
    let mut idx = new(1, Metric::L2);
    for (id, (lang, year)) in [("en", 2019), ("fr", 2020), ("en", 2021), ("de", 2022)]
        .iter()
        .enumerate()
    {
        let mut payload = Payload::new();
        payload.insert("lang".to_string(), text(lang));
        payload.insert("year".to_string(), Value::Int(*year));
        idx.add_with_payload(id as u64, &vector(&[id as f32]), payload);
    }
    idx.add(4, &vector(&[4.0]));
    idx
}

fn ids(hits: &[velo::SearchResult]) -> Vec<u64> {
    hits.iter().map(|h| h.id).collect()
}

#[test]
fn filtered_search_returns_matching_vectors_only() {
    let idx = articles();
    let q = vector(&[0.0]);
    let english = Filter::Eq("lang".to_string(), text("en"));
    assert_eq!(ids(&idx.search_filtered(&q, 10, &english)), vec![0, 2]);
    assert_eq!(ids(&idx.search_filtered(&q, 1, &english)), vec![0]);
    assert!(idx.search_filtered(&q, 0, &english).is_empty());

    let recent = Filter::Gt("year".to_string(), Double::from_i64(2020));
    assert_eq!(ids(&idx.search_filtered(&q, 10, &recent)), vec![2, 3]);

    // The vector without a payload matches only where nothing is asked of it.
    let not_english = Filter::Not(Box::new(english.clone()));
    assert_eq!(ids(&idx.search_filtered(&q, 10, &not_english)), vec![1, 3, 4]);
}

#[test]
fn filter_that_matches_all_changes_nothing() {
    let idx = articles();
    let q = vector(&[2.2]);
    let all = Filter::And(vec![]);
    let none = Filter::Or(vec![]);
    assert_eq!(ids(&idx.search_filtered(&q, 3, &all)), ids(&idx.search(&q, 3)));
    assert!(idx.search_filtered(&q, 3, &none).is_empty());
}

#[test]
fn small_index_is_searched_exactly() {
    let config = HnswConfig { m: 3, ef_construction: 1, ef_search: 1, seed: 5 };
    let mut rng = SplitMix64::new(77);
    let mut hnsw = with_config(4, Metric::L2, config);
    let mut flat = FlatIndex::new(4, Metric::L2, arithmetic as Arithmetic);
    for id in 0..7u64 {
        let v = random_vec(&mut rng, 4);
        hnsw.add(id, &v);
        flat.add(id, &v);
        let q = random_vec(&mut rng, 4);
        for k in 0..9 {
            let hits = hnsw.search(&q, k);
            assert_eq!(hits.len(), k.min(flat.len()));
            if k >= flat.len() {
                assert_eq!(hits, flat.search(&q, k));
            }
        }
        hnsw.set_ef_search(7);
        assert_eq!(hnsw.search(&q, 2), flat.search(&q, 2));
        hnsw.set_ef_search(1);
    }
}

#[test]
fn copied_index_answers_and_grows_alike() {
    let mut rng = SplitMix64::new(8);
    let mut idx = new(4, Metric::Cosine);
    for id in 0..50 {
        let mut payload = Payload::new();
        payload.insert("lang".into(), text(if id % 2 == 0 { "en" } else { "fr" }));
        idx.add_with_payload(id, &random_vec(&mut rng, 4), payload);
    }
    let mut copy = idx.clone();
    let more = random_vec(&mut rng, 4);
    idx.add(50, &more);
    assert_eq!((copy.len(), idx.len()), (50, 51));
    copy.add(50, &more);
    let query = random_vec(&mut rng, 4);
    assert_eq!(copy.search(&query, 10), idx.search(&query, 10));
    let english = Filter::Eq("lang".into(), text("en"));
    let hits = copy.search_filtered(&query, 10, &english);
    assert_eq!(hits, idx.search_filtered(&query, 10, &english));
    assert!(!hits.is_empty());
}
