use velo::float::{Double, Single};
use velo::metric::Op;
use velo::hnsw::snapshot::LoadError;
use velo::persist::ReadError;
use velo::rng::SplitMix64;
use velo::{Filter, HnswConfig, HnswIndex, Metric, Payload, Value, VectorIndex};

fn single(x: f32) -> Single {
    Single::from_bits(x.to_bits())
}

fn number(x: Single) -> f32 {
    f32::from_bits(x.to_bits())
}

fn arithmetic(op: Op, x: Single, y: Single) -> Single {
    let (x, y) = (number(x), number(y));
    let r = match op {
        Op::Add => x + y,
        Op::Sub => x - y,
        Op::Mul => x * y,
        Op::Div => x / y,
        Op::Sqrt => x.sqrt(),
    };
    Single::from_bits(r.to_bits())
}

fn level(u: Double, m: usize) -> Double {
    let ml = 1.0 / (m as f64).ln();
    Double::from_bits((-f64::from_bits(u.to_bits()).ln() * ml).to_bits())
}

type Arithmetic = fn(Op, Single, Single) -> Single;
type Level = fn(Double, usize) -> Double;
type Index = HnswIndex<Arithmetic, Level>;

fn random_vec(rng: &mut SplitMix64) -> Vec<Single> {
    (0..3).map(|_| rng.next_f32()).collect()
}

fn build(count: u64) -> Index {
    let config = HnswConfig { m: 3, ef_construction: 20, ef_search: 15, seed: 6 };
    let mut index = HnswIndex::with_config(3, Metric::Dot, config, arithmetic as Arithmetic, level as Level);
    let mut rng = SplitMix64::new(4);
    for id in 0..count {
        let v = random_vec(&mut rng);
        if id % 2 == 0 {
            let mut payload = Payload::new();
            payload.insert("half".into(), Value::Int(id as i64 / 2));
            payload.insert("name".into(), Value::Str(format!("n{id}")));
            index.add_with_payload(id, &v, payload);
        } else {
            index.add(id, &v);
        }
    }
    index
}

fn restore(bytes: Vec<u8>) -> Result<Index, LoadError> {
    HnswIndex::restore(bytes, arithmetic as Arithmetic, level as Level)
}

#[test]
fn restored_index_answers_and_grows_like_the_first() {
    let mut index = build(120);
    let mut back = restore(index.snapshot()).unwrap();
    assert_eq!(back.len(), 120);
    assert_eq!((back.dim(), back.metric()), (3, Metric::Dot));
    let config = back.config();
    assert_eq!((config.m, config.ef_construction, config.ef_search, config.seed), (3, 20, 15, 6));

    let mut rng = SplitMix64::new(99);
    let even = Filter::Gt("half".into(), Double::from_i64(-1));
    for id in 120..160 {
        let q = random_vec(&mut rng);
        assert_eq!(index.search(&q, 9), back.search(&q, 9));
        assert_eq!(index.search_filtered(&q, 9, &even), back.search_filtered(&q, 9, &even));
        // The generator continues where it was, so both keep building one graph.
        index.add(id, &q);
        back.add(id, &q);
    }
    assert_eq!(index.snapshot(), back.snapshot());
}

#[test]
fn empty_index_survives_a_snapshot() {
    let index = build(0);
    let bytes = index.snapshot();
    assert_eq!(bytes.len(), 1 + 1 + 8 * 8);
    assert_eq!(bytes[0], 1);
    let back = restore(bytes).unwrap();
    assert!(back.is_empty());
    assert_eq!(back.dim(), 3);
}

#[test]
fn truncated_snapshots_are_refused() {
    let bytes = build(12).snapshot();
    for cut in [0, 1, 5, 40, 66, 70, bytes.len() - 1] {
        let error = restore(bytes[..cut].to_vec()).err();
        assert_eq!(error, Some(LoadError::Unreadable(ReadError::UnexpectedEof)), "{cut}");
    }
}

#[test]
fn unknown_metrics_are_refused() {
    let mut bytes = build(1).snapshot();
    bytes[0] = 9;
    assert_eq!(restore(bytes).err(), Some(LoadError::Unreadable(ReadError::UnknownTag(9))));
}

#[test]
fn inconsistent_snapshots_are_refused() {
    // The dimension of an empty index is set to zero.
    let mut bytes = build(0).snapshot();
    bytes[2] = 0;
    assert_eq!(restore(bytes).err(), Some(LoadError::Inconsistent));

    // The entry point of an index with one vector is set to another.
    let mut bytes = build(1).snapshot();
    assert_eq!((bytes[1], bytes[2]), (1, 0));
    bytes[2] = 1;
    assert_eq!(restore(bytes).err(), Some(LoadError::Inconsistent));

    // A node is linked to itself: the last list of the last node names its
    // neighbours, and the last of them is replaced.
    let mut bytes = build(2).snapshot();
    let at = bytes.len() - 4;
    assert_eq!(bytes[at], 0);
    bytes[at] = 1;
    assert_eq!(restore(bytes).err(), Some(LoadError::Inconsistent));
}

#[test]
fn bytes_after_a_snapshot_are_left_unread() {
    let mut bytes = build(5).snapshot();
    bytes.extend_from_slice(&[1, 2, 3]);
    assert_eq!(restore(bytes).unwrap().len(), 5);
}

#[test]
fn crowded_candidates_are_not_linked() {
    let config = HnswConfig { m: 2, ef_construction: 10, ef_search: 10, seed: 6 };
    let ground: Level = |_: Double, _: usize| Double::from_bits(0);
    let mut index = HnswIndex::with_config(1, Metric::L2, config, arithmetic as Arithmetic, ground);
    for (id, x) in [0.0, 1.0, 2.1].iter().enumerate() {
        index.add(id as u64, &[single(*x)]);
    }
    let bytes = index.snapshot();
    // The last node is linked to the second alone: the first is nearer to the
    // second than to it.
    let (one, second) = (1u32.to_le_bytes(), 1u32.to_le_bytes());
    let expected: Vec<u8> = [one, one, second].concat();
    assert_eq!(bytes[bytes.len() - 12..].to_vec(), expected);
}

#[test]
fn degrees_stay_within_their_caps() {
    let config = HnswConfig { m: 2, ef_construction: 30, ef_search: 10, seed: 3 };
    let ground: Level = |_: Double, _: usize| Double::from_bits(0);
    let mut index = HnswIndex::with_config(1, Metric::L2, config, arithmetic as Arithmetic, ground);
    for id in 0..60u64 {
        index.add(id, &[single(((id * 7) % 60) as f32)]);
    }
    // Without payloads and above the ground a record is an id, a component, the
    // mark of no payload, the number of layers, and one list.
    let bytes = index.snapshot();
    let mut at = 1 + 9 + 8 * 8;
    for node in 0..60 {
        at += 8 + 4 + 1;
        assert_eq!(bytes[at..at + 4], 1u32.to_le_bytes());
        let len = u32::from_le_bytes([bytes[at + 4], bytes[at + 5], bytes[at + 6], bytes[at + 7]]);
        assert!(len >= 1 && len <= 4, "node {node} has {len} neighbours");
        at += 8 + 4 * len as usize;
    }
    assert_eq!(at, bytes.len());
}
