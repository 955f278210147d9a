use velo::float::Single;
use velo::metric::{cosine_distance, dot, l2_squared, Metric, Op};

fn singles(components: &[f32]) -> Vec<Single> {
    components.iter().map(|x| Single::from_bits(x.to_bits())).collect()
}

fn number(x: Single) -> f32 {
    f32::from_bits(x.to_bits())
}

fn arithmetic(op: Op, x: Single, y: Single) -> Single {
    let (x, y) = (number(x), number(y));
    let r = match op {
        Op::Add => x + y,
        Op::Sub => x - y,
        Op::Mul => x * y,
        Op::Div => x / y,
        Op::Sqrt => x.sqrt(),
    };
    Single::from_bits(r.to_bits())
}

#[test]
fn identical_vectors_have_zero_cosine_distance() {
    let a = singles(&[1.0, 2.0, 3.0]);
    assert!(number(cosine_distance(&a, &a, &arithmetic)).abs() < 1e-6);
}

#[test]
fn orthogonal_vectors_have_cosine_distance_one() {
    let a = singles(&[1.0, 0.0]);
    let b = singles(&[0.0, 1.0]);
    assert!((number(cosine_distance(&a, &b, &arithmetic)) - 1.0).abs() < 1e-6);
}

#[test]
fn zero_vector_cosine_is_defined() {
    let a = singles(&[0.0, 0.0]);
    let b = singles(&[1.0, 1.0]);
    assert_eq!(number(cosine_distance(&a, &b, &arithmetic)), 1.0);
}

#[test]
fn l2_of_identical_is_zero() {
    let a = singles(&[1.0, 2.0, 3.0]);
    assert_eq!(number(l2_squared(&a, &a, &arithmetic)), 0.0);
}

#[test]
fn dot_metric_ranks_more_similar_as_closer() {
    let q = singles(&[1.0, 0.0]);
    let near = singles(&[1.0, 0.0]);
    let far = singles(&[-1.0, 0.0]);
    assert!(
        number(Metric::Dot.distance(&q, &near, &arithmetic))
            < number(Metric::Dot.distance(&q, &far, &arithmetic))
    );
}

fn reference_dot(a: &[f32], b: &[f32]) -> f32 {
    a.iter().zip(b).map(|(x, y)| x * y).sum()
}

#[test]
fn dot_matches_reference_across_lengths() {
    for len in [0usize, 1, 7, 8, 9, 16, 31, 128, 129] {
        let a: Vec<f32> = (0..len).map(|i| (i as f32) * 0.5 - 3.0).collect();
        let b: Vec<f32> = (0..len).map(|i| (i as f32).sin()).collect();
        let got = number(dot(&singles(&a), &singles(&b), &arithmetic));
        let want = reference_dot(&a, &b);
        assert!((got - want).abs() < 1e-3, "len {len}: {got} vs {want}");
    }
}

#[test]
fn l2_matches_reference_across_lengths() {
    for len in [0usize, 1, 7, 8, 9, 16, 31, 128, 129] {
        let a: Vec<f32> = (0..len).map(|i| (i as f32) * 0.25).collect();
        let b: Vec<f32> = (0..len).map(|i| 10.0 - i as f32).collect();
        let got = number(l2_squared(&singles(&a), &singles(&b), &arithmetic));
        let want: f32 = a.iter().zip(&b).map(|(x, y)| (x - y) * (x - y)).sum();
        assert!((got - want).abs() < 1e-2, "len {len}: {got} vs {want}");
    }
}

#[test]
fn distances_have_these_values() {
    let a = singles(&[1.0, 2.0]);
    let b = singles(&[4.0, 6.0]);
    assert_eq!(number(Metric::L2.distance(&a, &b, &arithmetic)), 25.0);
    assert_eq!(number(Metric::Dot.distance(&a, &b, &arithmetic)), -16.0);
    let right = singles(&[3.0, 4.0]);
    let up = singles(&[0.0, 5.0]);
    // One minus twenty over twenty-five.
    assert!((number(Metric::Cosine.distance(&right, &up, &arithmetic)) - 0.2).abs() < 1e-6);
    assert_eq!(Metric::Cosine.name(), "Cosine");
    assert_eq!(Metric::Dot.name(), "Dot");
    assert_eq!(Metric::L2.name(), "L2");
}

#[test]
fn zero_vector_is_at_distance_one_from_any() {
    let zero = singles(&[0.0, -0.0]);
    for other in [[1e20, 0.0], [1.0, 1.0], [1e-12, 3.0], [0.0, 0.0], [f32::MAX, -f32::MAX]] {
        let other = singles(&other);
        assert_eq!(number(cosine_distance(&zero, &other, &arithmetic)), 1.0);
        assert_eq!(number(cosine_distance(&other, &zero, &arithmetic)), 1.0);
    }
}

#[test]
fn similar_vectors_have_these_cosine_distances() {
    let a = singles(&[1.0, 2.0, 3.0]);
    assert_eq!(number(cosine_distance(&a, &a, &arithmetic)), 0.0);
    // One over the root of two.
    let (x, y) = (singles(&[1.0, 0.0]), singles(&[1.0, 1.0]));
    let expected = 1.0 - 1.0 / 2.0f32.sqrt();
    assert_eq!(number(cosine_distance(&x, &y, &arithmetic)), expected);
}

#[test]
fn cosine_does_not_look_at_magnitude() {
    let unit = singles(&[1.0, 0.0]);
    let slanted = singles(&[1.0, 1.0]);
    let eighth = 1.0 - 1.0 / 2.0f32.sqrt();
    for x in [1e-45, 3e-23, 1e-25, 1e-12, 1e-3, 1.0, 7e5, 1e18, 1e20, f32::MAX] {
        let v = singles(&[x, 0.0]);
        let opposite = singles(&[-x, 0.0]);
        let across = singles(&[0.0, x]);
        let between = |a: &[Single], b: &[Single]| {
            let there = number(Metric::Cosine.distance(a, b, &arithmetic));
            let back = number(Metric::Cosine.distance(b, a, &arithmetic));
            assert_eq!(there, back);
            there
        };
        assert!(between(&v, &v).abs() < 1e-6, "{x}");
        assert!(between(&v, &unit).abs() < 1e-6, "{x}");
        assert!((between(&v, &slanted) - eighth).abs() < 1e-6, "{x}");
        assert!((between(&opposite, &v) - 2.0).abs() < 1e-6, "{x}");
        assert!((between(&opposite, &unit) - 2.0).abs() < 1e-6, "{x}");
        assert!((between(&across, &v) - 1.0).abs() < 1e-6, "{x}");
    }
}

#[test]
fn cosine_of_finite_vectors_stays_between_zero_and_two() {
    let components = [1e20, 1e-20, 3e38, -3e38, 1e-45, 0.0, -1.0, 0.1, 0.7];
    for &x in &components {
        for &y in &components {
            for &z in &components {
                let a = singles(&[x, y, 0.3]);
                let b = singles(&[z, 0.3, x]);
                for (p, q) in [(&a, &b), (&a, &a), (&b, &a)] {
                    let d = number(cosine_distance(p, q, &arithmetic));
                    assert!((0.0..=2.0).contains(&d), "{x} {y} {z}: {d}");
                }
            }
        }
    }
}

#[test]
fn components_without_direction_have_no_cosine_distance() {
    let unit = singles(&[1.0, 0.5]);
    for x in [f32::INFINITY, f32::NEG_INFINITY, f32::NAN] {
        let v = singles(&[x, 1.0]);
        assert!(number(cosine_distance(&v, &unit, &arithmetic)).is_nan());
        assert!(number(cosine_distance(&unit, &v, &arithmetic)).is_nan());
        let zero = singles(&[0.0, 0.0]);
        assert_eq!(number(cosine_distance(&zero, &v, &arithmetic)), 1.0);
    }
}

#[test]
fn distances_are_symmetric() {
    let vectors = [[1.0, 2.0, -3.5], [0.1, -0.7, 1e10], [0.0, 0.0, 0.0], [1e-30, 1e20, 2.0]];
    for a in &vectors {
        for b in &vectors {
            let (a, b) = (singles(a), singles(b));
            for metric in [Metric::Cosine, Metric::Dot, Metric::L2] {
                let there = metric.distance(&a, &b, &arithmetic);
                let back = metric.distance(&b, &a, &arithmetic);
                assert_eq!(there.to_bits(), back.to_bits());
            }
        }
    }
}
