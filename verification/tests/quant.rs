use velo::float::Single;
use velo::metric::Op;
use velo::quant::ScalarQuantizer;

fn single(x: f32) -> Single {
    Single::from_bits(x.to_bits())
}

fn singles(components: &[f32]) -> Vec<Single> {
    components.iter().map(|x| single(*x)).collect()
}

fn number(x: Single) -> f32 {
    f32::from_bits(x.to_bits())
}

fn arithmetic(op: Op, x: Single, y: Single) -> Single {
    let (x, y) = (number(x), number(y));
    let r = match op {
        Op::Add => x + y,
        Op::Sub => x - y,
        Op::Mul => x * y,
        Op::Div => x / y,
        Op::Sqrt => x.sqrt(),
    };
    Single::from_bits(r.to_bits())
}

#[test]
fn round_trip_is_within_one_step() {
    let dim = 4;
    let data = vec![
        -1.0, 0.0, 1.0, 2.0, //
        -0.5, 0.25, 0.5, 1.5, //
        0.0, 0.5, -1.0, 2.0,
    ];
    let q = ScalarQuantizer::train(dim, &singles(&data), &arithmetic);

    let mut codes = vec![0u8; dim];
    for row in data.chunks_exact(dim) {
        q.encode_into(&singles(row), &mut codes, &arithmetic);
        for d in 0..dim {
            let back = number(q.dequantize(d, codes[d], &arithmetic));
            // Reconstruction error is bounded by one quantization step.
            assert!((back - row[d]).abs() <= number(q.scale()[d]) + 1e-6);
        }
    }
}

#[test]
fn constant_dimension_is_stable() {
    let dim = 2;
    let data = vec![3.0, 7.0, 3.0, 7.0, 3.0, 7.0];
    let q = ScalarQuantizer::train(dim, &singles(&data), &arithmetic);
    let mut codes = vec![0u8; dim];
    q.encode_into(&singles(&[3.0, 7.0]), &mut codes, &arithmetic);
    assert_eq!(number(q.dequantize(0, codes[0], &arithmetic)), 3.0);
    assert_eq!(number(q.dequantize(1, codes[1], &arithmetic)), 7.0);
}

#[test]
fn ranges_run_from_the_least_to_the_greatest() {
    let data = singles(&[4.0, f32::NAN, -1.0, 1.0, 0.5, 9.0, 2.0, 3.0]);
    // Two dimensions: the second holds what is no number in its first row.
    let q = ScalarQuantizer::train(2, &data, &arithmetic);
    assert_eq!(number(q.min()[0]), -1.0);
    assert_eq!(number(q.min()[1]), 1.0);
    assert_eq!(number(q.scale()[0]), 5.0 / 255.0);
    assert_eq!(number(q.scale()[1]), 8.0 / 255.0);
}

#[test]
fn incomplete_last_row_is_ignored() {
    let q = ScalarQuantizer::train(2, &singles(&[1.0, 2.0, 100.0]), &arithmetic);
    assert_eq!(number(q.min()[0]), 1.0);
    assert_eq!(number(q.scale()[0]), 0.0);
}

#[test]
fn no_data_and_infinite_data_collapse_to_zero() {
    let empty = ScalarQuantizer::train(2, &[], &arithmetic);
    assert_eq!(empty.min()[1].to_bits(), 0);
    assert_eq!(empty.scale()[1].to_bits(), 0);

    let infinite = ScalarQuantizer::train(1, &singles(&[f32::NEG_INFINITY, 5.0]), &arithmetic);
    assert_eq!(infinite.min()[0].to_bits(), 0);
    let mut codes = [9u8, 8u8];
    infinite.encode_into(&singles(&[5.0]), &mut codes, &arithmetic);
    // Only the dimensions of the vector are written.
    assert_eq!(codes, [0, 8]);
}

#[test]
fn extremes_take_the_first_and_the_last_code() {
    let q = ScalarQuantizer::from_parts(1, singles(&[-1.0]), singles(&[0.5]));
    let mut codes = [7u8];
    for (x, expected) in [(-1.0, 0u8), (126.5, 255), (-9.0, 0), (999.0, 255), (0.0, 2)] {
        q.encode_into(&singles(&[x]), &mut codes, &arithmetic);
        assert_eq!(codes[0], expected, "{x}");
    }
}

#[test]
fn halves_are_rounded_away_from_zero() {
    let q = ScalarQuantizer::from_parts(1, singles(&[0.0]), singles(&[1.0]));
    let mut codes = [0u8];
    for (x, expected) in [(0.49, 0u8), (0.5, 1), (1.5, 2), (2.5, 3), (254.4, 254), (254.5, 255)] {
        q.encode_into(&singles(&[x]), &mut codes, &arithmetic);
        assert_eq!(codes[0], expected, "{x}");
    }
    q.encode_into(&singles(&[f32::NAN]), &mut codes, &arithmetic);
    assert_eq!(codes[0], 0);
}

#[test]
fn constant_dimensions_come_back_unchanged() {
    for x in [0.1, -7.25, 1e30, -1e-40, 0.0] {
        let q = ScalarQuantizer::train(1, &singles(&[x, x, x]), &arithmetic);
        let mut codes = [9u8];
        q.encode_into(&singles(&[x]), &mut codes, &arithmetic);
        assert_eq!(codes[0], 0);
        assert_eq!(number(q.dequantize(0, codes[0], &arithmetic)), x);
    }
}

#[test]
fn copied_quantizer_has_learned_the_same() {
    let q = ScalarQuantizer::train(2, &singles(&[1.0, 2.0, 3.0, 7.0]), &arithmetic);
    let copy = q.clone();
    for d in 0..2 {
        assert_eq!(copy.min()[d], q.min()[d]);
        assert_eq!(copy.scale()[d], q.scale()[d]);
    }
}

#[test]
fn exact_round_trips_stay_within_half_a_step() {
    // A range of 255 in steps of one: nothing is rounded but the code.
    let data = singles(&[0.0, 255.0, 0.25, 17.5, 254.75, 100.0]);
    let q = ScalarQuantizer::train(1, &data, &arithmetic);
    assert_eq!(number(q.scale()[0]), 1.0);
    for x in data {
        let mut codes = [0u8];
        q.encode_into(&[x], &mut codes, &arithmetic);
        let back = number(q.dequantize(0, codes[0], &arithmetic));
        assert!((back - number(x)).abs() <= 0.5);
    }
}
