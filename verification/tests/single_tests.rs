use timecloud::single::{
    single_ceil_saturating, single_divide, single_from_count, single_multiply, Single,
};

fn as_f64(x: &Single) -> f64 {
    (x.mant as f64) * 2f64.powi(x.exp)
}

fn fill_count(d: u64, len: u64, q: u64) -> usize {
    let ratio = single_divide(&single_from_count(len), &single_from_count(q));
    single_ceil_saturating(&single_multiply(&single_from_count(d), &ratio))
}

#[test]
fn counts_convert_with_ties_to_even() {
    let x = single_from_count(16777217);
    assert_eq!((x.mant, x.exp), (8388608, 1));
    let y = single_from_count(16777219);
    assert_eq!((y.mant, y.exp), (8388610, 1));
    let z = single_from_count(3);
    assert_eq!((z.mant, z.exp), (12582912, -22));
    let zero = single_from_count(0);
    assert_eq!((zero.mant, zero.exp), (0, 0));
    for n in [1u64, 7, 100, 16777215, 16777216, 16777217, 123456789, u64::MAX, 1 << 40] {
        assert_eq!(as_f64(&single_from_count(n)), (n as f32) as f64);
    }
}

#[test]
fn quotient_and_product_match_single_precision() {
    for a in [0u64, 1, 3, 4, 7, 10, 28, 99, 1000, 16777217] {
        for b in [1u64, 3, 7, 10, 28, 100, 12345] {
            let q = single_divide(&single_from_count(a), &single_from_count(b));
            assert_eq!(as_f64(&q), ((a as f32) / (b as f32)) as f64);
            let p = single_multiply(&single_from_count(a), &single_from_count(b));
            assert_eq!(as_f64(&p), ((a as f32) * (b as f32)) as f64);
        }
    }
}

#[test]
fn fill_count_matches_single_precision() {
    for q in 1u64..40 {
        for len in 0..=q {
            for d in 0u64..40 {
                let expected = ((d as f32) * (len as f32 / q as f32)).ceil() as usize;
                assert_eq!(fill_count(d, len, q), expected, "d={} len={} q={}", d, len, q);
            }
        }
    }
    assert_eq!(fill_count(21, 4, 28), 4);
    assert_eq!(fill_count(u64::MAX, 1, 1), usize::MAX);
}
