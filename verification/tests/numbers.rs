use idxd::bench::stats::{average, percentile_ms};
use idxd::decimals::push_three_decimals;
use idxd::double::Double;
use idxd::single::Single;

fn double(x: f64) -> Double {
    Double { bits: x.to_bits() }
}

fn number(x: Double) -> f64 {
    f64::from_bits(x.bits)
}

fn same(a: Double, b: f64) -> bool {
    if b.is_nan() {
        a.is_nan()
    } else {
        a.bits == b.to_bits()
    }
}

fn next_random(state: &mut u64) -> u64 {
    *state = state.wrapping_mul(6364136223846793005).wrapping_add(1442695040888963407);
    let x = *state ^ (*state >> 29);
    x.wrapping_mul(0xbf58_476d_1ce4_e5b9) ^ (x >> 32)
}

fn samples() -> Vec<f64> {
    let mut out = vec![
        0.0, -0.0, 1.0, -1.0, 0.1, 0.5, 2.5, 10.0, 100.0, 1e-9, 1e9, 1920.0, 1080.0,
        f64::MAX, f64::MIN, f64::MIN_POSITIVE, f64::MIN_POSITIVE / 2.0, 5e-324, 1e308, -1e308,
        f64::INFINITY, f64::NEG_INFINITY, f64::NAN, 9007199254740992.0, 9007199254740993.0,
        1e-300, 1.0000000000000002, 0.9999999999999999, 4294967295.5, 4294967296.0,
    ];
    let mut state: u64 = 7;
    for _ in 0..40 {
        out.push(f64::from_bits(next_random(&mut state)));
    }
    for _ in 0..30 {
        let bits = (next_random(&mut state) >> 12) | ((1000 + next_random(&mut state) % 46) << 52);
        out.push(f64::from_bits(bits));
    }
    out
}

#[test]
fn double_arithmetic_is_that_of_the_hardware() {
    let values = samples();
    for &a in &values {
        for &b in &values {
            let (x, y) = (double(a), double(b));
            assert!(same(x.plus(y), a + b), "{a:e} + {b:e}");
            assert!(same(x.minus(y), a - b), "{a:e} - {b:e}");
            assert!(same(x.times(y), a * b), "{a:e} * {b:e}");
            assert!(same(x.over(y), a / b), "{a:e} / {b:e}");
            assert_eq!(x.is_less(y), a < b);
            assert_eq!(x.is_at_most(y), a <= b);
            if a != b {
                assert!(same(x.min(y), a.min(b)), "{a:e} min {b:e}");
                assert!(same(x.max(y), a.max(b)), "{a:e} max {b:e}");
            }
        }
    }
}

#[test]
fn double_conversions_are_those_of_the_hardware() {
    for &a in &samples() {
        assert_eq!(double(a).to_whole(), a as u32, "{a:e}");
        assert_eq!(double(a).round_to_whole(), a.round() as u32, "{a:e}");
        assert!(same(double(a).abs(), a.abs()));
        assert_eq!(double(a).is_nan(), a.is_nan());
        if !a.is_nan() {
            assert!(same(double(a).clamp(double(-2.0), double(3.0)), a.clamp(-2.0, 3.0)));
        }
    }
    let mut state: u64 = 3;
    for _ in 0..200 {
        let n = next_random(&mut state) >> (next_random(&mut state) % 64);
        assert!(same(Double::from_whole(n), n as f64), "{n}");
        let wide = ((next_random(&mut state) as u128) << 64 | n as u128)
            >> (next_random(&mut state) % 128);
        assert!(same(Double::from_wide(wide), wide as f64), "{wide}");
        let single = f32::from_bits(next_random(&mut state) as u32);
        assert!(same(Double::from_single(Single { bits: single.to_bits() }), single as f64));
    }
    for single in [0.0f32, -0.0, 1.5, f32::MIN_POSITIVE, 1e-45, f32::MAX, f32::INFINITY] {
        assert!(same(Double::from_single(Single { bits: single.to_bits() }), single as f64));
    }
}

fn written(x: f64) -> String {
    let mut out = String::from("v=");
    push_three_decimals(&mut out, double(x));
    out
}

#[test]
fn three_decimals_are_those_of_the_standard_library() {
    for &a in &samples() {
        assert_eq!(written(a), format!("v={a:.3}"), "{a:e}");
    }
    for a in [
        0.0625, 0.1875, 0.0004, 0.0005, 0.0015, 0.9995, 0.99949, 1.0005, 16.67, 455.1111, 123456.789,
        -0.0001, 18014398509481984.0, 1e22, 1e300,
    ] {
        assert_eq!(written(a), format!("v={a:.3}"), "{a:e}");
    }
    let mut state: u64 = 11;
    for _ in 0..400 {
        let a = (next_random(&mut state) % 100_000_000) as f64 / 16_000.0;
        assert_eq!(written(a), format!("v={a:.3}"), "{a:e}");
    }
    assert_eq!(written(2.0), "v=2.000");
    assert_eq!(written(0.0625), "v=0.062");
}

#[test]
fn averages_and_percentiles() {
    let empty: Vec<Double> = vec![];
    assert_eq!(number(average(&empty)), 0.0);
    assert_eq!(number(percentile_ms(&empty, double(0.95))), 0.0);

    let values: Vec<Double> = [5.0, 1.0, 4.0, 2.0, 3.0].iter().map(|x| double(*x)).collect();
    assert_eq!(number(average(&values)), 3.0);
    assert_eq!(number(percentile_ms(&values, double(0.0))), 1.0);
    assert_eq!(number(percentile_ms(&values, double(0.5))), 3.0);
    assert_eq!(number(percentile_ms(&values, double(0.95))), 5.0);
    assert_eq!(number(percentile_ms(&values, double(7.0))), 5.0);
    assert_eq!(number(percentile_ms(&values, double(-1.0))), 1.0);
    assert_eq!(number(percentile_ms(&values, double(f64::NAN))), 1.0);

    // Four values: 0.5 * 3 = 1.5 rounds away from zero, to the third value.
    let even: Vec<Double> = [40.0, 10.0, 30.0, 20.0].iter().map(|x| double(*x)).collect();
    assert_eq!(number(percentile_ms(&even, double(0.5))), 30.0);
}

#[test]
fn percentiles_sort_as_the_total_order() {
    let mut values = samples();
    let list: Vec<Double> = values.iter().map(|x| double(*x)).collect();
    values.sort_by(|a, b| a.total_cmp(b));
    for p in [0.0, 0.1, 0.25, 0.5, 0.75, 0.95, 1.0] {
        let at = ((values.len() - 1) as f64 * p).round() as usize;
        assert_eq!(percentile_ms(&list, double(p)).bits, values[at].to_bits());
    }
}
