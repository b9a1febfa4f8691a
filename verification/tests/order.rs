use spatial_query::order::{total_key_f32, total_key_f64};

fn sample_f32() -> Vec<f32> {
    vec![
        f32::NEG_INFINITY,
        -1.0e30,
        -2.5,
        -1.0,
        -f32::MIN_POSITIVE,
        -0.0,
        0.0,
        f32::MIN_POSITIVE,
        1.0e-30,
        0.5,
        1.0,
        4.0,
        100.0,
        f32::MAX,
        f32::INFINITY,
        f32::NAN,
        -f32::NAN,
    ]
}

#[test]
fn key_f32_orders_like_total_cmp() {
    let xs = sample_f32();
    for a in &xs {
        for b in &xs {
            let by_key = total_key_f32(a.to_bits()).cmp(&total_key_f32(b.to_bits()));
            assert_eq!(by_key, a.total_cmp(b), "{a} vs {b}");
        }
    }
}

#[test]
fn key_f64_orders_like_total_cmp() {
    let xs: Vec<f64> = sample_f32().into_iter().map(|x| x as f64).chain([1.0e300, -1.0e300]).collect();
    for a in &xs {
        for b in &xs {
            let by_key = total_key_f64(a.to_bits()).cmp(&total_key_f64(b.to_bits()));
            assert_eq!(by_key, a.total_cmp(b), "{a} vs {b}");
        }
    }
}

#[test]
fn key_f32_exact_values() {
    assert_eq!(total_key_f32(0.0f32.to_bits()), 0x8000_0000);
    assert_eq!(total_key_f32((-0.0f32).to_bits()), 0x7FFF_FFFF);
    assert_eq!(total_key_f32(1.0f32.to_bits()), 0x3F80_0000 + 0x8000_0000);
}
