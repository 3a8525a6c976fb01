use mfsk_core::bits;
use mfsk_core::dotprod::dot_q15_i32;
use mfsk_core::fft::{EspDspPlanner, MicroFftPlanner};
use mfsk_core::scalar::{LlrScalar, Q11i16, ALPHA_ONE, Q11_ONE};
use mfsk_core::select;

fn from_f32(f: f32) -> Q11i16 {
    Q11i16::from_count((f * Q11_ONE as f32).round() as i32)
}

fn to_f32(q: Q11i16) -> f32 {
    q.0 as f32 / Q11_ONE as f32
}

fn alpha(f: f32) -> i32 {
    (f * ALPHA_ONE as f32).round() as i32
}

#[test]
fn dot_q15_zero() {
    let a = [0i16; 16];
    let b = [12345i16; 16];
    assert_eq!(dot_q15_i32(&a, &b), 0);
}

#[test]
fn dot_q15_unit_basis() {
    let a = [100i16; 100];
    let b = [32767i16; 100];
    let result = dot_q15_i32(&a, &b);
    assert!((9900..=9999).contains(&result), "got {result}");
    assert_eq!(result, 9900);
}

#[test]
fn dot_q15_anti_phase() {
    let a: Vec<i16> = (0..1000).map(|k| (k * 30).clamp(0, 30000) as i16).collect();
    let neg_a: Vec<i16> = a.iter().map(|&x| -x).collect();
    let pos = dot_q15_i32(&a, &a);
    let neg = dot_q15_i32(&a, &neg_a);
    let n = a.len() as i32;
    let drift = (pos + neg).abs();
    assert!(drift <= n, "pos={pos} neg={neg} drift={drift} (max {n})");
    assert!(pos > 0);
}

#[test]
fn dot_rounds_every_product_down() {
    assert_eq!(dot_q15_i32(&[1, -1], &[1, 1]), -1);
    assert_eq!(dot_q15_i32(&[16384, 16384], &[16384, -16384]), 0);
    assert_eq!(dot_q15_i32(&[-32768], &[-32768]), 32768);
}

#[test]
fn q11_round_trip() {
    for f in [-10.0, -1.5, -0.001, 0.0, 0.001, 1.5, 10.0] {
        let q = from_f32(f);
        let back = to_f32(q);
        assert!(
            (f - back).abs() < 1.0 / Q11_ONE as f32 + 1e-6,
            "f={f} back={back}"
        );
    }
}

#[test]
fn q11_saturation() {
    assert_eq!(from_f32(1e6).0, i16::MAX);
    assert_eq!(from_f32(-1e6).0, i16::MIN);
}

#[test]
fn q11_mul_alpha() {
    let q = from_f32(8.0);
    let scaled = q.mul_alpha(alpha(0.75));
    let f = to_f32(scaled);
    assert!((f - 6.0).abs() < 0.01, "f={f}");
    assert_eq!(scaled.0, 12288);
}

#[test]
fn q11_neg_handles_min() {
    let q = Q11i16(i16::MIN);
    assert_eq!(q.neg_sat().0, i16::MAX);
}

#[test]
fn q11_wide_arithmetic() {
    let a = Q11i16(30000);
    let b = Q11i16(10000);
    let sum = Q11i16::wide_add(a.to_wide(), b.to_wide());
    assert_eq!(Q11i16::from_wide_sat(sum).0, i16::MAX);
    let difference = Q11i16::wide_sub(b.to_wide(), a.to_wide());
    assert_eq!(Q11i16::from_wide_sat(difference).0, -20000);
    assert!(!Q11i16::wide_is_positive(difference));
    assert!(Q11i16::wide_is_positive(sum));
    assert!(!Q11i16::wide_is_positive(Q11i16::wide_zero()));
    assert_eq!(Q11i16(-5).abs_sat().0, 5);
    assert_eq!(Q11i16(i16::MIN).abs_sat().0, i16::MAX);
    assert!(Q11i16(-1).is_negative());
    assert!(!Q11i16::zero().is_negative());
    assert!(b.lt_total(a));
    assert!(!a.lt_total(a));
    assert_eq!(Q11i16::pos_inf_like().0, i16::MAX);
}

#[test]
fn bits_are_counted_from_the_top() {
    assert!(bits::bit_at(0x80, 0));
    assert!(!bits::bit_at(0x80, 7));
    assert!(bits::bit_at(0x01, 7));
    assert_eq!(bits::with_bit(0, 0), 0x80);
    assert_eq!(bits::with_bit(0x80, 7), 0x81);
}

#[test]
fn order_keys_compare_as_the_numbers() {
    let values = [f32::NEG_INFINITY, -1e9, -1.5, -0.0, 1e-30, 1.5, 2.5e8, f32::INFINITY];
    for pair in values.windows(2) {
        assert!(select::order_key(pair[0].to_bits()) < select::order_key(pair[1].to_bits()));
    }
    assert_eq!(select::order_key(0f32.to_bits()), select::ZERO_KEY);
}

#[test]
fn portable_transforms_are_powers_of_two() {
    let mut planner = MicroFftPlanner::new();
    let supported: Vec<usize> = (0..10000).filter(|&n| planner.supports(n)).collect();
    assert_eq!(
        supported,
        vec![2, 4, 8, 16, 32, 64, 128, 256, 512, 1024, 2048, 4096, 8192]
    );
    let forward = planner.plan_forward(64);
    assert_eq!((forward.len, forward.forward), (64, true));
    let inverse = planner.plan_inverse(128);
    assert_eq!((inverse.len, inverse.forward), (128, false));
}

#[test]
fn factor_table_is_made_once_per_length() {
    let mut planner = EspDspPlanner::new();
    assert!(!planner.supports(2));
    assert!(!planner.supports(12));
    assert!(planner.supports(4));
    assert!(planner.plan_forward(1024).make_table);
    assert!(!planner.plan_inverse(512).make_table);
    assert!(!planner.plan_forward(1024).make_table);
    let bigger = planner.plan_inverse(4096);
    assert!(bigger.make_table);
    assert!(!bigger.plan.forward);
    assert_eq!(planner.initialised_max, 4096);
}
