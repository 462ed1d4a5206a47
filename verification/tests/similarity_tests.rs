use bibmatch::similarity::{ratio_from_bits, token_sort_ratio, POINT, RATIO_MAX};

fn points(score: u64) -> f64 {
    score as f64 / POINT as f64
}

#[test]
fn test_token_sort_ratio_identical() {
    let score = points(token_sort_ratio("hello world", "hello world"));
    assert!((score - 100.0).abs() < 0.001);
}

#[test]
fn test_token_sort_ratio_reordered() {
    let score = points(token_sort_ratio("hello world", "world hello"));
    assert!((score - 100.0).abs() < 0.001);
}

#[test]
fn test_token_sort_ratio_different() {
    let score = points(token_sort_ratio("hello world", "goodbye moon"));
    assert!(score < 50.0);
}

#[test]
fn test_token_sort_ratio_empty() {
    assert!((points(token_sort_ratio("", "hello")) - 0.0).abs() < 0.001);
    assert!((points(token_sort_ratio("hello", "")) - 0.0).abs() < 0.001);
}

#[test]
fn ratio_from_bits_rounds_to_the_nearest_millionth() {
    assert_eq!(ratio_from_bits(1.0f64.to_bits()), RATIO_MAX);
    assert_eq!(ratio_from_bits(0.5f64.to_bits()), 50_000_000);
    assert_eq!(ratio_from_bits(0.0f64.to_bits()), 0);
    assert_eq!(ratio_from_bits(0.85f64.to_bits()), 85_000_000);
    assert_eq!(ratio_from_bits(0.8f64.to_bits()), 80_000_000);
    assert_eq!(ratio_from_bits((1.0f64 / 3.0).to_bits()), 33_333_333);
    assert_eq!(ratio_from_bits((2.0f64 / 3.0).to_bits()), 66_666_667);
    assert_eq!(ratio_from_bits(0.000000004f64.to_bits()), 0);
    assert_eq!(ratio_from_bits(0.000000005f64.to_bits()), 1);
    assert_eq!(ratio_from_bits(f64::MIN_POSITIVE.to_bits()), 0);
    assert_eq!(ratio_from_bits(5e-324f64.to_bits()), 0);
}

#[test]
fn ratio_from_bits_clamps_what_is_no_similarity() {
    assert_eq!(ratio_from_bits((-0.5f64).to_bits()), 0);
    assert_eq!(ratio_from_bits((-0.0f64).to_bits()), 0);
    assert_eq!(ratio_from_bits(f64::NAN.to_bits()), 0);
    assert_eq!(ratio_from_bits(f64::INFINITY.to_bits()), RATIO_MAX);
    assert_eq!(ratio_from_bits(f64::NEG_INFINITY.to_bits()), 0);
    assert_eq!(ratio_from_bits(1.5f64.to_bits()), RATIO_MAX);
}

#[test]
fn ratio_from_bits_agrees_with_rounding_in_doubles() {
    let mut x = 0.0f64;
    while x <= 1.0 {
        let expected = (x * 1e8).round() as u64;
        let got = ratio_from_bits(x.to_bits());
        assert!(got == expected || got + 1 == expected || got == expected + 1);
        x += 0.000977;
    }
}
