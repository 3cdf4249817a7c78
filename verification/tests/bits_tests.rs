use recall::bits::f32_le_bits;
use recall::resolver::MATCH_THRESHOLD_BITS;

fn le(a: f32, b: f32) -> bool {
    f32_le_bits(a.to_bits(), b.to_bits())
}

#[test]
fn ordering_matches_ieee_on_ordinary_values() {
    let values: [f32; 9] = [-1.0e30, -2.5, -0.5, -0.0, 0.0, 0.5, 1.0, 2.5, 1.0e30];
    for &a in values.iter() {
        for &b in values.iter() {
            assert_eq!(le(a, b), a <= b);
        }
    }
}

#[test]
fn ordering_matches_ieee_on_infinities() {
    assert!(le(f32::NEG_INFINITY, -1.0));
    assert!(le(1.0, f32::INFINITY));
    assert!(le(f32::NEG_INFINITY, f32::INFINITY));
    assert!(!le(f32::INFINITY, 1.0));
}

#[test]
fn nan_compares_false_both_ways() {
    assert!(!le(f32::NAN, 0.5));
    assert!(!le(0.5, f32::NAN));
    assert!(!le(f32::NAN, f32::NAN));
    assert_eq!(le(f32::NAN, 0.5), f32::NAN <= 0.5);
}

#[test]
fn both_zero_encodings_are_equal() {
    assert!(le(0.0, -0.0));
    assert!(le(-0.0, 0.0));
}

#[test]
fn threshold_bits_encode_the_match_threshold() {
    assert_eq!(MATCH_THRESHOLD_BITS, 0.78f32.to_bits());
}
