//! Tests of the exact de Casteljau evaluator.

use bezier_core::eval::evaluate;

/// A single coordinate is returned unchanged, for every parameter step.
#[test]
fn single_point_identity() {
    for k in 0..=16 {
        assert_eq!(evaluate(&[5], k, 16), 5);
        assert_eq!(evaluate(&[-7], k, 16), -7);
        assert_eq!(evaluate(&[0], k, 16), 0);
    }
}

/// Two coordinates blend to exact linear interpolation, scaled by the
/// denominator: `den * a + num * (b - a)`.
#[test]
fn pair_is_linear_interpolation() {
    assert_eq!(evaluate(&[0, 16], 4, 16), 16 * 0 + 4 * (16 - 0)); // 64
    assert_eq!(evaluate(&[10, 20], 8, 16), 16 * 10 + 8 * (20 - 10)); // 240
    assert_eq!(evaluate(&[3, 3], 11, 16), 16 * 3); // constant segment
    assert_eq!(evaluate(&[16, 0], 16, 16), 0); // endpoint hits b exactly
    assert_eq!(evaluate(&[16, 0], 0, 16), 16 * 16); // endpoint hits a exactly
}

/// Three coordinates: the quadratic blend at t = 1/4 of (0, 8, 16) is 4,
/// scaled by 16^2.
#[test]
fn quadratic_exact_value() {
    assert_eq!(evaluate(&[0, 8, 16], 4, 16), 4 * 256);
}

/// Four coordinates: the cubic blend at t = 1/2 of (0, 0, 0, 16) is
/// 16 * (1/2)^3 = 2, scaled by 16^3.
#[test]
fn cubic_exact_value() {
    assert_eq!(evaluate(&[0, 0, 0, 16], 8, 16), 2 * 4096);
}

/// At parameter steps 0 and den, any control polygon reproduces its first
/// and last coordinate, scaled by den^(len-1).
#[test]
fn endpoints_exact() {
    let coords: [i64; 4] = [3, -9, 40, 7];
    assert_eq!(evaluate(&coords, 0, 16), 3 * 4096);
    assert_eq!(evaluate(&coords, 16, 16), 7 * 4096);
    let quad: [i64; 3] = [-5, 100, 11];
    assert_eq!(evaluate(&quad, 0, 16), -5 * 256);
    assert_eq!(evaluate(&quad, 16, 16), 11 * 256);
}
