use interp_spline::bspline::{basis_degree_zero, interpolation_layout, pivot_row};
use interp_spline::knots::{clamped, Fraction};

fn bits(v: &[f64]) -> Vec<u64> {
    v.iter().map(|x| x.to_bits()).collect()
}

fn indicator(i: usize, u: f64, knots: &[f64]) -> f64 {
    if basis_degree_zero(i, u.to_bits(), &bits(knots)) {
        1.0
    } else {
        0.0
    }
}

#[test]
fn test_basis_degree0() {
    let knots = vec![0.0, 1.0, 2.0];
    assert!((indicator(0, 0.5, &knots) - 1.0).abs() < 1e-10);
    assert!(indicator(1, 0.5, &knots).abs() < 1e-10);
}

#[test]
fn basis_degree0_right_end_is_closed() {
    let knots = vec![0.0, 0.0, 0.5, 1.0, 1.0];
    assert_eq!(indicator(2, 1.0, &knots), 1.0);
    // the empty span at the very end also reports one at the right end
    assert_eq!(indicator(3, 1.0, &knots), 1.0);
    assert_eq!(indicator(1, 0.0, &knots), 1.0);
    assert_eq!(indicator(0, 0.0, &knots), 0.0);
    assert_eq!(indicator(2, 0.5, &knots), 1.0);
    assert_eq!(indicator(1, 0.5, &knots), 0.0);
    assert_eq!(indicator(1, f64::NAN, &knots), 0.0);
    // exactly one degree-zero basis function is one inside the knot range
    for &u in [0.0, 0.1, 0.5, 0.9].iter() {
        let total: f64 = (0..4).map(|i| indicator(i, u, &knots)).sum();
        assert_eq!(total, 1.0, "at u = {}", u);
    }
}

#[test]
fn interpolation_layout_sizes() {
    let xs = vec![0.0, 1.0, 2.0, 3.0];
    let result = interpolation_layout(xs.len(), 2);
    assert!(result.is_some());
    let (knots, params) = result.unwrap();
    // Should have 4 control points, one per data point
    assert_eq!(params.len(), 4);
    assert_eq!(knots.len(), 7); // n + degree + 1 = 4 + 2 + 1
}

#[test]
fn interpolation_layout_uses_clamped_knots() {
    let (knots, params) = interpolation_layout(5, 2).unwrap();
    assert_eq!(knots, clamped(5, 2));
    let expected: Vec<Fraction> = (0..5).map(|i| Fraction { num: i, den: 4 }).collect();
    assert_eq!(params, expected);
    assert!(interpolation_layout(2, 2).is_none());
    assert!(interpolation_layout(3, 2).is_some());
}

#[test]
fn pivot_row_picks_first_largest_magnitude() {
    assert_eq!(pivot_row(&bits(&[1.0, -3.0, 2.0, 3.0]), 0), 1);
    assert_eq!(pivot_row(&bits(&[1.0, -3.0, 2.0, 3.0]), 2), 3);
    assert_eq!(pivot_row(&bits(&[0.0, -0.0]), 0), 0);
    assert_eq!(pivot_row(&bits(&[1.0, f64::NAN, 2.0]), 0), 2);
    assert_eq!(pivot_row(&bits(&[f64::NAN, 5.0, 2.0]), 0), 0);
    assert_eq!(pivot_row(&bits(&[9.0, 1.0, f64::INFINITY]), 1), 2);
}
