use interp_spline::fbits::is_ascending;
use interp_spline::knots::{clamped, find_span, insert_knot, uniform, Fraction, NewPoint};

fn bits(v: &[f64]) -> Vec<u64> {
    v.iter().map(|x| x.to_bits()).collect()
}

fn value(f: Fraction) -> f64 {
    f.num as f64 / f.den as f64
}

#[test]
fn test_uniform_knots() {
    let knots = uniform(4, 2);
    assert_eq!(knots.len(), 7);
    assert!((value(knots[0]) - 0.0).abs() < 1e-10);
    assert!((value(knots[6]) - 1.0).abs() < 1e-10);
}

#[test]
fn uniform_knots_are_exact_fractions() {
    let knots = uniform(3, 1);
    let expected: Vec<Fraction> = (0..5).map(|i| Fraction { num: i, den: 4 }).collect();
    assert_eq!(knots, expected);
    let single = uniform(0, 0);
    assert_eq!(single, vec![Fraction { num: 0, den: 0 }]);
    assert!(value(single[0]).is_nan());
}

#[test]
fn test_clamped_knots() {
    let knots = clamped(4, 2);
    assert_eq!(knots.len(), 7);
    assert_eq!(value(knots[0]), 0.0);
    assert_eq!(value(knots[1]), 0.0);
    assert_eq!(value(knots[2]), 0.0);
    assert_eq!(value(knots[4]), 1.0);
    assert_eq!(value(knots[5]), 1.0);
    assert_eq!(value(knots[6]), 1.0);
}

#[test]
fn clamped_interior_knots() {
    let knots = clamped(5, 2);
    assert_eq!(
        knots,
        vec![
            Fraction { num: 0, den: 1 },
            Fraction { num: 0, den: 1 },
            Fraction { num: 0, den: 1 },
            Fraction { num: 1, den: 3 },
            Fraction { num: 2, den: 3 },
            Fraction { num: 1, den: 1 },
            Fraction { num: 1, den: 1 },
            Fraction { num: 1, den: 1 },
        ]
    );
    // fewer control points than the degree: the ends overlap
    let short = clamped(1, 3);
    assert_eq!(short.len(), 5);
    assert_eq!(short[4], Fraction { num: 1, den: 1 });
    assert_eq!(short[3], Fraction { num: 0, den: 1 });
}

#[test]
fn test_find_span() {
    let knots = bits(&[0.0, 0.0, 0.0, 0.5, 1.0, 1.0, 1.0]);
    let span = find_span(2, &knots, 0.3f64.to_bits());
    assert_eq!(span, 2);
    let span2 = find_span(2, &knots, 0.7f64.to_bits());
    assert_eq!(span2, 3);
}

#[test]
fn find_span_at_the_ends_and_on_knots() {
    let knots = bits(&[0.0, 0.0, 0.0, 0.25, 0.5, 0.75, 1.0, 1.0, 1.0]);
    // n = 9 - 2 - 2 = 5
    assert_eq!(find_span(2, &knots, 1.0f64.to_bits()), 5);
    assert_eq!(find_span(2, &knots, 2.0f64.to_bits()), 5);
    assert_eq!(find_span(2, &knots, 0.0f64.to_bits()), 2);
    assert_eq!(find_span(2, &knots, (-1.0f64).to_bits()), 2);
    assert_eq!(find_span(2, &knots, 0.25f64.to_bits()), 3);
    assert_eq!(find_span(2, &knots, 0.5f64.to_bits()), 4);
    assert_eq!(find_span(2, &knots, 0.74f64.to_bits()), 4);
    assert_eq!(find_span(2, &knots, 0.75f64.to_bits()), 5);
    // a NaN parameter stops at the first midpoint (2 + 5 + 1) / 2
    assert_eq!(find_span(2, &knots, f64::NAN.to_bits()), 4);
}

#[test]
fn find_span_on_a_repeated_knot_at_degree() {
    // u equals knots[2] and knots[3]: the span is the one with
    // knots[i] <= u < knots[i + 1], here 3
    let knots = bits(&[0.0, 0.0, 0.0, 0.0, 1.0, 1.0, 1.0]);
    assert_eq!(find_span(2, &knots, 0.0f64.to_bits()), 3);
    assert_eq!(find_span(2, &knots, (-0.5f64).to_bits()), 2);
}

#[test]
fn find_span_bisection_on_unsorted_knots() {
    // degree 1, n = 7 - 1 - 2 = 4: spans 2 (1 <= 3 < 5) and 4 (2 <= 3 < 6)
    // both bracket u = 3; bisection of [1, 5) halves at 3, then stops at 2
    let knots = bits(&[0.0, 0.0, 1.0, 5.0, 2.0, 6.0, 9.0]);
    assert_eq!(find_span(1, &knots, 3.0f64.to_bits()), 2);
}

#[test]
fn test_knot_insertion() {
    let knots = bits(&[0.0, 0.0, 0.0, 1.0, 1.0, 1.0]);
    let (new_knots, new_cp) = insert_knot(&knots, 4, 2, 0.5f64.to_bits());
    assert_eq!(new_knots.len(), 7);
    assert_eq!(new_cp.len(), 5);
}

#[test]
fn knot_insertion_layout() {
    let knots = bits(&[0.0, 0.0, 0.0, 1.0, 1.0, 1.0]);
    let (new_knots, new_cp) = insert_knot(&knots, 4, 2, 0.5f64.to_bits());
    assert_eq!(new_knots, bits(&[0.0, 0.0, 0.0, 0.5, 1.0, 1.0, 1.0]));
    assert!(is_ascending(&new_knots));
    assert_eq!(
        new_cp,
        vec![
            NewPoint::Keep(0),
            NewPoint::Blend(1),
            NewPoint::Blend(2),
            NewPoint::Keep(2),
            NewPoint::Keep(3),
        ]
    );
    let (k0, p0) = insert_knot(&bits(&[0.0, 1.0, 2.0]), 2, 0, 0.5f64.to_bits());
    assert_eq!(k0, bits(&[0.0, 0.5, 1.0, 2.0]));
    assert_eq!(p0, vec![NewPoint::Keep(0), NewPoint::Keep(0), NewPoint::Keep(1)]);
    // a parameter beyond the last knot is inserted before it: no longer sorted
    let (k2, _) = insert_knot(&knots, 3, 2, 2.0f64.to_bits());
    assert_eq!(k2, bits(&[0.0, 0.0, 0.0, 2.0, 1.0, 1.0, 1.0]));
    assert!(!is_ascending(&k2));
}
