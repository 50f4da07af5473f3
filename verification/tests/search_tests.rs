use interp_spline::search::{locate_linear, locate_spline, lower_bound, Placement};

fn bits(v: &[f64]) -> Vec<u64> {
    v.iter().map(|x| x.to_bits()).collect()
}

#[test]
fn lower_bound_counts_nodes_below() {
    let xs = bits(&[0.0, 1.0, 1.0, 2.0, 3.0]);
    assert_eq!(lower_bound(&xs, (-1.0f64).to_bits()), 0);
    assert_eq!(lower_bound(&xs, 0.0f64.to_bits()), 0);
    assert_eq!(lower_bound(&xs, 0.5f64.to_bits()), 1);
    assert_eq!(lower_bound(&xs, 1.0f64.to_bits()), 1);
    assert_eq!(lower_bound(&xs, 1.5f64.to_bits()), 3);
    assert_eq!(lower_bound(&xs, 3.0f64.to_bits()), 4);
    assert_eq!(lower_bound(&xs, 4.0f64.to_bits()), 5);
    assert_eq!(lower_bound(&[], 4.0f64.to_bits()), 0);
}

#[test]
fn spline_location_out_of_range() {
    let xs = bits(&[0.0, 1.0, 2.0]);
    assert!(locate_spline(&xs, (-1.0f64).to_bits()).is_none());
    assert!(locate_spline(&xs, 3.0f64.to_bits()).is_none());
}

#[test]
fn spline_location_at_and_between_nodes() {
    let xs = bits(&[0.0, 1.0, 2.0, 3.0, 4.0]);
    assert_eq!(locate_spline(&xs, 0.0f64.to_bits()), Some(Placement::Segment(0)));
    assert_eq!(locate_spline(&xs, 2.0f64.to_bits()), Some(Placement::Segment(2)));
    assert_eq!(locate_spline(&xs, 4.0f64.to_bits()), Some(Placement::Node(4)));
    assert_eq!(locate_spline(&xs, 2.5f64.to_bits()), Some(Placement::Segment(2)));
    assert_eq!(locate_spline(&xs, 3.999f64.to_bits()), Some(Placement::Segment(3)));
    assert_eq!(locate_spline(&xs, (-0.0f64).to_bits()), Some(Placement::Segment(0)));
}

#[test]
fn spline_location_needs_two_nodes() {
    assert_eq!(locate_spline(&bits(&[1.0]), 1.0f64.to_bits()), None);
    assert_eq!(locate_spline(&[], 1.0f64.to_bits()), None);
    // out of range is decided before any search, NaN nodes or not
    assert_eq!(locate_spline(&bits(&[1.0, f64::NAN, 2.0]), 5.0f64.to_bits()), None);
}

#[test]
fn spline_location_with_repeated_nodes() {
    let xs = bits(&[0.0, 1.0, 1.0, 2.0]);
    assert_eq!(locate_spline(&xs, 1.0f64.to_bits()), Some(Placement::Segment(1)));
    assert_eq!(locate_spline(&xs, 1.5f64.to_bits()), Some(Placement::Segment(2)));
    let ys = bits(&[0.0, 2.0, 2.0]);
    assert_eq!(locate_spline(&ys, 2.0f64.to_bits()), Some(Placement::Segment(1)));
}

#[test]
fn linear_location() {
    let xs = bits(&[0.0, 1.0, 2.0, 3.0]);
    assert_eq!(locate_linear(&xs, 1.5f64.to_bits()), Some(Placement::Segment(1)));
    assert_eq!(locate_linear(&xs, 0.0f64.to_bits()), Some(Placement::Node(0)));
    assert_eq!(locate_linear(&xs, 1.0f64.to_bits()), Some(Placement::Node(1)));
    assert_eq!(locate_linear(&xs, 3.0f64.to_bits()), Some(Placement::Node(3)));
    assert_eq!(locate_linear(&xs, 0.1f64.to_bits()), Some(Placement::Segment(0)));
    assert_eq!(locate_linear(&xs, (-1.0f64).to_bits()), None);
    assert_eq!(locate_linear(&xs, 2.0000001f64.to_bits()), Some(Placement::Segment(2)));
    assert_eq!(locate_linear(&xs, 3.5f64.to_bits()), None);
    assert_eq!(locate_linear(&[], 0.0f64.to_bits()), None);
    assert_eq!(locate_linear(&bits(&[2.0]), 2.0f64.to_bits()), Some(Placement::Node(0)));
}
