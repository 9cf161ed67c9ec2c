use ray_trace::nearest::{closest_member, pick_root, Root};

#[test]
fn near_root_in_range_is_taken() {
    assert_eq!(pick_root(5, 15, 0, 100), Some(Root::Near));
    assert_eq!(pick_root(100, 150, 0, 100), Some(Root::Near));
    assert_eq!(pick_root(0, 150, 0, 100), Some(Root::Near));
}

#[test]
fn far_root_when_near_is_out_of_range() {
    assert_eq!(pick_root(5, 15, 10, 100), Some(Root::Far));
    assert_eq!(pick_root(5, 100, 10, 100), Some(Root::Far));
}

#[test]
fn no_root_in_range() {
    assert_eq!(pick_root(5, 8, 10, 100), None);
    assert_eq!(pick_root(105, 115, 10, 100), None);
    assert_eq!(pick_root(5, 115, 10, 100), None);
}

#[test]
fn sphere_straight_ahead_reports_front_surface() {
    // Sphere at (0,0,-1) of radius 0.5, ray from the origin along -z:
    // the roots are 0.5 and 1.5; non-negative floats order as their bits.
    let near = 0.5f64.to_bits();
    let far = 1.5f64.to_bits();
    let t_min = 0.0f64.to_bits();
    let t_max = f64::INFINITY.to_bits();
    assert_eq!(pick_root(near, far, t_min, t_max), Some(Root::Near));
    // From inside the sphere only the back surface lies ahead.
    assert_eq!(pick_root(near, far, 1.0f64.to_bits(), t_max), Some(Root::Far));
}

#[test]
fn no_member_hit() {
    assert_eq!(closest_member(&vec![]), None);
    assert_eq!(closest_member(&vec![None, None]), None);
}

#[test]
fn nearest_member_wins() {
    assert_eq!(closest_member(&vec![Some(5), None, Some(3)]), Some(2));
    assert_eq!(closest_member(&vec![Some(2), Some(9), Some(3)]), Some(0));
    assert_eq!(closest_member(&vec![None, Some(7)]), Some(1));
}

#[test]
fn later_member_wins_a_tie() {
    assert_eq!(closest_member(&vec![Some(3), Some(3)]), Some(1));
    assert_eq!(closest_member(&vec![Some(3), Some(8), Some(3)]), Some(2));
}

#[test]
fn member_order_does_not_change_the_hit() {
    let small = Some(0.5f64.to_bits());
    let large = Some(100.0f64.to_bits());
    // The same member (the small sphere) is reported in either order.
    assert_eq!(closest_member(&vec![small, large]), Some(0));
    assert_eq!(closest_member(&vec![large, small]), Some(1));
    assert_eq!(closest_member(&vec![None, large]), Some(1));
    assert_eq!(closest_member(&vec![large, None]), Some(0));
}
