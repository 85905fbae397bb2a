//! Tests of the curve model: grouping, sampling, mutation, and queries.

use bezier_core::model::{ControlPoint, CurveError, CurveModel, SamplePoint};

const SCALE: i64 = 4096;

fn square_model() -> CurveModel {
    let mut m = CurveModel::new();
    m.add_point(0, 0);
    m.add_point(10, 0);
    m.add_point(10, 10);
    m.add_point(0, 10);
    m
}

/// Starting empty, four added points form one cubic group with seventeen
/// samples running exactly from the first to the last control point.
#[test]
fn round_trip_square() {
    let mut m = CurveModel::new();
    assert_eq!(m.add_point(0, 0), 0);
    assert_eq!(m.add_point(10, 0), 1);
    assert_eq!(m.add_point(10, 10), 2);
    assert_eq!(m.add_point(0, 10), 3);
    assert_eq!(m.control_points().len(), 4);
    assert_eq!(m.groups().len(), 1);
    assert_eq!(m.groups()[0], vec![0, 1, 2, 3]);
    let rows = m.sample_points();
    assert_eq!(rows.len(), 1);
    assert_eq!(rows[0].len(), 17);
    assert_eq!(rows[0][0], SamplePoint { x: 0, y: 0 });
    assert_eq!(rows[0][16], SamplePoint { x: 0, y: 10 * SCALE });
}

/// With the maximum group size of four, the fifth point starts a second
/// group seeded with the shared boundary position.
#[test]
fn group_split_on_fifth_point() {
    let mut m = square_model();
    assert_eq!(m.add_point(20, 20), 4);
    assert_eq!(m.groups().len(), 2);
    assert_eq!(m.groups()[0], vec![0, 1, 2, 3]);
    assert_eq!(m.groups()[1], vec![3, 4]);
    assert_eq!(m.groups()[0][3], m.groups()[1][0]);
    let rows = m.sample_points();
    assert_eq!(rows.len(), 2);
    assert_eq!(rows[0].len(), 17);
    assert_eq!(rows[1].len(), 17);
    assert_eq!(rows[1][0], SamplePoint { x: 0, y: 10 * SCALE });
    assert_eq!(rows[1][16], SamplePoint { x: 20 * SCALE, y: 20 * SCALE });
}

/// Deleting the shared boundary point of two groups splices out the group
/// that falls below two entries and refreshes the surviving group.
#[test]
fn delete_shared_boundary_point() {
    let mut m = square_model();
    m.add_point(20, 20);
    assert_eq!(m.delete_point(3), Ok(()));
    assert_eq!(m.control_points().len(), 4);
    assert_eq!(m.groups().len(), 1);
    assert_eq!(m.groups()[0], vec![0, 1, 2, 3]);
    let rows = m.sample_points();
    assert_eq!(rows.len(), 1);
    assert_eq!(rows[0].len(), 17);
    // position 3 now holds the old fifth point (20, 20), and the row is fresh
    assert_eq!(m.control_points()[3], ControlPoint { x: 20, y: 20 });
    assert_eq!(rows[0][0], SamplePoint { x: 0, y: 0 });
    assert_eq!(rows[0][16], SamplePoint { x: 20 * SCALE, y: 20 * SCALE });
}

/// Deleting the first point keeps a single shortened group whose refreshed
/// samples run between the shifted endpoints.
#[test]
fn delete_first_point() {
    let mut m = square_model();
    assert_eq!(m.delete_point(0), Ok(()));
    assert_eq!(m.control_points().len(), 3);
    assert_eq!(m.groups().len(), 1);
    assert_eq!(m.groups()[0], vec![0, 1, 2]);
    let rows = m.sample_points();
    assert_eq!(rows[0].len(), 17);
    assert_eq!(rows[0][0], SamplePoint { x: 10 * SCALE, y: 0 });
    assert_eq!(rows[0][16], SamplePoint { x: 0, y: 10 * SCALE });
}

/// Deleting the tail point clamps the refresh target to the new last
/// position.
#[test]
fn delete_tail_point() {
    let mut m = CurveModel::new();
    m.add_point(0, 0);
    m.add_point(8, 0);
    m.add_point(16, 0);
    assert_eq!(m.delete_point(2), Ok(()));
    assert_eq!(m.control_points().len(), 2);
    assert_eq!(m.groups()[0], vec![0, 1]);
    let rows = m.sample_points();
    assert_eq!(rows[0].len(), 17);
    assert_eq!(rows[0][0], SamplePoint { x: 0, y: 0 });
    assert_eq!(rows[0][16], SamplePoint { x: 8 * SCALE, y: 0 });
}

/// Deleting a middle point shortens the single group and refreshes it over
/// the shifted points.
#[test]
fn delete_middle_point() {
    let mut m = square_model();
    assert_eq!(m.delete_point(1), Ok(()));
    assert_eq!(m.control_points().len(), 3);
    assert_eq!(m.groups()[0], vec![0, 1, 2]);
    assert_eq!(m.sample_points()[0][0], SamplePoint { x: 0, y: 0 });
    assert_eq!(m.sample_points()[0][16], SamplePoint { x: 0, y: 10 * SCALE });
}

/// Deleting from a longer chain pops only the tail reference and keeps every
/// group when the last group stays viable.
#[test]
fn delete_keeps_viable_tail_group() {
    let mut m = CurveModel::new();
    for n in 0..9i64 {
        m.add_point(n, 0);
    }
    assert_eq!(m.delete_point(8), Ok(()));
    assert_eq!(m.groups().len(), 3);
    assert_eq!(m.groups()[0], vec![0, 1, 2, 3]);
    assert_eq!(m.groups()[1], vec![3, 4, 5, 6]);
    assert_eq!(m.groups()[2], vec![6, 7]);
    assert_eq!(m.sample_points()[2][16], SamplePoint { x: 7 * SCALE, y: 0 });
}

/// Deleting the last remaining point leaves the valid empty state: zero
/// points, zero groups, zero cache rows.
#[test]
fn delete_to_empty() {
    let mut m = CurveModel::new();
    m.add_point(5, 5);
    assert_eq!(m.delete_point(0), Ok(()));
    assert_eq!(m.control_points().len(), 0);
    assert_eq!(m.groups().len(), 0);
    assert_eq!(m.sample_points().len(), 0);
    // the empty model accepts new points again
    assert_eq!(m.add_point(1, 2), 0);
    assert_eq!(m.groups()[0], vec![0]);
}

/// Out-of-bounds positions are rejected and leave the model unchanged.
#[test]
fn out_of_bounds_rejected() {
    let mut m = CurveModel::new();
    m.add_point(0, 0);
    m.add_point(10, 0);
    assert_eq!(m.delete_point(2), Err(CurveError::OutOfBounds));
    assert_eq!(m.move_point(2, 1, 1), Err(CurveError::OutOfBounds));
    assert_eq!(m.recompute_group_samples(1), Err(CurveError::OutOfBounds));
    assert_eq!(m.control_points().len(), 2);
    assert_eq!(m.control_points()[0], ControlPoint { x: 0, y: 0 });
    assert_eq!(m.control_points()[1], ControlPoint { x: 10, y: 0 });
    assert_eq!(m.groups()[0], vec![0, 1]);
}

/// Moving a point rewrites its coordinates but leaves the cache stale until
/// the separate recompute call refreshes it.
#[test]
fn move_then_recompute() {
    let mut m = CurveModel::new();
    m.add_point(0, 0);
    m.add_point(16, 0);
    assert_eq!(m.sample_points()[0][16], SamplePoint { x: 16 * SCALE, y: 0 });
    assert_eq!(m.move_point(1, 16, 16), Ok(()));
    assert_eq!(m.control_points()[1], ControlPoint { x: 16, y: 16 });
    // stale: the cached row still shows the old position
    assert_eq!(m.sample_points()[0][16], SamplePoint { x: 16 * SCALE, y: 0 });
    m.recompute_samples_touching(1);
    assert_eq!(m.sample_points()[0][16], SamplePoint { x: 16 * SCALE, y: 16 * SCALE });
    assert_eq!(m.sample_points()[0][8], SamplePoint { x: 8 * SCALE, y: 8 * SCALE });
}

/// The one-group recompute refreshes exactly the named row.
#[test]
fn recompute_single_group() {
    let mut m = square_model();
    m.add_point(20, 20);
    assert_eq!(m.move_point(4, 40, 0), Ok(()));
    assert_eq!(m.recompute_group_samples(1), Ok(()));
    assert_eq!(m.sample_points()[1][16], SamplePoint { x: 40 * SCALE, y: 0 });
    // group 0 does not hold point 4, so its row kept its old endpoint
    assert_eq!(m.sample_points()[0][16], SamplePoint { x: 0, y: 10 * SCALE });
}

/// The picking query returns the highest-positioned point within tolerance,
/// and nothing when no point is near.
#[test]
fn find_point_near_picks_last_match() {
    let mut m = CurveModel::new();
    m.add_point(0, 0);
    m.add_point(10, 0);
    m.add_point(12, 0);
    assert_eq!(m.find_point_near(11, 0, 2), Some(2));
    assert_eq!(m.find_point_near(10, 0, 0), Some(1));
    assert_eq!(m.find_point_near(14, 0, 2), Some(2));
    assert_eq!(m.find_point_near(7, 0, 2), None);
    assert_eq!(m.find_point_near(100, 100, 5), None);
}

/// The groups-of-point query lists every group holding the position, in
/// ascending order; a shared boundary point belongs to two groups.
#[test]
fn groups_of_point_shared_boundary() {
    let mut m = square_model();
    m.add_point(20, 20);
    assert_eq!(m.groups_of_point(3), vec![0, 1]);
    assert_eq!(m.groups_of_point(0), vec![0]);
    assert_eq!(m.groups_of_point(4), vec![1]);
    assert_eq!(m.groups_of_point(99), Vec::<usize>::new());
}

/// The points-in-group query gathers the control points in group order.
#[test]
fn points_of_group_in_order() {
    let mut m = square_model();
    m.add_point(20, 20);
    let pts = m.points_of_group(1);
    assert_eq!(pts, vec![ControlPoint { x: 0, y: 10 }, ControlPoint { x: 20, y: 20 }]);
}

/// Each added point raises the count by exactly one and lands in the last
/// group.
#[test]
fn add_is_monotonic() {
    let mut m = CurveModel::new();
    for n in 0..9u32 {
        let idx = m.add_point(n as i64, 0);
        assert_eq!(idx as u32, n);
        assert_eq!(m.control_points().len() as u32, n + 1);
        let last = m.groups().len() - 1;
        assert!(m.groups()[last].contains(&idx));
    }
    assert_eq!(m.groups()[0], vec![0, 1, 2, 3]);
    assert_eq!(m.groups()[1], vec![3, 4, 5, 6]);
    assert_eq!(m.groups()[2], vec![6, 7, 8]);
}

/// After any sequence of mutations, adjacent groups share their boundary
/// position and every cache row holds exactly seventeen samples.
#[test]
fn continuity_and_cache_shape_hold() {
    let mut m = CurveModel::new();
    for n in 0..9 {
        m.add_point(n, n * 2);
        check_invariants(&m);
    }
    m.move_point(4, -3, 7).unwrap();
    m.recompute_samples_touching(4);
    check_invariants(&m);
    m.delete_point(6).unwrap();
    check_invariants(&m);
    m.delete_point(0).unwrap();
    check_invariants(&m);
    while m.control_points().len() > 0 {
        m.delete_point(m.control_points().len() - 1).unwrap();
        check_invariants(&m);
    }
    assert_eq!(m.groups().len(), 0);
}

fn check_invariants(m: &CurveModel) {
    let groups = m.groups();
    let rows = m.sample_points();
    assert_eq!(groups.len(), rows.len());
    for row in rows {
        assert_eq!(row.len(), 17);
    }
    for w in groups.windows(2) {
        assert_eq!(w[0].last(), w[1].first());
    }
    if m.control_points().is_empty() {
        assert!(groups.is_empty());
    } else {
        assert!(!groups.is_empty());
    }
}
