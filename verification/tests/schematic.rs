use mtrd::schematic::station::{
    perpendicular, rotate_clockwise, rotate_counter_clockwise, OctilinearAxis,
};
use mtrd::schematic::validation::{
    check_path, path_legs, CornerShape, LegDirection, PathFault, PathPoint,
};

const AXES: [OctilinearAxis; 4] = [
    OctilinearAxis::Horizontal,
    OctilinearAxis::FallingDiagonal,
    OctilinearAxis::Vertical,
    OctilinearAxis::RisingDiagonal,
];

#[test]
fn rotates_each_axis() {
    assert_eq!(rotate_counter_clockwise(OctilinearAxis::Horizontal), OctilinearAxis::RisingDiagonal);
    assert_eq!(rotate_clockwise(OctilinearAxis::Horizontal), OctilinearAxis::FallingDiagonal);
    assert_eq!(perpendicular(OctilinearAxis::FallingDiagonal), OctilinearAxis::RisingDiagonal);
    assert_eq!(perpendicular(OctilinearAxis::Vertical), OctilinearAxis::Horizontal);
}

#[test]
fn rotations_undo_each_other() {
    for axis in AXES {
        assert_eq!(rotate_clockwise(rotate_counter_clockwise(axis)), axis);
        assert_eq!(rotate_counter_clockwise(rotate_clockwise(axis)), axis);
    }
}

#[test]
fn two_turns_are_perpendicular() {
    for axis in AXES {
        assert_eq!(rotate_clockwise(rotate_clockwise(axis)), perpendicular(axis));
        assert_eq!(rotate_counter_clockwise(rotate_counter_clockwise(axis)), perpendicular(axis));
        assert_eq!(perpendicular(perpendicular(axis)), axis);
        assert_ne!(perpendicular(axis), axis);
    }
}

fn anchor() -> PathPoint {
    PathPoint::Anchor { permitted_axis: None, reverses: false }
}

fn along(axis: OctilinearAxis) -> LegDirection {
    LegDirection::Along(axis)
}

#[test]
fn lists_the_legs_of_a_path() {
    assert_eq!(path_legs(3, true), vec![(0, 1), (1, 2), (2, 0)]);
    assert_eq!(path_legs(3, false), vec![(0, 1), (1, 2)]);
    assert_eq!(path_legs(0, false), vec![]);
    assert_eq!(path_legs(0, true), vec![]);
}

#[test]
fn accepts_a_straight_path() {
    let legs = vec![along(OctilinearAxis::Horizontal), along(OctilinearAxis::Horizontal)];
    let points = vec![anchor(), anchor(), anchor()];
    assert_eq!(check_path(&legs, &points, false, &vec![false, false]), Ok(()));
}

#[test]
fn reports_the_first_bad_leg() {
    let legs = vec![
        along(OctilinearAxis::Horizontal),
        LegDirection::Coincident,
        LegDirection::NonOctilinear,
    ];
    let points = vec![anchor(), anchor(), anchor(), anchor()];
    assert_eq!(
        check_path(&legs, &points, false, &vec![true, true, true]),
        Err(PathFault::CoincidentPoints)
    );
    let legs = vec![LegDirection::NonOctilinear, LegDirection::Coincident];
    assert_eq!(
        check_path(&legs, &points[..3].to_vec(), false, &vec![false, false]),
        Err(PathFault::NonOctilinearLeg)
    );
}

#[test]
fn reports_a_port_on_the_wrong_axis() {
    let legs = vec![along(OctilinearAxis::Horizontal)];
    let points = vec![
        anchor(),
        PathPoint::Anchor { permitted_axis: Some(OctilinearAxis::Vertical), reverses: false },
    ];
    assert_eq!(
        check_path(&legs, &points, false, &vec![false]),
        Err(PathFault::InvalidPortAxis { point: 1 })
    );
}

#[test]
fn reports_a_bend_at_a_station() {
    let legs = vec![along(OctilinearAxis::Horizontal), along(OctilinearAxis::Vertical)];
    let points = vec![anchor(), anchor(), anchor()];
    assert_eq!(
        check_path(&legs, &points, false, &vec![false, false]),
        Err(PathFault::BendAtStation { point: 1 })
    );
    let legs = vec![along(OctilinearAxis::Horizontal), along(OctilinearAxis::Horizontal)];
    let points = vec![anchor(), PathPoint::Anchor { permitted_axis: None, reverses: true }, anchor()];
    assert_eq!(
        check_path(&legs, &points, false, &vec![false, false]),
        Err(PathFault::BendAtStation { point: 1 })
    );
}

#[test]
fn reports_a_corner_at_the_end_of_an_open_path() {
    let legs = vec![along(OctilinearAxis::Horizontal)];
    let points = vec![PathPoint::Corner { shape: CornerShape::Turning }, anchor()];
    assert_eq!(
        check_path(&legs, &points, false, &vec![false]),
        Err(PathFault::CollinearCorner { point: 0 })
    );
}

#[test]
fn reports_the_shape_of_a_corner() {
    let legs = vec![along(OctilinearAxis::Horizontal), along(OctilinearAxis::Vertical)];
    let corner = |shape| vec![anchor(), PathPoint::Corner { shape }, anchor()];
    let no_overlap = vec![false, false];
    assert_eq!(check_path(&legs, &corner(CornerShape::Turning), false, &no_overlap), Ok(()));
    assert_eq!(
        check_path(&legs, &corner(CornerShape::Collinear), false, &no_overlap),
        Err(PathFault::CollinearCorner { point: 1 })
    );
    assert_eq!(
        check_path(&legs, &corner(CornerShape::Reversing), false, &no_overlap),
        Err(PathFault::ReversingCorner { point: 1 })
    );
    assert_eq!(
        check_path(&legs, &corner(CornerShape::RadiusTooLarge), false, &no_overlap),
        Err(PathFault::CornerRadiusTooLarge { point: 1 })
    );
    assert_eq!(
        check_path(&legs, &corner(CornerShape::Turning), false, &vec![false, true]),
        Err(PathFault::CornerRadiiOverlap)
    );
}

#[test]
fn closes_a_path_through_its_first_point() {
    let points = vec![anchor(), PathPoint::Corner { shape: CornerShape::Turning }, PathPoint::Corner {
        shape: CornerShape::Turning,
    }];
    let legs = vec![
        along(OctilinearAxis::Horizontal),
        along(OctilinearAxis::Vertical),
        along(OctilinearAxis::FallingDiagonal),
    ];
    assert_eq!(
        check_path(&legs, &points, true, &vec![false, false, false]),
        Err(PathFault::BendAtStation { point: 0 })
    );
    let points = vec![
        PathPoint::Corner { shape: CornerShape::Turning },
        PathPoint::Corner { shape: CornerShape::Turning },
        PathPoint::Corner { shape: CornerShape::Turning },
    ];
    assert_eq!(check_path(&legs, &points, true, &vec![false, false, false]), Ok(()));
}

#[test]
fn accepts_an_empty_closed_path() {
    assert_eq!(check_path(&vec![], &vec![], true, &vec![]), Ok(()));
}
