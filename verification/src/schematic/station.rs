//! Station ports and the octilinear axes of a schematic.

use vstd::prelude::*;

verus! {

/// A route's connection to a common or interchange station.
#[derive(Debug, Clone, Copy, PartialEq, Eq, Hash, Structural)]
pub enum SchematicStationPort {
    SingleLine,
    Interchange(SchematicInterchangePort),
}

/// A route's geometric relationship to an interchange capsule's major axis.
#[derive(Debug, Clone, Copy, PartialEq, Eq, Hash, Structural)]
pub enum SchematicInterchangePort {
    MajorAxis {},
    RisingOblique {},
    FallingOblique {},
    SinglePerpendicular {},
    PerpendicularAnchor { index: u8 },
}

/// An undirected octilinear axis in SVG coordinates (the y axis points down).
#[derive(Debug, Clone, Copy, PartialEq, Eq, Hash, Structural)]
pub enum OctilinearAxis {
    Horizontal,
    FallingDiagonal,
    Vertical,
    RisingDiagonal,
}

/// The position of an axis in counter-clockwise order, starting from the
/// horizontal axis: each step turns by 45 degrees.
pub open spec fn axis_turns(axis: OctilinearAxis) -> int {
    match axis {
        OctilinearAxis::Horizontal => 0,
        OctilinearAxis::RisingDiagonal => 1,
        OctilinearAxis::Vertical => 2,
        OctilinearAxis::FallingDiagonal => 3,
    }
}

/// The axis at position `t` (taken modulo 4) in counter-clockwise order.
pub open spec fn axis_at_turns(t: int) -> OctilinearAxis {
    let m = t % 4;
    if m == 0 {
        OctilinearAxis::Horizontal
    } else if m == 1 {
        OctilinearAxis::RisingDiagonal
    } else if m == 2 {
        OctilinearAxis::Vertical
    } else {
        OctilinearAxis::FallingDiagonal
    }
}

/// The axis turned by 45 degrees counter-clockwise.
pub open spec fn turned_counter_clockwise(axis: OctilinearAxis) -> OctilinearAxis {
    axis_at_turns(axis_turns(axis) + 1)
}

/// The axis turned by 45 degrees clockwise.
pub open spec fn turned_clockwise(axis: OctilinearAxis) -> OctilinearAxis {
    axis_at_turns(axis_turns(axis) + 3)
}

/// The axis at a right angle.
pub open spec fn at_right_angle(axis: OctilinearAxis) -> OctilinearAxis {
    axis_at_turns(axis_turns(axis) + 2)
}

/// The axis turned by 45 degrees counter-clockwise.
pub fn rotate_counter_clockwise(axis: OctilinearAxis) -> (r: OctilinearAxis)
    ensures
        r == turned_counter_clockwise(axis),
{
    match axis {
        OctilinearAxis::Horizontal => OctilinearAxis::RisingDiagonal,
        OctilinearAxis::FallingDiagonal => OctilinearAxis::Horizontal,
        OctilinearAxis::Vertical => OctilinearAxis::FallingDiagonal,
        OctilinearAxis::RisingDiagonal => OctilinearAxis::Vertical,
    }
}

/// The axis turned by 45 degrees clockwise.
pub fn rotate_clockwise(axis: OctilinearAxis) -> (r: OctilinearAxis)
    ensures
        r == turned_clockwise(axis),
{
    match axis {
        OctilinearAxis::Horizontal => OctilinearAxis::FallingDiagonal,
        OctilinearAxis::FallingDiagonal => OctilinearAxis::Vertical,
        OctilinearAxis::Vertical => OctilinearAxis::RisingDiagonal,
        OctilinearAxis::RisingDiagonal => OctilinearAxis::Horizontal,
    }
}

/// The axis at a right angle.
pub fn perpendicular(axis: OctilinearAxis) -> (r: OctilinearAxis)
    ensures
        r == at_right_angle(axis),
{
    match axis {
        OctilinearAxis::Horizontal => OctilinearAxis::Vertical,
        OctilinearAxis::FallingDiagonal => OctilinearAxis::RisingDiagonal,
        OctilinearAxis::Vertical => OctilinearAxis::Horizontal,
        OctilinearAxis::RisingDiagonal => OctilinearAxis::FallingDiagonal,
    }
}

/// Turning clockwise undoes turning counter-clockwise, and the other way
/// round.
pub proof fn lemma_rotations_inverse(axis: OctilinearAxis)
    ensures
        turned_clockwise(turned_counter_clockwise(axis)) == axis,
        turned_counter_clockwise(turned_clockwise(axis)) == axis,
{
}

/// Two turns of 45 degrees in the same direction make the perpendicular
/// axis, whichever the direction.
pub proof fn lemma_two_turns_perpendicular(axis: OctilinearAxis)
    ensures
        turned_counter_clockwise(turned_counter_clockwise(axis)) == at_right_angle(axis),
        turned_clockwise(turned_clockwise(axis)) == at_right_angle(axis),
{
}

/// The perpendicular of the perpendicular is the axis itself, and no axis is
/// its own perpendicular.
pub proof fn lemma_perpendicular_involution(axis: OctilinearAxis)
    ensures
        at_right_angle(at_right_angle(axis)) == axis,
        at_right_angle(axis) != axis,
{
}

/// Four turns of 45 degrees in the same direction come back to the axis.
pub proof fn lemma_four_turns_identity(axis: OctilinearAxis)
    ensures
        turned_counter_clockwise(
            turned_counter_clockwise(turned_counter_clockwise(turned_counter_clockwise(axis))),
        ) == axis,
        turned_clockwise(turned_clockwise(turned_clockwise(turned_clockwise(axis)))) == axis,
{
}

/// A direction along the axis in SVG coordinates, where the y axis points
/// down: the rising diagonal goes right and up.
pub open spec fn axis_direction(axis: OctilinearAxis) -> (int, int) {
    match axis {
        OctilinearAxis::Horizontal => (1, 0),
        OctilinearAxis::FallingDiagonal => (1, 1),
        OctilinearAxis::Vertical => (0, 1),
        OctilinearAxis::RisingDiagonal => (1, -1),
    }
}

/// Whether two directions lie on one line.
pub open spec fn parallel(a: (int, int), b: (int, int)) -> bool {
    a.0 * b.1 - a.1 * b.0 == 0
}

/// The turns are those of the screen, whose y axis points down: turning a
/// direction `(dx, dy)` by 45 degrees counter-clockwise gives a direction
/// along `(dx + dy, dy - dx)`, clockwise along `(dx - dy, dx + dy)`, and the
/// perpendicular axis is at a right angle to the axis.
pub proof fn lemma_turns_on_screen(axis: OctilinearAxis)
    ensures
        parallel(
            axis_direction(turned_counter_clockwise(axis)),
            (
                axis_direction(axis).0 + axis_direction(axis).1,
                axis_direction(axis).1 - axis_direction(axis).0,
            ),
        ),
        parallel(
            axis_direction(turned_clockwise(axis)),
            (
                axis_direction(axis).0 - axis_direction(axis).1,
                axis_direction(axis).0 + axis_direction(axis).1,
            ),
        ),
        axis_direction(at_right_angle(axis)).0 * axis_direction(axis).0 + axis_direction(
            at_right_angle(axis),
        ).1 * axis_direction(axis).1 == 0,
{
    match axis {
        OctilinearAxis::Horizontal => {
            assert(turned_counter_clockwise(axis) == OctilinearAxis::RisingDiagonal);
            assert(turned_clockwise(axis) == OctilinearAxis::FallingDiagonal);
            assert(parallel(axis_direction(OctilinearAxis::RisingDiagonal), (1, -1)));
            assert(parallel(axis_direction(OctilinearAxis::FallingDiagonal), (1, 1)));
        },
        OctilinearAxis::FallingDiagonal => {
            assert(turned_counter_clockwise(axis) == OctilinearAxis::Horizontal);
            assert(turned_clockwise(axis) == OctilinearAxis::Vertical);
            assert(parallel(axis_direction(OctilinearAxis::Horizontal), (2, 0)));
            assert(parallel(axis_direction(OctilinearAxis::Vertical), (0, 2)));
        },
        OctilinearAxis::Vertical => {
            assert(turned_counter_clockwise(axis) == OctilinearAxis::FallingDiagonal);
            assert(turned_clockwise(axis) == OctilinearAxis::RisingDiagonal);
            assert(parallel(axis_direction(OctilinearAxis::FallingDiagonal), (1, 1)));
            assert(parallel(axis_direction(OctilinearAxis::RisingDiagonal), (-1, 1)));
        },
        OctilinearAxis::RisingDiagonal => {
            assert(turned_counter_clockwise(axis) == OctilinearAxis::Vertical);
            assert(turned_clockwise(axis) == OctilinearAxis::Horizontal);
            assert(parallel(axis_direction(OctilinearAxis::Vertical), (0, -2)));
            assert(parallel(axis_direction(OctilinearAxis::Horizontal), (2, 0)));
        },
    }
}

} // verus!
