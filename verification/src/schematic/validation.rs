//! The structural rules of a schematic path: which legs a path has, how the
//! legs at each point must meet, and in which order the faults of a path are
//! reported. The geometry that classifies a leg or a corner is measured on
//! coordinates elsewhere; here it comes in as the outcome of each
//! measurement.

use vstd::prelude::*;
use crate::schematic::station::OctilinearAxis;

verus! {

/// How the leg from one point of a path to the next runs.
#[derive(Debug, Clone, Copy, PartialEq, Eq, Structural)]
pub enum LegDirection {
    /// Both ends lie at the same place.
    Coincident,
    /// The leg follows none of the octilinear axes.
    NonOctilinear,
    /// The leg follows the given axis.
    Along(OctilinearAxis),
}

/// How a layout corner turns, as measured from the legs around it.
#[derive(Debug, Clone, Copy, PartialEq, Eq, Structural)]
pub enum CornerShape {
    /// A true turn whose rounding fits on both legs.
    Turning,
    /// The path goes straight on through the corner.
    Collinear,
    /// The path turns back on itself at the corner.
    Reversing,
    /// The rounding of the corner is longer than one of its legs.
    RadiusTooLarge,
}

/// A point of a path as far as the rules need it.
#[derive(Debug, Clone, Copy, PartialEq, Eq, Structural)]
pub enum PathPoint {
    /// A station anchor, with the one axis its port allows (if any) and
    /// whether the path turns back on itself there.
    Anchor { permitted_axis: Option<OctilinearAxis>, reverses: bool },
    /// A layout corner and its measured shape.
    Corner { shape: CornerShape },
}

/// The first rule that a path breaks.
#[derive(Debug, Clone, Copy, PartialEq, Eq, Structural)]
pub enum PathFault {
    CoincidentPoints,
    NonOctilinearLeg,
    InvalidPortAxis { point: usize },
    BendAtStation { point: usize },
    CollinearCorner { point: usize },
    ReversingCorner { point: usize },
    CornerRadiusTooLarge { point: usize },
    CornerRadiiOverlap,
}

/// The axis of a leg that follows one.
pub open spec fn leg_axis(leg: LegDirection) -> OctilinearAxis {
    match leg {
        LegDirection::Along(axis) => axis,
        _ => OctilinearAxis::Horizontal,
    }
}

/// The fault of the first leg from `k` on that follows no axis.
pub open spec fn first_leg_fault(legs: Seq<LegDirection>, k: int) -> Option<PathFault>
    decreases legs.len() - k,
{
    if k < 0 || k >= legs.len() {
        None
    } else {
        match legs[k] {
            LegDirection::Coincident => Some(PathFault::CoincidentPoints),
            LegDirection::NonOctilinear => Some(PathFault::NonOctilinearLeg),
            LegDirection::Along(_) => first_leg_fault(legs, k + 1),
        }
    }
}

/// The axis of the leg that arrives at point `i`: the previous leg, or for
/// the first point of a closed path the last leg.
pub open spec fn incoming_axis(legs: Seq<LegDirection>, i: int, closed: bool) -> Option<
    OctilinearAxis,
> {
    if i > 0 {
        Some(leg_axis(legs[i - 1]))
    } else if closed && legs.len() > 0 {
        Some(leg_axis(legs.last()))
    } else {
        None
    }
}

/// The axis of the leg that leaves point `i`, if there is one.
pub open spec fn outgoing_axis(legs: Seq<LegDirection>, i: int) -> Option<OctilinearAxis> {
    if i < legs.len() {
        Some(leg_axis(legs[i]))
    } else {
        None
    }
}

/// The rule that point `i` breaks, if any. At an anchor whose port allows
/// one axis, every leg at the anchor must follow it; an anchor between two
/// legs must see them follow one axis without turning back. A corner needs a
/// leg on each side, and must turn with a rounding that fits.
pub open spec fn point_fault(legs: Seq<LegDirection>, point: PathPoint, i: int, closed: bool) -> Option<
    PathFault,
> {
    let incoming = incoming_axis(legs, i, closed);
    let outgoing = outgoing_axis(legs, i);
    match point {
        PathPoint::Anchor { permitted_axis, reverses } => {
            if permitted_axis is Some && ((incoming is Some && incoming != permitted_axis) || (
            outgoing is Some && outgoing != permitted_axis)) {
                Some(PathFault::InvalidPortAxis { point: i as usize })
            } else if incoming is Some && outgoing is Some && (incoming != outgoing || reverses) {
                Some(PathFault::BendAtStation { point: i as usize })
            } else {
                None
            }
        },
        PathPoint::Corner { shape } => {
            if incoming is None || outgoing is None {
                Some(PathFault::CollinearCorner { point: i as usize })
            } else {
                match shape {
                    CornerShape::Turning => None,
                    CornerShape::Collinear => Some(PathFault::CollinearCorner { point: i as usize }),
                    CornerShape::Reversing => Some(PathFault::ReversingCorner { point: i as usize }),
                    CornerShape::RadiusTooLarge => Some(
                        PathFault::CornerRadiusTooLarge { point: i as usize },
                    ),
                }
            }
        },
    }
}

/// The fault of the first point from `i` on that breaks a rule.
pub open spec fn first_point_fault(
    legs: Seq<LegDirection>,
    points: Seq<PathPoint>,
    closed: bool,
    i: int,
) -> Option<PathFault>
    decreases points.len() - i,
{
    if i < 0 || i >= points.len() {
        None
    } else if let Some(f) = point_fault(legs, points[i], i, closed) {
        Some(f)
    } else {
        first_point_fault(legs, points, closed, i + 1)
    }
}

/// The verdict on a path: the first leg that follows no axis, else the first
/// point that breaks a rule, else any leg too short for the roundings of the
/// corners at its ends.
pub open spec fn path_verdict(
    legs: Seq<LegDirection>,
    points: Seq<PathPoint>,
    closed: bool,
    radii_overlap: Seq<bool>,
) -> Result<(), PathFault> {
    if let Some(f) = first_leg_fault(legs, 0) {
        Err(f)
    } else if let Some(f) = first_point_fault(legs, points, closed, 0) {
        Err(f)
    } else if radii_overlap.contains(true) {
        Err(PathFault::CornerRadiiOverlap)
    } else {
        Ok(())
    }
}

/// The number of legs of a path with `n` points whose last leg closes the
/// path, or `n - 1` legs where it is open (none for an open path without
/// points).
pub open spec fn leg_total(n: int, closed: bool) -> int {
    if closed {
        n
    } else if n == 0 {
        0
    } else {
        n - 1
    }
}

/// The legs of a path with `n` points as pairs of point indices: leg `k`
/// runs from point `k` to the next one, the last leg of a closed path back to
/// the first point.
pub open spec fn spec_path_legs(n: int, closed: bool) -> Seq<(usize, usize)> {
    Seq::new(leg_total(n, closed) as nat, |k: int| (k as usize, ((k + 1) % n) as usize))
}

/// The legs of a path with `point_count` points, as pairs of point indices.
pub fn path_legs(point_count: usize, closed: bool) -> (r: Vec<(usize, usize)>)
    ensures
        r@ == spec_path_legs(point_count as int, closed),
{
    let count = if closed {
        point_count
    } else if point_count == 0 {
        0
    } else {
        point_count - 1
    };
    let mut legs: Vec<(usize, usize)> = Vec::new();
    let mut k: usize = 0;
    while k < count
        invariant
            k <= count,
            count <= point_count,
            legs@.len() == k,
            forall|m: int|
                0 <= m < k ==> #[trigger] legs@[m] == (m as usize, ((m + 1) % (
                point_count as int)) as usize),
        decreases count - k,
    {
        let next = if k + 1 == point_count {
            0
        } else {
            k + 1
        };
        proof {
            if k + 1 < point_count {
                vstd::arithmetic::div_mod::lemma_small_mod((k + 1) as nat, point_count as nat);
            } else {
                vstd::arithmetic::div_mod::lemma_mod_self_0(point_count as int);
            }
        }
        legs.push((k, next));
        k = k + 1;
    }
    assert(legs@ =~= spec_path_legs(point_count as int, closed));
    legs
}

/// Decides whether a path keeps the structural rules, given how each of its
/// legs runs, each of its points, and for each leg whether the roundings of
/// the corners at its ends overlap.
pub fn check_path(
    legs: &Vec<LegDirection>,
    points: &Vec<PathPoint>,
    closed: bool,
    radii_overlap: &Vec<bool>,
) -> (r: Result<(), PathFault>)
    requires
        closed || points@.len() > 0,
        legs@.len() == leg_total(points@.len() as int, closed),
        radii_overlap@.len() == legs@.len(),
    ensures
        r == path_verdict(legs@, points@, closed, radii_overlap@),
{
    let mut k: usize = 0;
    while k < legs.len()
        invariant
            k <= legs@.len(),
            first_leg_fault(legs@, 0) == first_leg_fault(legs@, k as int),
        decreases legs@.len() - k,
    {
        match legs[k] {
            LegDirection::Coincident => return Err(PathFault::CoincidentPoints),
            LegDirection::NonOctilinear => return Err(PathFault::NonOctilinearLeg),
            LegDirection::Along(_) => {},
        }
        k = k + 1;
    }
    let mut i: usize = 0;
    while i < points.len()
        invariant
            i <= points@.len(),
            legs@.len() == leg_total(points@.len() as int, closed),
            closed || points@.len() > 0,
            first_leg_fault(legs@, 0) is None,
            first_point_fault(legs@, points@, closed, 0) == first_point_fault(
                legs@,
                points@,
                closed,
                i as int,
            ),
        decreases points@.len() - i,
    {
        let incoming = if i > 0 {
            axis_of(legs, i - 1)
        } else if closed && legs.len() > 0 {
            axis_of(legs, legs.len() - 1)
        } else {
            None
        };
        let outgoing = if i < legs.len() {
            axis_of(legs, i)
        } else {
            None
        };
        assert(incoming == incoming_axis(legs@, i as int, closed));
        assert(outgoing == outgoing_axis(legs@, i as int));
        match points[i] {
            PathPoint::Anchor { permitted_axis, reverses } => {
                if let Some(required) = permitted_axis {
                    let off_in = match incoming {
                        Some(axis) => axis != required,
                        None => false,
                    };
                    let off_out = match outgoing {
                        Some(axis) => axis != required,
                        None => false,
                    };
                    if off_in || off_out {
                        return Err(PathFault::InvalidPortAxis { point: i });
                    }
                }
                if let (Some(before), Some(after)) = (incoming, outgoing) {
                    if before != after || reverses {
                        return Err(PathFault::BendAtStation { point: i });
                    }
                }
            },
            PathPoint::Corner { shape } => {
                if incoming.is_none() || outgoing.is_none() {
                    return Err(PathFault::CollinearCorner { point: i });
                }
                match shape {
                    CornerShape::Turning => {},
                    CornerShape::Collinear => return Err(PathFault::CollinearCorner { point: i }),
                    CornerShape::Reversing => return Err(PathFault::ReversingCorner { point: i }),
                    CornerShape::RadiusTooLarge => return Err(
                        PathFault::CornerRadiusTooLarge { point: i },
                    ),
                }
            },
        }
        i = i + 1;
    }
    let mut k: usize = 0;
    while k < radii_overlap.len()
        invariant
            k <= radii_overlap@.len(),
            forall|m: int| 0 <= m < k ==> !radii_overlap@[m],
            first_leg_fault(legs@, 0) is None,
            first_point_fault(legs@, points@, closed, 0) is None,
        decreases radii_overlap@.len() - k,
    {
        if radii_overlap[k] {
            assert(radii_overlap@[k as int] == true);
            return Err(PathFault::CornerRadiiOverlap);
        }
        k = k + 1;
    }
    proof {
        if radii_overlap@.contains(true) {
            let m = choose|m: int| 0 <= m < radii_overlap@.len() && radii_overlap@[m] == true;
            assert(!radii_overlap@[m]);
        }
    }
    Ok(())
}

proof fn lemma_first_leg_fault_none(legs: Seq<LegDirection>, k: int)
    requires
        0 <= k <= legs.len(),
    ensures
        first_leg_fault(legs, k) is None <==> forall|m: int|
            k <= m < legs.len() ==> (#[trigger] legs[m]) is Along,
    decreases legs.len() - k,
{
    if k < legs.len() {
        lemma_first_leg_fault_none(legs, k + 1);
    }
}

proof fn lemma_first_point_fault_none(
    legs: Seq<LegDirection>,
    points: Seq<PathPoint>,
    closed: bool,
    i: int,
)
    requires
        0 <= i <= points.len(),
    ensures
        first_point_fault(legs, points, closed, i) is None <==> forall|m: int|
            i <= m < points.len() ==> (#[trigger] point_fault(legs, points[m], m, closed)) is None,
    decreases points.len() - i,
{
    if i < points.len() {
        lemma_first_point_fault_none(legs, points, closed, i + 1);
    }
}

/// A path is accepted exactly when every leg follows an axis, no point
/// breaks a rule, and no leg is too short for the roundings at its ends.
pub proof fn lemma_path_verdict_accepts(
    legs: Seq<LegDirection>,
    points: Seq<PathPoint>,
    closed: bool,
    radii_overlap: Seq<bool>,
)
    ensures
        path_verdict(legs, points, closed, radii_overlap) is Ok <==> {
            &&& forall|k: int| 0 <= k < legs.len() ==> (#[trigger] legs[k]) is Along
            &&& forall|i: int|
                0 <= i < points.len() ==> (#[trigger] point_fault(legs, points[i], i, closed)) is None
            &&& forall|k: int| 0 <= k < radii_overlap.len() ==> !(#[trigger] radii_overlap[k])
        },
{
    lemma_first_leg_fault_none(legs, 0);
    lemma_first_point_fault_none(legs, points, closed, 0);
    if radii_overlap.contains(true) {
        let k = choose|k: int| 0 <= k < radii_overlap.len() && radii_overlap[k] == true;
        assert(radii_overlap[k]);
    } else {
        assert forall|k: int| 0 <= k < radii_overlap.len() implies !(#[trigger] radii_overlap[k]) by {
            if radii_overlap[k] {
                assert(radii_overlap.contains(true));
            }
        }
    }
}

/// In an accepted path, a station is passed straight through: the legs on
/// both sides of an anchor follow one axis, the one its port allows where it
/// allows one, and every corner has a leg on each side.
pub proof fn lemma_accepted_path_points(
    legs: Seq<LegDirection>,
    points: Seq<PathPoint>,
    closed: bool,
    radii_overlap: Seq<bool>,
    i: int,
)
    requires
        path_verdict(legs, points, closed, radii_overlap) is Ok,
        0 <= i < points.len(),
    ensures
        points[i] is Anchor && incoming_axis(legs, i, closed) is Some && outgoing_axis(legs, i)
            is Some ==> incoming_axis(legs, i, closed) == outgoing_axis(legs, i),
        points[i] matches PathPoint::Anchor { permitted_axis: Some(axis), .. } ==> (
        incoming_axis(legs, i, closed) is Some ==> incoming_axis(legs, i, closed) == Some(axis))
            && (outgoing_axis(legs, i) is Some ==> outgoing_axis(legs, i) == Some(axis)),
        points[i] is Corner ==> incoming_axis(legs, i, closed) is Some && outgoing_axis(legs, i)
            is Some,
{
    lemma_path_verdict_accepts(legs, points, closed, radii_overlap);
    assert(point_fault(legs, points[i], i, closed) is None);
}

/// The legs of a path form a chain: each leg starts where the previous one
/// ends, and the last leg of a closed path ends at the first point.
pub proof fn lemma_path_legs_chain(point_count: usize, closed: bool)
    ensures
        forall|k: int|
            0 <= k < spec_path_legs(point_count as int, closed).len() - 1 ==> (
            #[trigger] spec_path_legs(point_count as int, closed)[k]).1 == spec_path_legs(
                point_count as int,
                closed,
            )[k + 1].0,
        closed && point_count > 0 ==> spec_path_legs(point_count as int, closed).last().1 == 0,
        !closed ==> forall|k: int|
            0 <= k < spec_path_legs(point_count as int, closed).len() ==> (
            #[trigger] spec_path_legs(point_count as int, closed)[k]).1 == k + 1,
{
    let legs = spec_path_legs(point_count as int, closed);
    assert forall|k: int| 0 <= k < legs.len() - 1 implies (#[trigger] legs[k]).1 == legs[k
        + 1].0 by {
        vstd::arithmetic::div_mod::lemma_small_mod((k + 1) as nat, point_count as nat);
    }
    if closed && point_count > 0 {
        vstd::arithmetic::div_mod::lemma_mod_self_0(point_count as int);
    }
    if !closed {
        assert forall|k: int| 0 <= k < legs.len() implies (#[trigger] legs[k]).1 == k + 1 by {
            vstd::arithmetic::div_mod::lemma_small_mod((k + 1) as nat, point_count as nat);
        }
    }
}

/// A closed path with `n` points has `n` legs and an open one `n - 1` (none
/// when it has no point). Leg `k` runs from point `k` to point `k + 1`, the
/// last leg of a closed path back to point `0`.
pub proof fn lemma_path_legs_cover(n: usize, closed: bool)
    ensures
        spec_path_legs(n as int, closed).len() == if closed {
            n as int
        } else if n == 0 {
            0
        } else {
            n - 1
        },
        forall|k: int|
            #![trigger spec_path_legs(n as int, closed)[k]]
            0 <= k < spec_path_legs(n as int, closed).len() ==> spec_path_legs(
                n as int,
                closed,
            )[k].0 == k && spec_path_legs(n as int, closed)[k].1 == if k + 1 == n {
                0
            } else {
                k + 1
            },
{
    let legs = spec_path_legs(n as int, closed);
    assert forall|k: int| 0 <= k < legs.len() implies (#[trigger] legs[k]).0 == k && legs[k].1
        == if k + 1 == n {
        0
    } else {
        k + 1
    } by {
        if k + 1 < n {
            vstd::arithmetic::div_mod::lemma_small_mod((k + 1) as nat, n as nat);
        } else {
            vstd::arithmetic::div_mod::lemma_mod_self_0(n as int);
        }
    }
}

/// Whether point `i` keeps the rules of a path whose legs all follow an
/// axis: a leg arrives at it unless it is the first point of an open path,
/// and one leaves it unless it is the last point of an open path. An
/// anchor's legs follow the one axis its port allows, if it allows one; an
/// anchor between two legs sees them follow one axis without turning back.
/// A corner has a leg on each side and turns with a rounding that fits.
pub open spec fn keeps_point_rules(
    legs: Seq<LegDirection>,
    points: Seq<PathPoint>,
    closed: bool,
    i: int,
) -> bool {
    let has_in = i > 0 || (closed && legs.len() > 0);
    let has_out = i < legs.len();
    let arriving = if i > 0 {
        legs[i - 1]
    } else {
        legs[legs.len() - 1]
    };
    match points[i] {
        PathPoint::Anchor { permitted_axis, reverses } => {
            &&& permitted_axis matches Some(a) ==> (has_in ==> arriving == LegDirection::Along(a))
                && (has_out ==> legs[i] == LegDirection::Along(a))
            &&& has_in && has_out ==> arriving == legs[i] && !reverses
        },
        PathPoint::Corner { shape } => has_in && has_out && shape == CornerShape::Turning,
    }
}

/// The fault reported for point `i` when it breaks a rule: a port axis
/// fault where an anchor's leg leaves the axis its port allows, else a bend;
/// a collinear corner where a corner lacks a leg on a side, else its shape.
pub open spec fn broken_rule_at(
    legs: Seq<LegDirection>,
    points: Seq<PathPoint>,
    closed: bool,
    i: int,
) -> PathFault {
    let has_in = i > 0 || (closed && legs.len() > 0);
    let has_out = i < legs.len();
    let arriving = if i > 0 {
        legs[i - 1]
    } else {
        legs[legs.len() - 1]
    };
    match points[i] {
        PathPoint::Anchor { permitted_axis, .. } => {
            if permitted_axis matches Some(a) && ((has_in && arriving != LegDirection::Along(a)) || (
            has_out && legs[i] != LegDirection::Along(a))) {
                PathFault::InvalidPortAxis { point: i as usize }
            } else {
                PathFault::BendAtStation { point: i as usize }
            }
        },
        PathPoint::Corner { shape } => {
            if !(has_in && has_out) || shape == CornerShape::Collinear {
                PathFault::CollinearCorner { point: i as usize }
            } else if shape == CornerShape::Reversing {
                PathFault::ReversingCorner { point: i as usize }
            } else {
                PathFault::CornerRadiusTooLarge { point: i as usize }
            }
        },
    }
}

proof fn lemma_point_rules(legs: Seq<LegDirection>, points: Seq<PathPoint>, closed: bool, i: int)
    requires
        closed || points.len() > 0,
        legs.len() == leg_total(points.len() as int, closed),
        0 <= i < points.len(),
        forall|k: int| 0 <= k < legs.len() ==> (#[trigger] legs[k]) is Along,
    ensures
        point_fault(legs, points[i], i, closed) == if keeps_point_rules(legs, points, closed, i) {
            None
        } else {
            Some(broken_rule_at(legs, points, closed, i))
        },
{
    if i > 0 {
        assert(legs[i - 1] is Along);
    }
    if closed && legs.len() > 0 {
        assert(legs[legs.len() - 1] is Along);
    }
    if i < legs.len() {
        assert(legs[i] is Along);
    }
}

proof fn lemma_first_leg_fault_at(legs: Seq<LegDirection>, j: int, k0: int)
    requires
        0 <= j <= k0 < legs.len(),
        forall|m: int| j <= m < k0 ==> (#[trigger] legs[m]) is Along,
        !(legs[k0] is Along),
    ensures
        first_leg_fault(legs, j) == Some(
            if legs[k0] == LegDirection::Coincident {
                PathFault::CoincidentPoints
            } else {
                PathFault::NonOctilinearLeg
            },
        ),
    decreases k0 - j,
{
    if j < k0 {
        lemma_first_leg_fault_at(legs, j + 1, k0);
    }
}

proof fn lemma_first_point_fault_at(
    legs: Seq<LegDirection>,
    points: Seq<PathPoint>,
    closed: bool,
    j: int,
    i0: int,
)
    requires
        closed || points.len() > 0,
        legs.len() == leg_total(points.len() as int, closed),
        0 <= j <= i0 < points.len(),
        forall|k: int| 0 <= k < legs.len() ==> (#[trigger] legs[k]) is Along,
        forall|m: int| j <= m < i0 ==> #[trigger] keeps_point_rules(legs, points, closed, m),
        !keeps_point_rules(legs, points, closed, i0),
    ensures
        first_point_fault(legs, points, closed, j) == Some(broken_rule_at(legs, points, closed, i0)),
    decreases i0 - j,
{
    lemma_point_rules(legs, points, closed, j);
    if j < i0 {
        assert(keeps_point_rules(legs, points, closed, j));
        lemma_first_point_fault_at(legs, points, closed, j + 1, i0);
    }
}

/// A path is accepted exactly when every leg follows an axis, every point
/// keeps the rules (in particular every corner, the first point of a closed
/// path included, turns with a rounding that fits), and no leg is too short
/// for the roundings at its ends.
pub proof fn lemma_path_accepted_exactly(
    legs: Seq<LegDirection>,
    points: Seq<PathPoint>,
    closed: bool,
    radii_overlap: Seq<bool>,
)
    requires
        closed || points.len() > 0,
        legs.len() == leg_total(points.len() as int, closed),
    ensures
        path_verdict(legs, points, closed, radii_overlap) is Ok <==> {
            &&& forall|k: int| 0 <= k < legs.len() ==> (#[trigger] legs[k]) is Along
            &&& forall|i: int|
                0 <= i < points.len() ==> #[trigger] keeps_point_rules(legs, points, closed, i)
            &&& forall|k: int| 0 <= k < radii_overlap.len() ==> !(#[trigger] radii_overlap[k])
        },
        path_verdict(legs, points, closed, radii_overlap) is Ok ==> forall|i: int|
            0 <= i < points.len() && (#[trigger] points[i]) is Corner ==> points[i]->shape
                == CornerShape::Turning,
{
    lemma_path_verdict_accepts(legs, points, closed, radii_overlap);
    if forall|k: int| 0 <= k < legs.len() ==> (#[trigger] legs[k]) is Along {
        assert forall|i: int|
            #![trigger keeps_point_rules(legs, points, closed, i)]
            #![trigger point_fault(legs, points[i], i, closed)]
            0 <= i < points.len() implies (point_fault(legs, points[i], i, closed) is None)
                == keeps_point_rules(legs, points, closed, i) by {
            lemma_point_rules(legs, points, closed, i);
        }
    }
    if path_verdict(legs, points, closed, radii_overlap) is Ok {
        assert forall|i: int| 0 <= i < points.len() && (#[trigger] points[i]) is Corner implies points[i]->shape
            == CornerShape::Turning by {
            lemma_point_rules(legs, points, closed, i);
            assert(point_fault(legs, points[i], i, closed) is None);
        }
    }
}

/// Which fault a path reports: the kind of its first leg that follows no
/// axis; else the rule broken at its first point that breaks one; else the
/// overlap of corner roundings.
pub proof fn lemma_path_fault_reported(
    legs: Seq<LegDirection>,
    points: Seq<PathPoint>,
    closed: bool,
    radii_overlap: Seq<bool>,
)
    requires
        closed || points.len() > 0,
        legs.len() == leg_total(points.len() as int, closed),
    ensures
        forall|k0: int|
            0 <= k0 < legs.len() && !(#[trigger] legs[k0] is Along) && (forall|m: int|
                0 <= m < k0 ==> (#[trigger] legs[m]) is Along) ==> path_verdict(
                legs,
                points,
                closed,
                radii_overlap,
            ) == Err::<(), PathFault>(
                if legs[k0] == LegDirection::Coincident {
                    PathFault::CoincidentPoints
                } else {
                    PathFault::NonOctilinearLeg
                },
            ),
        (forall|k: int| 0 <= k < legs.len() ==> (#[trigger] legs[k]) is Along) ==> forall|i0: int|
            0 <= i0 < points.len() && !#[trigger] keeps_point_rules(legs, points, closed, i0) && (
            forall|m: int|
                0 <= m < i0 ==> #[trigger] keeps_point_rules(legs, points, closed, m))
                ==> path_verdict(legs, points, closed, radii_overlap) == Err::<(), PathFault>(
                broken_rule_at(legs, points, closed, i0),
            ),
        (forall|k: int| 0 <= k < legs.len() ==> (#[trigger] legs[k]) is Along) && (forall|i: int|
            0 <= i < points.len() ==> #[trigger] keeps_point_rules(legs, points, closed, i)) && (
        exists|k: int| 0 <= k < radii_overlap.len() && #[trigger] radii_overlap[k])
            ==> path_verdict(legs, points, closed, radii_overlap) == Err::<(), PathFault>(
            PathFault::CornerRadiiOverlap,
        ),
{
    assert forall|k0: int|
        0 <= k0 < legs.len() && !(#[trigger] legs[k0] is Along) && (forall|m: int|
            0 <= m < k0 ==> (#[trigger] legs[m]) is Along) implies path_verdict(
        legs,
        points,
        closed,
        radii_overlap,
    ) == Err::<(), PathFault>(
        if legs[k0] == LegDirection::Coincident {
            PathFault::CoincidentPoints
        } else {
            PathFault::NonOctilinearLeg
        },
    ) by {
        lemma_first_leg_fault_at(legs, 0, k0);
    }
    if forall|k: int| 0 <= k < legs.len() ==> (#[trigger] legs[k]) is Along {
        lemma_first_leg_fault_none(legs, 0);
        assert forall|i0: int|
            0 <= i0 < points.len() && !#[trigger] keeps_point_rules(legs, points, closed, i0) && (
            forall|m: int|
                0 <= m < i0 ==> #[trigger] keeps_point_rules(
                    legs,
                    points,
                    closed,
                    m,
                )) implies path_verdict(legs, points, closed, radii_overlap) == Err::<
            (),
            PathFault,
        >(broken_rule_at(legs, points, closed, i0)) by {
            lemma_first_point_fault_at(legs, points, closed, 0, i0);
        }
        if (forall|i: int|
            0 <= i < points.len() ==> #[trigger] keeps_point_rules(legs, points, closed, i)) && (
        exists|k: int| 0 <= k < radii_overlap.len() && #[trigger] radii_overlap[k]) {
            lemma_path_accepted_exactly(legs, points, closed, radii_overlap);
            lemma_first_point_fault_none(legs, points, closed, 0);
            assert forall|i: int| 0 <= i < points.len() implies (#[trigger] point_fault(
                legs,
                points[i],
                i,
                closed,
            )) is None by {
                lemma_point_rules(legs, points, closed, i);
            }
            let k = choose|k: int| 0 <= k < radii_overlap.len() && #[trigger] radii_overlap[k];
            assert(radii_overlap.contains(true));
        }
    }
}

/// The axis of leg `k`, which follows one.
fn axis_of(legs: &Vec<LegDirection>, k: usize) -> (r: Option<OctilinearAxis>)
    requires
        k < legs@.len(),
    ensures
        r == Some(leg_axis(legs@[k as int])),
{
    match legs[k] {
        LegDirection::Along(axis) => Some(axis),
        _ => Some(OctilinearAxis::Horizontal),
    }
}

} // verus!
