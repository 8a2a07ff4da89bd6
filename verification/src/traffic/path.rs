//! The twelve lanes through the intersection: for each side of entry and each
//! way of going on, the polyline that a car follows from border to border.

use std::rc::Rc;
use vstd::prelude::*;
use crate::constant::{CAR_PADDING, ROAD_WIDTH, STRAIGHT_LENGTH, WINDOW_SIZE};
use crate::geometry::{div_floor, Point};
use crate::traffic::curve::{curve, lemma_curve_ends, lemma_curve_in_window, quadratic_curve, RESOLUTION};
use crate::traffic::direction::{Direction, Going};

verus! {

/// How far from the middle of the road the lane for `going_to` runs. The lane
/// for turning left is the innermost, the one for turning right the outermost.
pub open spec fn lane_offset(going_to: Going) -> int {
    match going_to {
        Going::Left => CAR_PADDING as int,
        Going::Straight => ROAD_WIDTH / 4,
        Going::Right => ROAD_WIDTH / 2 - CAR_PADDING,
    }
}

/// The point of the border `side` at the position `along` it.
pub open spec fn on_border(side: Direction, along: int) -> Point {
    match side {
        Direction::North => Point { x: along as i64, y: 0 },
        Direction::East => Point { x: WINDOW_SIZE, y: along as i64 },
        Direction::South => Point { x: along as i64, y: WINDOW_SIZE },
        Direction::West => Point { x: 0, y: along as i64 },
    }
}

/// Whether the cars that enter from `side` do so before the middle of the
/// road, counted along the border: they do on the northern and eastern
/// borders, and behind it on the other two.
pub open spec fn enters_before_middle(side: Direction) -> bool {
    side == Direction::North || side == Direction::East
}

/// Where on the border a car appears that comes from `coming_from` and goes
/// `going_to`.
pub open spec fn spec_border_point(coming_from: Direction, going_to: Going) -> Point {
    if enters_before_middle(coming_from) {
        on_border(coming_from, WINDOW_SIZE / 2 - lane_offset(going_to))
    } else {
        on_border(coming_from, WINDOW_SIZE / 2 + lane_offset(going_to))
    }
}

/// Where on the border `side` a car disappears that went `going_to`: across
/// the middle of the road from where one would enter.
pub open spec fn spec_border_end_point(side: Direction, going_to: Going) -> Point {
    if enters_before_middle(side) {
        on_border(side, WINDOW_SIZE / 2 + lane_offset(going_to))
    } else {
        on_border(side, WINDOW_SIZE / 2 - lane_offset(going_to))
    }
}

/// The point that lies `STRAIGHT_LENGTH` inwards of a point of the border
/// `side`.
pub open spec fn spec_straight_point(side: Direction, border_point: Point) -> Point {
    match side {
        Direction::North => Point {
            x: border_point.x,
            y: (border_point.y + STRAIGHT_LENGTH) as i64,
        },
        Direction::East => Point { x: (border_point.x - STRAIGHT_LENGTH) as i64, y: border_point.y },
        Direction::South => Point {
            x: border_point.x,
            y: (border_point.y - STRAIGHT_LENGTH) as i64,
        },
        Direction::West => Point { x: (border_point.x + STRAIGHT_LENGTH) as i64, y: border_point.y },
    }
}

/// The control point of the curve of a turn from `inward` to `outward`: the
/// middle of the window, moved at a right angle to the line between the two
/// points, by the whole length of that line for a right turn and by a tenth of
/// it for a left turn.
pub open spec fn spec_control_point(going_to: Going, inward: Point, outward: Point) -> Point {
    let radial_x = -(inward.y - outward.y);
    let radial_y = inward.x - outward.x;
    match going_to {
        Going::Left => Point {
            x: (WINDOW_SIZE / 2 - radial_x / 10) as i64,
            y: (WINDOW_SIZE / 2 - radial_y / 10) as i64,
        },
        _ => Point {
            x: (WINDOW_SIZE / 2 - radial_x) as i64,
            y: (WINDOW_SIZE / 2 - radial_y) as i64,
        },
    }
}

/// The polyline of the lane from `coming_from` that goes `going_to`: from the
/// border inwards, through the curve if it turns, and out to the border of the
/// side it leads to.
pub open spec fn waypoints(coming_from: Direction, going_to: Going) -> Seq<Point> {
    let exit_side = coming_from.spec_destination(going_to);
    let entry = spec_border_point(coming_from, going_to);
    let exit = spec_border_end_point(exit_side, going_to);
    let inward = spec_straight_point(coming_from, entry);
    let outward = spec_straight_point(exit_side, exit);
    match going_to {
        Going::Straight => seq![entry, inward, outward, exit],
        _ => seq![entry, inward] + curve(
            inward,
            spec_control_point(going_to, inward, outward),
            outward,
        ) + seq![outward, exit],
    }
}

/// Where on the border a car appears that comes from `coming_from` and goes
/// `going_to`.
#[verifier::when_used_as_spec(spec_border_point)]
pub fn border_point(coming_from: Direction, going_to: Going) -> (p: Point)
    ensures
        p == spec_border_point(coming_from, going_to),
        p.in_window(),
{
    match (coming_from, going_to) {
        (Direction::North, Going::Right) => Point {
            x: WINDOW_SIZE / 2 - ROAD_WIDTH / 2 + CAR_PADDING,
            y: 0,
        },
        (Direction::North, Going::Straight) => Point { x: WINDOW_SIZE / 2 - ROAD_WIDTH / 4, y: 0 },
        (Direction::North, Going::Left) => Point { x: WINDOW_SIZE / 2 - CAR_PADDING, y: 0 },
        (Direction::East, Going::Right) => Point {
            x: WINDOW_SIZE,
            y: WINDOW_SIZE / 2 - ROAD_WIDTH / 2 + CAR_PADDING,
        },
        (Direction::East, Going::Straight) => Point {
            x: WINDOW_SIZE,
            y: WINDOW_SIZE / 2 - ROAD_WIDTH / 4,
        },
        (Direction::East, Going::Left) => Point { x: WINDOW_SIZE, y: WINDOW_SIZE / 2 - CAR_PADDING },
        (Direction::South, Going::Left) => Point { x: WINDOW_SIZE / 2 + CAR_PADDING, y: WINDOW_SIZE },
        (Direction::South, Going::Straight) => Point {
            x: WINDOW_SIZE / 2 + ROAD_WIDTH / 4,
            y: WINDOW_SIZE,
        },
        (Direction::South, Going::Right) => Point {
            x: WINDOW_SIZE / 2 + ROAD_WIDTH / 2 - CAR_PADDING,
            y: WINDOW_SIZE,
        },
        (Direction::West, Going::Left) => Point { x: 0, y: WINDOW_SIZE / 2 + CAR_PADDING },
        (Direction::West, Going::Straight) => Point { x: 0, y: WINDOW_SIZE / 2 + ROAD_WIDTH / 4 },
        (Direction::West, Going::Right) => Point {
            x: 0,
            y: WINDOW_SIZE / 2 + ROAD_WIDTH / 2 - CAR_PADDING,
        },
    }
}

/// Where on the border `side` a car disappears that went `going_to`.
#[verifier::when_used_as_spec(spec_border_end_point)]
pub fn border_end_point(side: Direction, going_to: Going) -> (p: Point)
    ensures
        p == spec_border_end_point(side, going_to),
        p.in_window(),
{
    match (side, going_to) {
        (Direction::North, Going::Right) => Point {
            x: WINDOW_SIZE / 2 + ROAD_WIDTH / 2 - CAR_PADDING,
            y: 0,
        },
        (Direction::North, Going::Straight) => Point { x: WINDOW_SIZE / 2 + ROAD_WIDTH / 4, y: 0 },
        (Direction::North, Going::Left) => Point { x: WINDOW_SIZE / 2 + CAR_PADDING, y: 0 },
        (Direction::East, Going::Right) => Point {
            x: WINDOW_SIZE,
            y: WINDOW_SIZE / 2 + ROAD_WIDTH / 2 - CAR_PADDING,
        },
        (Direction::East, Going::Straight) => Point {
            x: WINDOW_SIZE,
            y: WINDOW_SIZE / 2 + ROAD_WIDTH / 4,
        },
        (Direction::East, Going::Left) => Point { x: WINDOW_SIZE, y: WINDOW_SIZE / 2 + CAR_PADDING },
        (Direction::South, Going::Left) => Point { x: WINDOW_SIZE / 2 - CAR_PADDING, y: WINDOW_SIZE },
        (Direction::South, Going::Straight) => Point {
            x: WINDOW_SIZE / 2 - ROAD_WIDTH / 4,
            y: WINDOW_SIZE,
        },
        (Direction::South, Going::Right) => Point {
            x: WINDOW_SIZE / 2 - ROAD_WIDTH / 2 + CAR_PADDING,
            y: WINDOW_SIZE,
        },
        (Direction::West, Going::Left) => Point { x: 0, y: WINDOW_SIZE / 2 - CAR_PADDING },
        (Direction::West, Going::Straight) => Point { x: 0, y: WINDOW_SIZE / 2 - ROAD_WIDTH / 4 },
        (Direction::West, Going::Right) => Point {
            x: 0,
            y: WINDOW_SIZE / 2 - ROAD_WIDTH / 2 + CAR_PADDING,
        },
    }
}

/// The point that lies `STRAIGHT_LENGTH` inwards of a point of the border
/// `side`.
#[verifier::when_used_as_spec(spec_straight_point)]
pub fn straight_point(side: Direction, border_point: Point) -> (p: Point)
    requires
        border_point.bounded(),
    ensures
        p == spec_straight_point(side, border_point),
{
    match side {
        Direction::North => Point { x: border_point.x, y: border_point.y + STRAIGHT_LENGTH },
        Direction::East => Point { x: border_point.x - STRAIGHT_LENGTH, y: border_point.y },
        Direction::South => Point { x: border_point.x, y: border_point.y - STRAIGHT_LENGTH },
        Direction::West => Point { x: border_point.x + STRAIGHT_LENGTH, y: border_point.y },
    }
}

/// The control point of the curve of a turn from `inward` to `outward`.
#[verifier::when_used_as_spec(spec_control_point)]
pub fn control_point(going_to: Going, inward: Point, outward: Point) -> (p: Point)
    requires
        inward.bounded(),
        outward.bounded(),
    ensures
        p == spec_control_point(going_to, inward, outward),
{
    let radial_x: i64 = -(inward.y - outward.y);
    let radial_y: i64 = inward.x - outward.x;
    match going_to {
        Going::Left => Point {
            x: WINDOW_SIZE / 2 - div_floor(radial_x, 10),
            y: WINDOW_SIZE / 2 - div_floor(radial_y, 10),
        },
        _ => Point { x: WINDOW_SIZE / 2 - radial_x, y: WINDOW_SIZE / 2 - radial_y },
    }
}

/// Another handle on the same path. This is `Rc::clone`, which hands out a new
/// pointer to the value that `path` points to and leaves the value alone.
#[verifier::external_body]
pub(crate) fn share(path: &Rc<Path>) -> (shared: Rc<Path>)
    ensures
        shared == *path,
{
    Rc::clone(path)
}

/// One of the twelve lanes. Its waypoints are fixed when it is made.
#[derive(Clone, Debug, PartialEq)]
pub struct Path {
    pub coming_from: Direction,
    pub going_to: Going,
    pub points: Vec<Point>,
}

impl Path {
    /// The waypoints, from the border of entry to the border of exit.
    pub open spec fn view(&self) -> Seq<Point> {
        self.points@
    }

    /// The waypoints are those of the lane that the path says it is.
    pub open spec fn wf(&self) -> bool {
        self@ == waypoints(self.coming_from, self.going_to)
    }

    /// Builds the lane from `coming_from` that goes `going_to`.
    pub fn new(coming_from: Direction, going_to: Going) -> (path: Path)
        ensures
            path.coming_from == coming_from,
            path.going_to == going_to,
            path@ == waypoints(coming_from, going_to),
            path.wf(),
    {
        let destination = coming_from.destination(going_to);
        let start_point = border_point(coming_from, going_to);
        let end_point = border_end_point(destination, going_to);
        let curve_start_point = straight_point(coming_from, start_point);
        let curve_end_point = straight_point(destination, end_point);
        let mut points: Vec<Point> = Vec::new();
        points.push(start_point);
        points.push(curve_start_point);
        match going_to {
            Going::Straight => {},
            Going::Left | Going::Right => {
                proof {
                    lemma_straight_points_in_window(coming_from, going_to);
                }
                let control = control_point(going_to, curve_start_point, curve_end_point);
                let mut samples = quadratic_curve(curve_start_point, control, curve_end_point);
                points.append(&mut samples);
            },
        }
        points.push(curve_end_point);
        points.push(end_point);
        assert(points@ =~= waypoints(coming_from, going_to));
        Path { coming_from, going_to, points }
    }

    /// The waypoints.
    pub fn points(&self) -> (points: &Vec<Point>)
        ensures
            points@ == self@,
    {
        &self.points
    }

    /// The waypoint at `index`, if the path has that many.
    pub fn point(&self, index: usize) -> (p: Option<Point>)
        ensures
            p == if index < self@.len() {
                Some(self@[index as int])
            } else {
                None::<Point>
            },
    {
        if index < self.points.len() {
            Some(self.points[index])
        } else {
            None
        }
    }
}

/// The four points that every lane runs through lie in the window, and so does
/// the control point of a turn.
pub proof fn lemma_straight_points_in_window(coming_from: Direction, going_to: Going)
    ensures
        ({
            let exit_side = coming_from.spec_destination(going_to);
            let entry = spec_border_point(coming_from, going_to);
            let exit = spec_border_end_point(exit_side, going_to);
            let inward = spec_straight_point(coming_from, entry);
            let outward = spec_straight_point(exit_side, exit);
            &&& entry.in_window()
            &&& exit.in_window()
            &&& inward.in_window()
            &&& outward.in_window()
            &&& going_to != Going::Straight ==> spec_control_point(
                going_to,
                inward,
                outward,
            ).in_window()
        }),
{
}

/// A straight lane has four waypoints; a turn has two at each end and the
/// samples of its curve between them.
pub proof fn lemma_waypoints_len(coming_from: Direction, going_to: Going)
    ensures
        waypoints(coming_from, going_to).len() == if going_to == Going::Straight {
            4
        } else {
            RESOLUTION + 5
        },
{
}

/// Every lane starts where its cars appear on the border they come from, and
/// ends where they disappear on the border of the side they are bound for.
pub proof fn lemma_path_ends(coming_from: Direction, going_to: Going)
    ensures
        waypoints(coming_from, going_to).first() == spec_border_point(coming_from, going_to),
        waypoints(coming_from, going_to).last() == spec_border_end_point(
            coming_from.spec_destination(going_to),
            going_to,
        ),
{
    lemma_waypoints_len(coming_from, going_to);
}

/// Every waypoint of every lane lies in the window.
pub proof fn lemma_waypoints_in_window(coming_from: Direction, going_to: Going, i: int)
    requires
        0 <= i < waypoints(coming_from, going_to).len(),
    ensures
        waypoints(coming_from, going_to)[i].in_window(),
{
    lemma_straight_points_in_window(coming_from, going_to);
    lemma_waypoints_len(coming_from, going_to);
    if going_to != Going::Straight && 2 <= i < RESOLUTION + 3 {
        let exit_side = coming_from.spec_destination(going_to);
        let entry = spec_border_point(coming_from, going_to);
        let exit = spec_border_end_point(exit_side, going_to);
        let inward = spec_straight_point(coming_from, entry);
        let outward = spec_straight_point(exit_side, exit);
        lemma_curve_in_window(
            inward,
            spec_control_point(going_to, inward, outward),
            outward,
            i - 2,
        );
    }
}

/// A turn enters its curve where the straight run in ends, and leaves it where
/// the straight run out begins.
pub proof fn lemma_curve_joins(coming_from: Direction, going_to: Going)
    requires
        going_to != Going::Straight,
    ensures
        waypoints(coming_from, going_to)[2] == waypoints(coming_from, going_to)[1],
        waypoints(coming_from, going_to)[RESOLUTION + 2] == waypoints(coming_from, going_to)[
            RESOLUTION + 3
        ],
{
    let exit_side = coming_from.spec_destination(going_to);
    let entry = spec_border_point(coming_from, going_to);
    let exit = spec_border_end_point(exit_side, going_to);
    let inward = spec_straight_point(coming_from, entry);
    let outward = spec_straight_point(exit_side, exit);
    lemma_curve_ends(inward, spec_control_point(going_to, inward, outward), outward);
}

} // verus!
