//! Right of way: which lanes cross which inside the intersection, and which
//! of the lanes that cross a given one have a car in the intersection now.

use std::rc::Rc;
use vstd::prelude::*;
use crate::traffic::car::{Car, CarStatus};
use crate::traffic::direction::{Direction, Going};
use crate::traffic::line::slot;
use crate::traffic::path::{share, Path};
use crate::traffic::state::TrafficState;

verus! {

/// How many sides further clockwise than `from` the side `to` lies.
pub open spec fn sides_apart(from: Direction, to: Direction) -> int {
    (to.ordinal() - from.ordinal() + 4) % 4
}

/// Whether the lane `a`, from `from_a` going `going_a`, and the lane `b` cross
/// inside the intersection.
///
/// A right turn crosses nothing. Two lanes that go straight cross when they
/// come from neighbouring sides. A lane that goes straight crosses the left
/// turn from the opposite side and the one from the side before its own,
/// clockwise. Two left turns cross when they come from neighbouring sides.
pub open spec fn crosses(from_a: Direction, going_a: Going, from_b: Direction, going_b: Going) -> bool {
    let apart = sides_apart(from_a, from_b);
    match (going_a, going_b) {
        (Going::Straight, Going::Straight) => apart == 1 || apart == 3,
        (Going::Straight, Going::Left) => apart == 2 || apart == 3,
        (Going::Left, Going::Straight) => apart == 1 || apart == 2,
        (Going::Left, Going::Left) => apart == 1 || apart == 3,
        _ => false,
    }
}

/// Whether a car of the queue is inside the intersection.
pub open spec fn has_turning_car(queue: Seq<Car>) -> bool {
    exists|i: int|
        0 <= i < queue.len() && (#[trigger] queue[i]).spec_get_status() == CarStatus::Turning
}

/// Whether a car is inside the intersection on a lane that crosses the lane
/// from `coming_from` going `going_to`.
pub open spec fn blocked(coming_from: Direction, going_to: Going, state: TrafficState) -> bool {
    exists|d: Direction, g: Going|
        crosses(coming_from, going_to, d, g) && has_turning_car(#[trigger] state.queue(d, g))
}

/// The lanes that cross the lane from `coming_from` going `going_to`: four for
/// a lane that goes straight or turns left, none for a right turn.
pub open spec fn crossing_lanes(coming_from: Direction, going_to: Going) -> Seq<(Direction, Going)> {
    match going_to {
        Going::Straight => seq![
            (coming_from.turned(1), Going::Straight),
            (coming_from.turned(3), Going::Straight),
            (coming_from.turned(2), Going::Left),
            (coming_from.turned(3), Going::Left),
        ],
        Going::Left => seq![
            (coming_from.turned(1), Going::Straight),
            (coming_from.turned(2), Going::Straight),
            (coming_from.turned(1), Going::Left),
            (coming_from.turned(3), Going::Left),
        ],
        Going::Right => Seq::empty(),
    }
}

/// A lane crosses exactly the lanes listed for it, and none is listed twice.
pub proof fn lemma_crossing_lanes(coming_from: Direction, going_to: Going, d: Direction, g: Going)
    ensures
        crosses(coming_from, going_to, d, g) <==> crossing_lanes(coming_from, going_to).contains(
            (d, g),
        ),
        crossing_lanes(coming_from, going_to).len() == if going_to == Going::Right {
            0nat
        } else {
            4nat
        },
        crossing_lanes(coming_from, going_to).no_duplicates(),
{
    let lanes = crossing_lanes(coming_from, going_to);
    if going_to != Going::Right {
        assert(lanes.len() == 4);
        if crosses(coming_from, going_to, d, g) {
            assert(lanes[0] == (d, g) || lanes[1] == (d, g) || lanes[2] == (d, g) || lanes[3] == (
                d,
                g,
            ));
        }
        if lanes.contains((d, g)) {
            let k = choose|k: int| 0 <= k < lanes.len() && lanes[k] == (d, g);
            assert(k == 0 || k == 1 || k == 2 || k == 3);
        }
    }
}

/// Crossing is mutual.
pub proof fn lemma_crosses_symmetric(
    from_a: Direction,
    going_a: Going,
    from_b: Direction,
    going_b: Going,
)
    ensures
        crosses(from_a, going_a, from_b, going_b) == crosses(from_b, going_b, from_a, going_a),
{
}

/// A right turn crosses no lane, no lane crosses a right turn, and no lane
/// crosses a lane from its own side.
pub proof fn lemma_right_turn_is_free(from_a: Direction, going_a: Going, from_b: Direction, going_b: Going)
    ensures
        going_a == Going::Right || going_b == Going::Right || from_a == from_b ==> !crosses(
            from_a,
            going_a,
            from_b,
            going_b,
        ),
{
}

/// A car that turns right is never blocked.
pub proof fn lemma_right_turn_never_blocked(coming_from: Direction, state: TrafficState)
    ensures
        !blocked(coming_from, Going::Right, state),
{
}

fn is_lane(path: &Path, coming_from: Direction, going_to: Going) -> (r: bool)
    ensures
        r == (path.coming_from == coming_from && path.going_to == going_to),
{
    path.coming_from == coming_from && path.going_to == going_to
}

/// Whether a car of `cars` is inside the intersection.
pub fn any_turning(cars: &Vec<Car>) -> (found: bool)
    requires
        forall|i: int| 0 <= i < cars@.len() ==> (#[trigger] cars@[i]).path@.len() > 0,
    ensures
        found == has_turning_car(cars@),
{
    let mut i: usize = 0;
    while i < cars.len()
        invariant
            i <= cars@.len(),
            forall|k: int| 0 <= k < cars@.len() ==> (#[trigger] cars@[k]).path@.len() > 0,
            forall|k: int| 0 <= k < i ==> (#[trigger] cars@[k]).spec_get_status() != CarStatus::Turning,
        decreases cars@.len() - i,
    {
        if cars[i].get_status() == CarStatus::Turning {
            return true;
        }
        i += 1;
    }
    false
}

impl Path {
    /// Whether this lane and `other` cross inside the intersection.
    pub open spec fn spec_intersects(&self, other: &Path) -> bool {
        crosses(self.coming_from, self.going_to, other.coming_from, other.going_to)
    }

    /// The lanes of `state` that cross this one, in the order of the lines
    /// and, within a line, of its paths.
    pub open spec fn intersecting_paths(&self, state: TrafficState) -> Seq<Rc<Path>> {
        state.all_paths().filter(|p: Rc<Path>| self.spec_intersects(&*p))
    }

    /// The lanes of `state` that cross this one and have a car inside the
    /// intersection, in the same order.
    pub open spec fn potential_collision_paths(&self, state: TrafficState) -> Seq<Rc<Path>> {
        self.intersecting_paths(state).filter(
            |p: Rc<Path>| has_turning_car(state.queue(p.coming_from, p.going_to)),
        )
    }

    /// Whether this lane and `other` cross inside the intersection, by the
    /// table of the lanes that cross each lane.
    #[verifier::when_used_as_spec(spec_intersects)]
    pub fn intersects(&self, other: &Path) -> (crossing: bool)
        ensures
            crossing == self.spec_intersects(other),
    {
        match (self.coming_from, self.going_to) {
            (_, Going::Right) => false,
            (Direction::South, Going::Left) => {
                is_lane(other, Direction::West, Going::Straight) || is_lane(
                    other,
                    Direction::East,
                    Going::Left,
                ) || is_lane(other, Direction::West, Going::Left) || is_lane(
                    other,
                    Direction::North,
                    Going::Straight,
                )
            },
            (Direction::South, Going::Straight) => {
                is_lane(other, Direction::West, Going::Straight) || is_lane(
                    other,
                    Direction::North,
                    Going::Left,
                ) || is_lane(other, Direction::East, Going::Left) || is_lane(
                    other,
                    Direction::East,
                    Going::Straight,
                )
            },
            (Direction::North, Going::Left) => {
                is_lane(other, Direction::East, Going::Straight) || is_lane(
                    other,
                    Direction::West,
                    Going::Left,
                ) || is_lane(other, Direction::East, Going::Left) || is_lane(
                    other,
                    Direction::South,
                    Going::Straight,
                )
            },
            (Direction::North, Going::Straight) => {
                is_lane(other, Direction::East, Going::Straight) || is_lane(
                    other,
                    Direction::South,
                    Going::Left,
                ) || is_lane(other, Direction::West, Going::Left) || is_lane(
                    other,
                    Direction::West,
                    Going::Straight,
                )
            },
            (Direction::East, Going::Left) => {
                is_lane(other, Direction::South, Going::Straight) || is_lane(
                    other,
                    Direction::North,
                    Going::Left,
                ) || is_lane(other, Direction::South, Going::Left) || is_lane(
                    other,
                    Direction::West,
                    Going::Straight,
                )
            },
            (Direction::East, Going::Straight) => {
                is_lane(other, Direction::South, Going::Straight) || is_lane(
                    other,
                    Direction::West,
                    Going::Left,
                ) || is_lane(other, Direction::North, Going::Left) || is_lane(
                    other,
                    Direction::North,
                    Going::Straight,
                )
            },
            (Direction::West, Going::Left) => {
                is_lane(other, Direction::North, Going::Straight) || is_lane(
                    other,
                    Direction::South,
                    Going::Left,
                ) || is_lane(other, Direction::North, Going::Left) || is_lane(
                    other,
                    Direction::East,
                    Going::Straight,
                )
            },
            (Direction::West, Going::Straight) => {
                is_lane(other, Direction::North, Going::Straight) || is_lane(
                    other,
                    Direction::East,
                    Going::Left,
                ) || is_lane(other, Direction::South, Going::Left) || is_lane(
                    other,
                    Direction::South,
                    Going::Straight,
                )
            },
        }
    }

    /// The lanes of `traffic_state` that cross this one.
    pub fn get_intersecting_paths(&self, traffic_state: &TrafficState) -> (paths: Vec<Rc<Path>>)
        ensures
            paths@ == self.intersecting_paths(*traffic_state),
    {
        let ghost all = traffic_state.all_paths();
        let ghost crossing = |p: Rc<Path>| self.spec_intersects(&*p);
        let mut paths: Vec<Rc<Path>> = Vec::new();
        let mut line: usize = 0;
        assert(all.take(0).filter(crossing) =~= Seq::<Rc<Path>>::empty());
        while line < 4
            invariant
                line <= 4,
                all == traffic_state.all_paths(),
                crossing == |p: Rc<Path>| self.spec_intersects(&*p),
                paths@ == all.take(3 * line).filter(crossing),
            decreases 4 - line,
        {
            let mut k: usize = 0;
            while k < 3
                invariant
                    line < 4,
                    k <= 3,
                    all == traffic_state.all_paths(),
                    crossing == |p: Rc<Path>| self.spec_intersects(&*p),
                    paths@ == all.take(3 * line + k).filter(crossing),
                decreases 3 - k,
            {
                let path = &traffic_state.lines[line].paths[k];
                proof {
                    let n = 3 * line + k;
                    assert(all[n] == *path);
                    all.lemma_take_succ_push(n);
                    all.take(n).lemma_filter_push(*path, crossing);
                }
                if self.intersects(path) {
                    paths.push(share(path));
                }
                k += 1;
            }
            line += 1;
        }
        proof {
            all.lemma_take_len();
        }
        paths
    }

    /// The lanes of `traffic_state` that cross this one and have a car inside
    /// the intersection: the ones that a car about to enter gives way to.
    pub fn get_potential_collision_paths(&self, traffic_state: &TrafficState) -> (paths: Vec<
        Rc<Path>,
    >)
        requires
            traffic_state.wf(),
        ensures
            paths@ == self.potential_collision_paths(*traffic_state),
    {
        let crossing = self.get_intersecting_paths(traffic_state);
        let ghost busy = |p: Rc<Path>|
            has_turning_car(traffic_state.queue(p.coming_from, p.going_to));
        let mut paths: Vec<Rc<Path>> = Vec::new();
        let mut i: usize = 0;
        assert(crossing@.take(0).filter(busy) =~= Seq::<Rc<Path>>::empty());
        while i < crossing.len()
            invariant
                i <= crossing@.len(),
                traffic_state.wf(),
                busy == |p: Rc<Path>|
                    has_turning_car(traffic_state.queue(p.coming_from, p.going_to)),
                paths@ == crossing@.take(i as int).filter(busy),
            decreases crossing@.len() - i,
        {
            let path = &crossing[i];
            let cars = traffic_state.lines[path.coming_from.index()].path_cars(path);
            proof {
                crossing@.lemma_take_succ_push(i as int);
                crossing@.take(i as int).lemma_filter_push(*path, busy);
                traffic_state.lemma_queue_wf(path.coming_from, path.going_to);
            }
            if any_turning(cars) {
                paths.push(share(path));
            }
            i += 1;
        }
        proof {
            crossing@.lemma_take_len();
        }
        paths
    }
}

/// Where the lane from `d` going `g` stands among all the paths of a state.
pub open spec fn place(d: Direction, g: Going) -> int {
    3 * d.ordinal() + slot(g)
}

/// A lane gives way, that is some lane that crosses it has a car inside the
/// intersection, exactly if `blocked` says so.
pub proof fn lemma_collisions_mean_blocked(path: Rc<Path>, state: TrafficState)
    requires
        state.wf(),
    ensures
        path.potential_collision_paths(state).len() > 0 <==> blocked(
            path.coming_from,
            path.going_to,
            state,
        ),
{
    let all = state.all_paths();
    let crossing = |p: Rc<Path>| path.spec_intersects(&*p);
    let busy = |p: Rc<Path>| has_turning_car(state.queue(p.coming_from, p.going_to));
    let some = all.filter(crossing);
    let live = some.filter(busy);
    if live.len() > 0 {
        let p = live[0];
        some.lemma_filter_pred(busy, 0);
        assert(live.contains(p));
        some.lemma_filter_contains_rev(busy, p);
        let k = choose|k: int| 0 <= k < some.len() && some[k] == p;
        all.lemma_filter_pred(crossing, k);
        assert(has_turning_car(state.queue(p.coming_from, p.going_to)));
    }
    if blocked(path.coming_from, path.going_to, state) {
        let (d, g) = choose|d: Direction, g: Going|
            crosses(path.coming_from, path.going_to, d, g) && has_turning_car(
                #[trigger] state.queue(d, g),
            );
        state.lemma_path_wf(d, g);
        let p = state.path(d, g);
        assert(all[place(d, g)] == p);
        all.lemma_filter_contains(crossing, place(d, g));
        let k = choose|k: int| 0 <= k < some.len() && some[k] == p;
        some.lemma_filter_contains(busy, k);
    }
}

} // verus!
