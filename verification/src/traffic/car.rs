//! A car: where it is on its lane, how fast it goes, and the rule by which it
//! picks its speed from the car ahead and from the traffic that crosses.

use std::rc::Rc;
use vstd::prelude::*;
use crate::constant::{
    CAR_ACCELERATION, CAR_DECELERATION, CAR_LENGTH, CAR_SAFE_DISTANCE, MAX_SPEED, MIN_SPEED,
    ROLLING_SPEED, STRAIGHT_LENGTH, WINDOW_SIZE,
};
use crate::geometry::{
    dist2, distance_squared, lemma_step_keeps_away, lemma_step_length, lemma_step_of_nothing,
    lemma_stepped_between, step_toward, stepped, Point,
};
use crate::traffic::direction::{Direction, Going};
use crate::traffic::path::{lemma_waypoints_in_window, lemma_waypoints_len, share, Path};
use crate::traffic::path_collisions::{
    blocked, lemma_collisions_mean_blocked, lemma_right_turn_never_blocked,
};
use crate::traffic::state::TrafficState;

verus! {

/// How far along its lane a car is. It follows from the car's progress and is
/// stored nowhere.
#[derive(Clone, Copy, Debug, PartialEq, Eq, Structural)]
pub enum CarStatus {
    /// On the way in, before the first waypoint after the border.
    BeforeTurn,
    /// In the intersection.
    Turning,
    /// Heading for the last waypoint, or at it.
    AfterTurn,
}

#[derive(Clone, Debug)]
pub struct Car {
    /// The number that the car was given when it appeared; later cars have
    /// greater numbers.
    pub id: usize,
    /// The lane that the car follows.
    pub path: Rc<Path>,
    /// Length that the car covered, or was allowed to cover, in the last tick.
    pub velocity: i64,
    pub pos: Point,
    /// The direction in which the car last moved, as a vector of any length.
    pub heading: Point,
    /// Index of the last waypoint that the car has left behind.
    pub point_index: usize,
    /// When the car appeared, in milliseconds, moved on by the time that the
    /// simulation has been paused since.
    pub start_time: u64,
}

/// The speed that the control law scales: the car's own, but at least
/// `ROLLING_SPEED`, so that a car that was stopped pulls away again.
pub open spec fn current_velocity(velocity: int) -> int {
    if velocity < ROLLING_SPEED {
        ROLLING_SPEED as int
    } else {
        velocity
    }
}

/// `v` raised by `CAR_ACCELERATION` per cent, rounded down, but not above
/// `cap`.
pub open spec fn accelerated(v: int, cap: int) -> int {
    let raised = v * (100 + CAR_ACCELERATION) / 100;
    if raised < cap {
        raised
    } else {
        cap
    }
}

/// `v` lowered by `CAR_DECELERATION` per cent, rounded down, but not above
/// `MIN_SPEED`.
pub open spec fn decelerated(v: int) -> int {
    let lowered = v * (100 - CAR_DECELERATION) / 100;
    if lowered < MIN_SPEED {
        lowered
    } else {
        MIN_SPEED as int
    }
}

/// The room between two cars at `a` and `b`, that is their distance less the
/// length of a car, is under `room`. Distances are compared by their squares,
/// which loses nothing.
pub open spec fn room_under(a: Point, b: Point, room: int) -> bool {
    dist2(a, b) < (room + CAR_LENGTH) * (room + CAR_LENGTH)
}

/// The position of the car ahead, if there is one.
pub open spec fn position_of(car: Option<&Car>) -> Option<Point> {
    match car {
        Some(c) => Some(c.pos),
        None => None,
    }
}

impl Car {
    /// The car is on a lane of the intersection, at or before its last
    /// waypoint, in the window and within the speed limit.
    pub open spec fn wf(&self) -> bool {
        &&& self.path.wf()
        &&& self.point_index < self.path@.len()
        &&& 0 <= self.velocity <= MAX_SPEED
        &&& self.pos.in_window()
    }

    /// A car that has just appeared on `path`.
    pub open spec fn spawned(path: Rc<Path>, id: usize, now: u64) -> Car {
        Car {
            id,
            path,
            velocity: MAX_SPEED,
            pos: path@[0],
            heading: Point { x: 1, y: 0 },
            point_index: 0,
            start_time: now,
        }
    }

    /// How far the car is from the border that it came in by.
    pub open spec fn spec_border_distance(&self) -> int {
        match self.path.coming_from {
            Direction::North => self.pos.y as int,
            Direction::East => WINDOW_SIZE - self.pos.x,
            Direction::South => WINDOW_SIZE - self.pos.y,
            Direction::West => self.pos.x as int,
        }
    }

    /// Where along its lane the car is: before the first waypoint after the
    /// border, between that and the last, or heading for the last.
    pub open spec fn spec_get_status(&self) -> CarStatus {
        if self.point_index == 0 {
            CarStatus::BeforeTurn
        } else if self.point_index < self.path@.len() - 1 {
            CarStatus::Turning
        } else {
            CarStatus::AfterTurn
        }
    }

    /// The car has no waypoint left to head for.
    pub open spec fn spec_is_done(&self) -> bool {
        self.point_index + 1 >= self.path.points.len()
    }

    /// The waypoint that the car heads for. Meaningful while the car is not
    /// done.
    pub open spec fn next_point(&self) -> Point {
        self.path@[self.point_index + 1]
    }

    /// The speed that the car picks for this tick, given the position of the
    /// car ahead of it in its queue, if any, and whether a car is inside the
    /// intersection on a lane that crosses its own.
    ///
    /// A car ahead with less than twice the safe distance of room stops the
    /// car, one with less than three times slows it down. Otherwise a car that
    /// has passed its first waypoint speeds up to `MAX_SPEED`. One that has not
    /// gives way to crossing traffic: it stops within half the safe distance of
    /// the end of its run in, slows down within the whole, and else speeds up
    /// to no more than `MIN_SPEED`.
    pub open spec fn target_velocity(&self, ahead: Option<Point>, blocked: bool) -> int {
        let v = current_velocity(self.velocity as int);
        let to_turn = STRAIGHT_LENGTH - self.spec_border_distance();
        if ahead is Some && room_under(ahead->0, self.pos, 2 * CAR_SAFE_DISTANCE) {
            0
        } else if ahead is Some && room_under(ahead->0, self.pos, 3 * CAR_SAFE_DISTANCE) {
            decelerated(v)
        } else if self.spec_get_status() != CarStatus::BeforeTurn {
            accelerated(v, MAX_SPEED as int)
        } else if blocked && to_turn < CAR_SAFE_DISTANCE / 2 {
            0
        } else if blocked && to_turn < CAR_SAFE_DISTANCE {
            decelerated(v)
        } else {
            accelerated(v, MIN_SPEED as int)
        }
    }

    /// The car with its time of appearance moved on by `by`; a time that would
    /// pass the end of the clock stays there.
    pub open spec fn delayed(&self, by: u64) -> Car {
        Car {
            id: self.id,
            path: self.path,
            velocity: self.velocity,
            pos: self.pos,
            heading: self.heading,
            point_index: self.point_index,
            start_time: self.start_time.saturating_add(by),
        }
    }

    /// The car after it has moved at `speed` towards its next waypoint. It
    /// keeps its heading if it is at that waypoint already.
    pub open spec fn moved(&self, speed: int) -> Car {
        let next = self.next_point();
        Car {
            id: self.id,
            path: self.path,
            velocity: speed as i64,
            pos: stepped(self.pos, next, speed),
            heading: if next == self.pos {
                self.heading
            } else {
                Point { x: (next.x - self.pos.x) as i64, y: (next.y - self.pos.y) as i64 }
            },
            point_index: self.point_index,
            start_time: self.start_time,
        }
    }

    /// The car with the waypoint it was heading for behind it.
    pub open spec fn advanced(&self) -> Car {
        Car {
            id: self.id,
            path: self.path,
            velocity: self.velocity,
            pos: self.pos,
            heading: self.heading,
            point_index: (self.point_index + 1) as usize,
            start_time: self.start_time,
        }
    }

    /// The car after one tick. A car that is done stays as it is. Any other
    /// picks its speed; while the next waypoint is nearer than that, the car
    /// leaves the waypoint behind and starts over with the one after it; then
    /// it moves at the speed picked last, which becomes its velocity.
    pub open spec fn updated(&self, ahead: Option<Point>, blocked: bool) -> Car
        decreases self.path.points.len() - self.point_index,
    {
        if self.spec_is_done() {
            *self
        } else {
            let target = self.target_velocity(ahead, blocked);
            if dist2(self.pos, self.next_point()) < target * target {
                self.advanced().updated(ahead, blocked)
            } else {
                self.moved(target)
            }
        }
    }

    /// Puts a car on the border, at the first waypoint of `path`, at full
    /// speed.
    pub fn new(path: Rc<Path>, id: usize, now: u64) -> (car: Car)
        requires
            path@.len() > 0,
        ensures
            car == Car::spawned(path, id, now),
            path.wf() ==> car.wf(),
    {
        proof {
            if path.wf() {
                lemma_waypoints_len(path.coming_from, path.going_to);
                lemma_waypoints_in_window(path.coming_from, path.going_to, 0);
            }
        }
        let first_point = path.points()[0];
        Car {
            id,
            path,
            point_index: 0,
            start_time: now,
            pos: first_point,
            heading: Point { x: 1, y: 0 },
            velocity: MAX_SPEED,
        }
    }

    /// A second car equal to this one in every field, on the same path.
    pub fn duplicate(&self) -> (car: Car)
        ensures
            car == *self,
    {
        Car {
            id: self.id,
            path: share(&self.path),
            velocity: self.velocity,
            pos: self.pos,
            heading: self.heading,
            point_index: self.point_index,
            start_time: self.start_time,
        }
    }

    /// How far the car is from the border that it came in by.
    pub fn border_distance(&self) -> (distance: i64)
        requires
            self.pos.bounded(),
        ensures
            distance == self.spec_border_distance(),
    {
        match self.path.coming_from {
            Direction::North => self.pos.y,
            Direction::East => WINDOW_SIZE - self.pos.x,
            Direction::South => WINDOW_SIZE - self.pos.y,
            Direction::West => self.pos.x,
        }
    }

    /// The vector from the car to the waypoint it heads for, if it has one
    /// left.
    pub fn get_move_vector(&self) -> (vector: Option<Point>)
        requires
            self.wf(),
        ensures
            vector is None <==> self.spec_is_done(),
            vector matches Some(v) ==> v.x == self.next_point().x - self.pos.x && v.y
                == self.next_point().y - self.pos.y,
    {
        match self.path.point(self.point_index + 1) {
            Some(next_point) => {
                proof {
                    lemma_waypoints_in_window(
                        self.path.coming_from,
                        self.path.going_to,
                        self.point_index + 1,
                    );
                }
                Some(Point { x: next_point.x - self.pos.x, y: next_point.y - self.pos.y })
            },
            None => None,
        }
    }

    /// Where along its lane the car is: before the first waypoint after the
    /// border, between that and the last, or heading for the last.
    #[verifier::when_used_as_spec(spec_get_status)]
    pub fn get_status(&self) -> (status: CarStatus)
        requires
            self.path@.len() > 0,
        ensures
            status == self.spec_get_status(),
    {
        let total_points = self.path.points().len();
        if self.point_index == 0 {
            CarStatus::BeforeTurn
        } else if self.point_index < total_points - 1 {
            CarStatus::Turning
        } else {
            CarStatus::AfterTurn
        }
    }

    /// Whether the car has no waypoint left to head for.
    #[verifier::when_used_as_spec(spec_is_done)]
    pub fn is_done(&self) -> (done: bool)
        requires
            self.point_index < usize::MAX,
        ensures
            done == self.spec_is_done(),
    {
        self.path.point(self.point_index + 1).is_none()
    }

    /// Picks the speed for this tick: `target_velocity`, with the traffic that
    /// crosses looked up in `traffic_state`.
    pub fn update_velocity(&self, prev_car: Option<&Car>, traffic_state: &TrafficState) -> (target:
        i64)
        requires
            self.wf(),
            traffic_state.wf(),
            prev_car matches Some(p) ==> p.pos.bounded(),
        ensures
            target == self.target_velocity(
                position_of(prev_car),
                blocked(self.path.coming_from, self.path.going_to, *traffic_state),
            ),
            0 <= target <= MAX_SPEED,
    {
        let velocity: i64 = if self.velocity < ROLLING_SPEED {
            ROLLING_SPEED
        } else {
            self.velocity
        };
        let faster: i64 = velocity * (100 + CAR_ACCELERATION) / 100;
        let slower: i64 = velocity * (100 - CAR_DECELERATION) / 100;
        if let Some(prev_car) = prev_car {
            let distance: i64 = distance_squared(prev_car.pos, self.pos);
            let stop: i64 = CAR_SAFE_DISTANCE * 2 + CAR_LENGTH;
            let slow: i64 = CAR_SAFE_DISTANCE * 3 + CAR_LENGTH;
            proof {
                lemma_square_within(stop as int, 1_000_000);
                lemma_square_within(slow as int, 1_000_000);
            }
            if distance < stop * stop {
                return 0;
            }
            if distance < slow * slow {
                return if slower < MIN_SPEED {
                    slower
                } else {
                    MIN_SPEED
                };
            }
        }
        let status = self.get_status();
        if status != CarStatus::BeforeTurn {
            return if faster < MAX_SPEED {
                faster
            } else {
                MAX_SPEED
            };
        }
        let collision_paths = self.path.get_potential_collision_paths(traffic_state);
        proof {
            lemma_collisions_mean_blocked(self.path, *traffic_state);
        }
        if !collision_paths.is_empty() {
            let center_distance: i64 = STRAIGHT_LENGTH - self.border_distance();
            if center_distance < CAR_SAFE_DISTANCE / 2 {
                return 0;
            }
            if center_distance < CAR_SAFE_DISTANCE {
                return if slower < MIN_SPEED {
                    slower
                } else {
                    MIN_SPEED
                };
            }
        }
        if faster < MIN_SPEED {
            faster
        } else {
            MIN_SPEED
        }
    }

    /// Moves the car by one tick: see `updated`.
    pub fn update(&mut self, prev_car: Option<&Car>, traffic_state: &TrafficState)
        requires
            old(self).wf(),
            traffic_state.wf(),
            prev_car matches Some(p) ==> p.pos.bounded(),
        ensures
            *final(self) == old(self).updated(
                position_of(prev_car),
                blocked(old(self).path.coming_from, old(self).path.going_to, *traffic_state),
            ),
            final(self).wf(),
    {
        let ghost ahead = position_of(prev_car);
        let ghost yields = blocked(self.path.coming_from, self.path.going_to, *traffic_state);
        loop
            invariant
                self.wf(),
                traffic_state.wf(),
                prev_car matches Some(p) ==> p.pos.bounded(),
                ahead == position_of(prev_car),
                self.path == old(self).path,
                yields == blocked(self.path.coming_from, self.path.going_to, *traffic_state),
                self.updated(ahead, yields) == old(self).updated(ahead, yields),
            decreases self.path@.len() - self.point_index,
        {
            match self.get_move_vector() {
                None => {
                    return ;
                },
                Some(move_vector) => {
                    let target: i64 = self.update_velocity(prev_car, traffic_state);
                    let next = Point {
                        x: self.pos.x + move_vector.x,
                        y: self.pos.y + move_vector.y,
                    };
                    proof {
                        lemma_waypoints_in_window(
                            self.path.coming_from,
                            self.path.going_to,
                            self.point_index + 1,
                        );
                    }
                    let remaining: i64 = distance_squared(self.pos, next);
                    proof {
                        lemma_square_within(target as int, MAX_SPEED as int);
                    }
                    if remaining < target * target {
                        self.point_index += 1;
                    } else {
                        if move_vector.x != 0 || move_vector.y != 0 {
                            self.heading = move_vector;
                        }
                        self.pos = step_toward(self.pos, next, target);
                        self.velocity = target;
                        return ;
                    }
                },
            }
        }
    }
}

proof fn lemma_square_within(a: int, limit: int)
    by (nonlinear_arith)
    requires
        0 <= a <= limit,
        limit <= 1_000_000,
    ensures
        0 <= a * a <= 1_000_000_000_000,
{
}

/// Whatever the car ahead and the crossing traffic, the speed that a car picks
/// is neither negative nor above `MAX_SPEED`.
pub proof fn lemma_target_velocity_bounded(car: Car, ahead: Option<Point>, blocked: bool)
    ensures
        0 <= car.target_velocity(ahead, blocked) <= MAX_SPEED,
{
}

/// A car that has less than twice the safe distance of room behind the car
/// ahead stops, whatever else holds.
pub proof fn lemma_too_close_stops(car: Car, ahead: Point, blocked: bool)
    requires
        room_under(ahead, car.pos, 2 * CAR_SAFE_DISTANCE),
    ensures
        car.target_velocity(Some(ahead), blocked) == 0,
{
}

/// A car with nothing ahead and no crossing traffic to give way to speeds up:
/// to no more than `MIN_SPEED` before its first waypoint, to no more than
/// `MAX_SPEED` after it. It never stands still.
pub proof fn lemma_free_way_speeds_up(car: Car)
    ensures
        car.target_velocity(None, false) == accelerated(
            current_velocity(car.velocity as int),
            if car.spec_get_status() == CarStatus::BeforeTurn {
                MIN_SPEED as int
            } else {
                MAX_SPEED as int
            },
        ),
        car.target_velocity(None, false) >= ROLLING_SPEED,
{
}

/// A car that turns right gives way to nobody: whatever the traffic, it picks
/// its speed as if no lane crossed its own.
pub proof fn lemma_right_turn_never_yields(car: Car, ahead: Option<Point>, state: TrafficState)
    requires
        car.path.going_to == Going::Right,
    ensures
        !blocked(car.path.coming_from, car.path.going_to, state),
        car.target_velocity(ahead, blocked(car.path.coming_from, car.path.going_to, state))
            == car.target_velocity(ahead, false),
{
    lemma_right_turn_never_blocked(car.path.coming_from, state);
}

/// A car that stands still stays where it is.
pub proof fn lemma_stopped_car_stays(car: Car)
    ensures
        car.moved(0).pos == car.pos,
        car.moved(0).velocity == 0,
{
    lemma_step_of_nothing(car.pos, car.next_point());
}

/// A car never drives into the car ahead: whenever it moves, it ends its move
/// with no less room behind the car ahead than twice the safe distance, less
/// what three ticks at full speed cover.
pub proof fn lemma_moving_car_keeps_room(car: Car, ahead: Point, blocked: bool)
    requires
        car.wf(),
        ahead.bounded(),
        car.updated(Some(ahead), blocked).pos != car.pos,
    ensures
        !room_under(
            ahead,
            car.updated(Some(ahead), blocked).pos,
            2 * CAR_SAFE_DISTANCE - 3 * MAX_SPEED,
        ),
    decreases car.path.points.len() - car.point_index,
{
    if !car.spec_is_done() {
        let target = car.target_velocity(Some(ahead), blocked);
        let next = car.next_point();
        lemma_target_velocity_bounded(car, Some(ahead), blocked);
        if dist2(car.pos, next) < target * target {
            lemma_moving_car_keeps_room(car.advanced(), ahead, blocked);
        } else {
            let after = car.moved(target).pos;
            lemma_waypoints_in_window(car.path.coming_from, car.path.going_to, car.point_index + 1);
            if target == 0 {
                lemma_step_of_nothing(car.pos, next);
            } else {
                let reach = 2 * CAR_SAFE_DISTANCE + CAR_LENGTH;
                assert(!room_under(ahead, car.pos, 2 * CAR_SAFE_DISTANCE));
                assert(dist2(car.pos, ahead) == dist2(ahead, car.pos)) by (nonlinear_arith)
                    requires
                        dist2(car.pos, ahead) == (car.pos.x - ahead.x) * (car.pos.x - ahead.x) + (
                        car.pos.y - ahead.y) * (car.pos.y - ahead.y),
                        dist2(ahead, car.pos) == (ahead.x - car.pos.x) * (ahead.x - car.pos.x) + (
                        ahead.y - car.pos.y) * (ahead.y - car.pos.y),
                ;
                lemma_step_length(car.pos, next, target);
                lemma_step_keeps_away(car.pos, after, ahead, reach, target + 1);
                assert(dist2(after, ahead) == dist2(ahead, after)) by (nonlinear_arith)
                    requires
                        dist2(after, ahead) == (after.x - ahead.x) * (after.x - ahead.x) + (after.y
                            - ahead.y) * (after.y - ahead.y),
                        dist2(ahead, after) == (ahead.x - after.x) * (ahead.x - after.x) + (ahead.y
                            - after.y) * (ahead.y - after.y),
                ;
                assert(reach * reach - 2 * (reach + 1) * (target + 1) >= 248_000 * 248_000)
                    by (nonlinear_arith)
                    requires
                        reach == 260_000,
                        0 <= target <= 4_000,
                ;
            }
        }
    }
}

/// A tick leaves a car, whatever its state, under its number, on its lane and
/// with its time of appearance.
pub proof fn lemma_updated_id(car: Car, ahead: Option<Point>, blocked: bool)
    ensures
        car.updated(ahead, blocked).id == car.id,
        car.updated(ahead, blocked).path == car.path,
        car.updated(ahead, blocked).start_time == car.start_time,
    decreases car.path.points.len() - car.point_index,
{
    if !car.spec_is_done() {
        let target = car.target_velocity(ahead, blocked);
        if dist2(car.pos, car.next_point()) < target * target {
            lemma_updated_id(car.advanced(), ahead, blocked);
        }
    }
}

/// A tick leaves a car well formed, on its lane and under its number, and
/// never takes it back along its lane.
pub proof fn lemma_updated_wf(car: Car, ahead: Option<Point>, blocked: bool)
    requires
        car.wf(),
    ensures
        car.updated(ahead, blocked).wf(),
        car.updated(ahead, blocked).id == car.id,
        car.updated(ahead, blocked).path == car.path,
        car.updated(ahead, blocked).start_time == car.start_time,
        car.updated(ahead, blocked).point_index >= car.point_index,
    decreases car.path.points.len() - car.point_index,
{
    if !car.spec_is_done() {
        let target = car.target_velocity(ahead, blocked);
        lemma_target_velocity_bounded(car, ahead, blocked);
        if dist2(car.pos, car.next_point()) < target * target {
            lemma_updated_wf(car.advanced(), ahead, blocked);
        } else {
            lemma_waypoints_in_window(car.path.coming_from, car.path.going_to, car.point_index + 1);
            lemma_stepped_between(car.pos, car.next_point(), target);
        }
    }
}

} // verus!
