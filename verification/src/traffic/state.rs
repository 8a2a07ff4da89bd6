//! The state of the whole intersection: the four lines, the record that is
//! kept of them, and the commands that change them.

use std::rc::Rc;
use macroquad::rand::ChooseRandom;
use vstd::prelude::*;
use crate::constant::{CAR_SAFE_DISTANCE, MAX_SPEED};
use crate::statistics::{elapsed, Record, Statistics};
use crate::traffic::car::{room_under, Car};
use crate::traffic::direction::{Direction, Going};
use crate::traffic::line::{lemma_free_paths, Line};
use crate::traffic::queue::{
    delayed, ids_apart, ids_below, ids_increase, lemma_origin, lemma_queue_updated,
    lemma_survivors, lemma_tick_keeps_apart, lemma_tick_keeps_ids, lemma_tick_keeps_order, origin,
    queue_updated, queue_wf, survivors,
};
use crate::traffic::path::{lemma_waypoints_len, share, Path};
use crate::traffic::path_collisions::{blocked, crosses, has_turning_car};

verus! {

#[derive(Clone, Debug)]
pub struct TrafficState {
    /// The lines, indexed by the ordinal of the side they lead in from.
    pub lines: [Line; 4],
    pub statistics: Statistics,
    /// When the simulation was paused last, in milliseconds.
    pub pause_time: u64,
    /// The number that the next car gets.
    pub next_id: usize,
}

/// One of `paths`, picked at random, or nothing where there is none to pick.
///
/// This is `choose` of macroquad's `ChooseRandom`, which draws an index
/// between zero and the length from its generator and hands out the item
/// there. The index falls short of the length for every list of less than
/// `2^32` items, so a list that is not empty yields one of its items.
#[verifier::external_body]
fn choose_path(paths: &Vec<Rc<Path>>) -> (choice: Option<&Rc<Path>>)
    ensures
        paths@.len() == 0 ==> choice is None,
        0 < paths@.len() < 0x1_0000_0000 ==> choice is Some,
        choice matches Some(p) ==> paths@.contains(*p),
{
    paths.choose()
}

impl TrafficState {
    /// The line that leads in from `d`.
    pub open spec fn line(&self, d: Direction) -> Line {
        self.lines[d.ordinal()]
    }

    /// The cars on the lane from `d` going `g`, the oldest first.
    pub open spec fn queue(&self, d: Direction, g: Going) -> Seq<Car> {
        self.lines[d.ordinal()].queue(g)
    }

    /// The lane from `d` going `g`.
    pub open spec fn path(&self, d: Direction, g: Going) -> Rc<Path> {
        self.lines[d.ordinal()].path(g)
    }

    /// The twelve lanes, line by line.
    pub open spec fn all_paths(&self) -> Seq<Rc<Path>> {
        Seq::new(12, |k: int| self.lines[k / 3].paths[k % 3])
    }

    /// All the cars, line by line and queue by queue.
    pub open spec fn all_cars(&self) -> Seq<Car> {
        self.line(Direction::North).cars() + self.line(Direction::East).cars() + self.line(
            Direction::South,
        ).cars() + self.line(Direction::West).cars()
    }

    /// Every line is well formed and leads in from the side that it is indexed
    /// by. In every queue the numbers of the cars go up from the front to the
    /// back, all are below the one that the next car gets, and no two queues
    /// share a number.
    pub open spec fn wf(&self) -> bool {
        &&& forall|d: Direction| (#[trigger] self.line(d)).wf() && self.line(d).coming_from() == d
        &&& forall|d: Direction, g: Going| ids_increase(#[trigger] self.queue(d, g))
        &&& forall|d: Direction, g: Going| ids_below(#[trigger] self.queue(d, g), self.next_id as int)
        &&& forall|d: Direction, g: Going, e: Direction, h: Going|
            d != e || g != h ==> ids_apart(#[trigger] self.queue(d, g), #[trigger] self.queue(e, h))
    }

    /// `other` has the same lanes.
    pub open spec fn same_paths(&self, other: &TrafficState) -> bool {
        forall|d: Direction, g: Going| #[trigger] other.path(d, g) == self.path(d, g)
    }

    /// `other` has equal cars in the same queues.
    pub open spec fn same_cars(&self, other: &TrafficState) -> bool {
        forall|d: Direction, g: Going| #[trigger] other.queue(d, g) == self.queue(d, g)
    }

    /// The lane `path` is a lane of this state and free for a new car.
    pub open spec fn offers(&self, path: Rc<Path>) -> bool {
        &&& path == self.path(path.coming_from, path.going_to)
        &&& self.line(path.coming_from).is_free(path.going_to)
    }

    /// `after` is this state with a new car on `path`: the car has the next
    /// number, appeared at `now` and stands at the back of its queue. The
    /// record is not spoken of.
    pub open spec fn with_spawn(&self, path: Rc<Path>, now: u64, after: &TrafficState) -> bool {
        &&& after.next_id == self.next_id + 1
        &&& after.pause_time == self.pause_time
        &&& self.same_paths(after)
        &&& after.queue(path.coming_from, path.going_to) == self.queue(
            path.coming_from,
            path.going_to,
        ).push(Car::spawned(path, self.next_id, now))
        &&& forall|d: Direction, g: Going|
            d != path.coming_from || g != path.going_to ==> #[trigger] after.queue(d, g)
                == self.queue(d, g)
    }

    /// `after` is this state with nothing changed but, perhaps, the record.
    pub open spec fn same_traffic(&self, after: &TrafficState) -> bool {
        &&& after.next_id == self.next_id
        &&& after.pause_time == self.pause_time
        &&& self.same_paths(after)
        &&& self.same_cars(after)
    }

    /// `after` is this state after the pause was switched at `now`. Pausing
    /// notes the time. Resuming moves the time of appearance of every car on by
    /// the time that the pause took, so that it does not count as time on the
    /// road.
    pub open spec fn toggled(&self, now: u64, after: &TrafficState) -> bool {
        &&& after.statistics@ == self.statistics@.switched()
        &&& after.next_id == self.next_id
        &&& self.same_paths(after)
        &&& if self.statistics.is_open {
            &&& after.pause_time == self.pause_time
            &&& forall|d: Direction, g: Going| #[trigger]
                after.queue(d, g) == delayed(self.queue(d, g), now.saturating_sub(self.pause_time))
        } else {
            &&& after.pause_time == now
            &&& self.same_cars(after)
        }
    }

    /// `after` is this state after a car was asked for from `coming_from` at
    /// `now`. The request is counted. If a lane from there is free, a car has
    /// appeared on one of the free lanes; if none is, nothing else has changed.
    pub open spec fn car_requested(
        &self,
        coming_from: Direction,
        now: u64,
        after: &TrafficState,
    ) -> bool {
        &&& after.statistics@ == self.statistics@.counted()
        &&& if exists|g: Going| self.line(coming_from).is_free(g) {
            exists|g: Going|
                self.line(coming_from).is_free(g) && self.with_spawn(
                    self.path(coming_from, g),
                    now,
                    after,
                )
        } else {
            self.same_traffic(after)
        }
    }

    /// `after` is this state after a car was asked for at `now`, from whatever
    /// side. If any lane is free, a car has appeared on one of the free lanes
    /// and is counted; if none is, nothing has changed.
    pub open spec fn random_car_requested(&self, now: u64, after: &TrafficState) -> bool {
        if exists|d: Direction, g: Going| self.line(d).is_free(g) {
            &&& after.statistics@ == self.statistics@.counted()
            &&& exists|d: Direction, g: Going|
                self.line(d).is_free(g) && self.with_spawn(self.path(d, g), now, after)
        } else {
            &&& after.statistics@ == self.statistics@
            &&& self.same_traffic(after)
        }
    }

    /// `after` is this state one tick later, but for the record: from every
    /// queue the cars that were done are gone, and the others have been
    /// updated, each lane giving way to the cars that were inside the
    /// intersection before the tick.
    pub open spec fn ticked(&self, after: &TrafficState) -> bool {
        &&& after.next_id == self.next_id
        &&& after.pause_time == self.pause_time
        &&& self.same_paths(after)
        &&& forall|d: Direction, g: Going| #[trigger]
            after.queue(d, g) == queue_updated(survivors(self.queue(d, g)), blocked(d, g, *self))
    }

    /// No car of a well-formed state goes backwards or faster than
    /// `MAX_SPEED`.
    pub proof fn lemma_speed_limit(&self, d: Direction, g: Going, i: int)
        requires
            self.wf(),
            0 <= i < self.queue(d, g).len(),
        ensures
            0 <= self.queue(d, g)[i].velocity <= MAX_SPEED,
    {
        self.lemma_queue_wf(d, g);
    }

    /// Every car of a well-formed state has a number of its own.
    pub proof fn lemma_ids_unique(
        &self,
        d: Direction,
        g: Going,
        i: int,
        e: Direction,
        h: Going,
        j: int,
    )
        requires
            self.wf(),
            0 <= i < self.queue(d, g).len(),
            0 <= j < self.queue(e, h).len(),
            d != e || g != h || i != j,
        ensures
            self.queue(d, g)[i].id != self.queue(e, h)[j].id,
            self.queue(d, g)[i].id < self.next_id,
    {
        assert(ids_below(self.queue(d, g), self.next_id as int));
        if d == e && g == h {
            assert(ids_increase(self.queue(d, g)));
        } else {
            assert(ids_apart(self.queue(d, g), self.queue(e, h)));
        }
    }

    /// A tick does not reorder a queue: the cars that are left in a queue after
    /// it stood in that queue before it, under the same numbers, and of any
    /// two of them the one in front stood in front before.
    pub proof fn lemma_tick_keeps_order(
        &self,
        after: &TrafficState,
        d: Direction,
        g: Going,
        i: int,
        j: int,
    )
        requires
            self.ticked(after),
            0 <= i < j < after.queue(d, g).len(),
        ensures
            0 <= origin(self.queue(d, g), i) < origin(self.queue(d, g), j) < self.queue(d, g).len(),
            after.queue(d, g)[i].id == self.queue(d, g)[origin(self.queue(d, g), i)].id,
            after.queue(d, g)[j].id == self.queue(d, g)[origin(self.queue(d, g), j)].id,
    {
        lemma_tick_keeps_order(self.queue(d, g), blocked(d, g, *self), i, j);
    }

    /// No car drives into the car before it: a car that has moved in a tick
    /// has no less room behind the car before it in its queue, as both stand
    /// after the tick, than twice the safe distance, less what three ticks at
    /// full speed cover.
    pub proof fn lemma_tick_keeps_room(&self, after: &TrafficState, d: Direction, g: Going, i: int)
        requires
            self.wf(),
            self.ticked(after),
            0 < i < after.queue(d, g).len(),
            after.queue(d, g)[i].pos != self.queue(d, g)[origin(self.queue(d, g), i)].pos,
        ensures
            !room_under(
                after.queue(d, g)[i - 1].pos,
                after.queue(d, g)[i].pos,
                2 * CAR_SAFE_DISTANCE - 3 * MAX_SPEED,
            ),
    {
        let before = self.queue(d, g);
        self.lemma_queue_wf(d, g);
        lemma_survivors(before, self.path(d, g));
        lemma_queue_updated(survivors(before), blocked(d, g, *self));
        lemma_origin(before, i);
        crate::traffic::queue::lemma_tick_keeps_room(
            survivors(before),
            self.path(d, g),
            blocked(d, g, *self),
            i,
        );
    }

    /// The time that a pause took does not count as time on the road: for a
    /// car that appeared before the pause, the time since it appeared is, after
    /// the pause, less by what the pause took.
    pub proof fn lemma_pause_is_excluded(
        &self,
        paused: &TrafficState,
        resumed: &TrafficState,
        paused_at: u64,
        resumed_at: u64,
        now: u64,
        d: Direction,
        g: Going,
        i: int,
    )
        requires
            !self.statistics.is_open,
            self.toggled(paused_at, paused),
            paused.toggled(resumed_at, resumed),
            0 <= i < self.queue(d, g).len(),
            self.queue(d, g)[i].start_time <= paused_at <= resumed_at <= now,
        ensures
            !resumed.statistics.is_open,
            resumed.queue(d, g).len() == self.queue(d, g).len(),
            resumed.queue(d, g)[i].id == self.queue(d, g)[i].id,
            elapsed(resumed.queue(d, g)[i].start_time, now) == elapsed(
                self.queue(d, g)[i].start_time,
                now,
            ) - (resumed_at - paused_at),
    {
        assert(paused.queue(d, g) == self.queue(d, g));
        assert(resumed.queue(d, g) == delayed(
            paused.queue(d, g),
            resumed_at.saturating_sub(paused.pause_time),
        ));
    }

    /// In a well-formed state every car of a queue is well formed and on the
    /// lane of its queue.
    pub proof fn lemma_queue_wf(&self, d: Direction, g: Going)
        requires
            self.wf(),
        ensures
            queue_wf(self.queue(d, g), self.path(d, g)),
            forall|i: int|
                0 <= i < self.queue(d, g).len() ==> (#[trigger] self.queue(d, g)[i]).path@.len() > 0,
    {
        assert(self.line(d).wf());
        assert(queue_wf(self.line(d).queue(g), self.line(d).path(g)));
        assert forall|i: int| 0 <= i < self.queue(d, g).len() implies (#[trigger] self.queue(
            d,
            g,
        )[i]).path@.len() > 0 by {
            let car = self.queue(d, g)[i];
            lemma_waypoints_len(car.path.coming_from, car.path.going_to);
        }
    }

    /// In a well-formed state the lane from `d` going `g` is that lane.
    pub proof fn lemma_path_wf(&self, d: Direction, g: Going)
        requires
            self.wf(),
        ensures
            self.path(d, g).wf(),
            self.path(d, g).coming_from == d,
            self.path(d, g).going_to == g,
    {
        assert(self.line(d).wf());
        assert(self.line(d).path(g).wf());
    }

    /// States with equal cars in the same queues block the same lanes.
    proof fn lemma_same_cars_block(&self, other: &TrafficState, d: Direction, g: Going)
        requires
            self.same_cars(other),
        ensures
            blocked(d, g, *self) == blocked(d, g, *other),
    {
        if blocked(d, g, *self) {
            let (dd, gg) = choose|dd: Direction, gg: Going|
                crosses(d, g, dd, gg) && has_turning_car(#[trigger] self.queue(dd, gg));
            assert(other.queue(dd, gg) == self.queue(dd, gg));
        }
        if blocked(d, g, *other) {
            let (dd, gg) = choose|dd: Direction, gg: Going|
                crosses(d, g, dd, gg) && has_turning_car(#[trigger] other.queue(dd, gg));
            assert(other.queue(dd, gg) == self.queue(dd, gg));
        }
    }

    /// The four lines with no car on them, the record empty and the clock of
    /// the pause set to `now`.
    pub fn new(now: u64) -> (state: TrafficState)
        ensures
            state.wf(),
            state.next_id == 0,
            state.pause_time == now,
            state.statistics@ == Record::empty(),
            forall|d: Direction, g: Going| (#[trigger] state.queue(d, g)).len() == 0,
    {
        let state = TrafficState {
            lines: [
                Line::new(Direction::North),
                Line::new(Direction::East),
                Line::new(Direction::South),
                Line::new(Direction::West),
            ],
            statistics: Statistics::default(),
            pause_time: now,
            next_id: 0,
        };
        proof {
            assert forall|d: Direction| (#[trigger] state.line(d)).wf() && state.line(
                d,
            ).coming_from() == d by {
                match d {
                    Direction::North => {},
                    Direction::East => {},
                    Direction::South => {},
                    Direction::West => {},
                }
            }
            assert forall|d: Direction, g: Going| (#[trigger] state.queue(d, g)).len() == 0 by {
                assert(state.line(d).queue(g).len() == 0);
            }
            assert forall|d: Direction, g: Going, e: Direction, h: Going|
                d != e || g != h implies ids_apart(
                #[trigger] state.queue(d, g),
                #[trigger] state.queue(e, h),
            ) by {
                assert(state.queue(d, g).len() == 0);
            }
        }
        state
    }

    /// A second state with the same lanes, equal cars in the same queues and
    /// an equal record: what the cars look at while the state itself changes.
    pub fn snapshot(&self) -> (copy: TrafficState)
        ensures
            self.same_traffic(&copy),
            copy.statistics@ == self.statistics@,
            self.wf() ==> copy.wf(),
    {
        let copy = TrafficState {
            lines: [
                self.lines[0].duplicate(),
                self.lines[1].duplicate(),
                self.lines[2].duplicate(),
                self.lines[3].duplicate(),
            ],
            statistics: self.statistics.duplicate(),
            pause_time: self.pause_time,
            next_id: self.next_id,
        };
        proof {
            assert forall|d: Direction| self.line(d).same_traffic(&#[trigger] copy.line(d)) by {
                match d {
                    Direction::North => {},
                    Direction::East => {},
                    Direction::South => {},
                    Direction::West => {},
                }
            }
            assert forall|d: Direction, g: Going| #[trigger] copy.path(d, g) == self.path(d, g) by {
                assert(self.line(d).same_traffic(&copy.line(d)));
                assert(copy.line(d).path(g) == self.line(d).path(g));
            }
            assert forall|d: Direction, g: Going| #[trigger]
                copy.queue(d, g) == self.queue(d, g) by {
                assert(self.line(d).same_traffic(&copy.line(d)));
                assert(copy.line(d).queue(g) == self.line(d).queue(g));
            }
            if self.wf() {
                self.lemma_wf_carries(&copy);
            }
        }
        copy
    }

    /// A state with the lanes, the cars and the next number of a well-formed
    /// state is well formed.
    proof fn lemma_wf_carries(&self, other: &TrafficState)
        requires
            self.wf(),
            self.same_paths(other),
            self.same_cars(other),
            self.next_id <= other.next_id,
        ensures
            other.wf(),
    {
        assert forall|d: Direction| (#[trigger] other.line(d)).wf() && other.line(d).coming_from()
            == d by {
            assert(self.line(d).wf());
            assert forall|g: Going|
                {
                    &&& (#[trigger] other.line(d).path(g)).wf()
                    &&& other.line(d).path(g).going_to == g
                    &&& other.line(d).path(g).coming_from == other.line(d).coming_from()
                } by {
                assert(other.path(d, g) == self.path(d, g));
                assert(other.path(d, Going::Straight) == self.path(d, Going::Straight));
                assert(self.line(d).path(g).wf());
            }
            assert forall|g: Going|
                queue_wf(#[trigger] other.line(d).queue(g), other.line(d).path(g)) by {
                assert(other.path(d, g) == self.path(d, g));
                assert(other.queue(d, g) == self.queue(d, g));
                assert(queue_wf(self.line(d).queue(g), self.line(d).path(g)));
            }
            assert(other.path(d, Going::Straight) == self.path(d, Going::Straight));
        }
        assert forall|d: Direction, g: Going| ids_increase(#[trigger] other.queue(d, g)) by {
            assert(other.queue(d, g) == self.queue(d, g));
        }
        assert forall|d: Direction, g: Going|
            ids_below(#[trigger] other.queue(d, g), other.next_id as int) by {
            assert(other.queue(d, g) == self.queue(d, g));
            assert(ids_below(self.queue(d, g), self.next_id as int));
        }
        assert forall|d: Direction, g: Going, e: Direction, h: Going| d != e || g != h implies ids_apart(
            #[trigger] other.queue(d, g),
            #[trigger] other.queue(e, h),
        ) by {
            assert(other.queue(d, g) == self.queue(d, g));
            assert(other.queue(e, h) == self.queue(e, h));
            assert(ids_apart(self.queue(d, g), self.queue(e, h)));
        }
    }

    /// A state with the very lines of a well-formed state, and a next number
    /// that is not less, is well formed.
    proof fn lemma_wf_same_lines(&self, other: &TrafficState)
        requires
            self.wf(),
            other.lines == self.lines,
            self.next_id <= other.next_id,
        ensures
            other.wf(),
            self.same_paths(other),
            self.same_cars(other),
    {
        assert forall|d: Direction| (#[trigger] other.line(d)).wf() && other.line(d).coming_from()
            == d by {
            assert(other.line(d) == self.line(d));
        }
        assert forall|d: Direction, g: Going| ids_increase(#[trigger] other.queue(d, g)) by {
            assert(other.queue(d, g) == self.queue(d, g));
        }
        assert forall|d: Direction, g: Going|
            ids_below(#[trigger] other.queue(d, g), other.next_id as int) by {
            assert(other.queue(d, g) == self.queue(d, g));
            assert(ids_below(self.queue(d, g), self.next_id as int));
        }
        assert forall|d: Direction, g: Going, e: Direction, h: Going| d != e || g != h implies ids_apart(
            #[trigger] other.queue(d, g),
            #[trigger] other.queue(e, h),
        ) by {
            assert(other.queue(d, g) == self.queue(d, g));
            assert(other.queue(e, h) == self.queue(e, h));
            assert(ids_apart(self.queue(d, g), self.queue(e, h)));
        }
        assert forall|d: Direction, g: Going| #[trigger] other.queue(d, g) == self.queue(d, g) by {}
        assert forall|d: Direction, g: Going| #[trigger] other.path(d, g) == self.path(d, g) by {}
    }

    /// A copy of every car, line by line and queue by queue.
    pub fn cars(&self) -> (cars: Vec<Car>)
        ensures
            cars@ == self.all_cars(),
    {
        let mut cars: Vec<Car> = Vec::new();
        self.lines[0].collect_cars(&mut cars);
        self.lines[1].collect_cars(&mut cars);
        self.lines[2].collect_cars(&mut cars);
        self.lines[3].collect_cars(&mut cars);
        assert(cars@ =~= self.all_cars());
        cars
    }

    /// Pauses the simulation, or takes it up again: see `toggled`.
    pub fn toggle_pause(&mut self, now: u64)
        requires
            old(self).wf(),
        ensures
            final(self).wf(),
            old(self).toggled(now, final(self)),
    {
        self.statistics.is_open = !self.statistics.is_open;
        proof {
            old(self).lemma_wf_same_lines(self);
        }
        if self.statistics.is_open {
            self.pause_time = now;
            proof {
                old(self).lemma_wf_same_lines(self);
            }
        } else {
            let pause_duration: u64 = now.saturating_sub(self.pause_time);
            proof {
                assert(self.line(Direction::North).wf());
                assert(self.line(Direction::East).wf());
                assert(self.line(Direction::South).wf());
                assert(self.line(Direction::West).wf());
            }
            self.lines[0].delay(pause_duration);
            self.lines[1].delay(pause_duration);
            self.lines[2].delay(pause_duration);
            self.lines[3].delay(pause_duration);
            proof {
                assert forall|d: Direction, g: Going| #[trigger]
                    self.queue(d, g) == delayed(old(self).queue(d, g), pause_duration) by {
                    match d {
                        Direction::North => {
                            assert(self.lines[0].queue(g) == delayed(
                                old(self).lines[0].queue(g),
                                pause_duration,
                            ));
                        },
                        Direction::East => {
                            assert(self.lines[1].queue(g) == delayed(
                                old(self).lines[1].queue(g),
                                pause_duration,
                            ));
                        },
                        Direction::South => {
                            assert(self.lines[2].queue(g) == delayed(
                                old(self).lines[2].queue(g),
                                pause_duration,
                            ));
                        },
                        Direction::West => {
                            assert(self.lines[3].queue(g) == delayed(
                                old(self).lines[3].queue(g),
                                pause_duration,
                            ));
                        },
                    }
                }
                assert forall|d: Direction, g: Going| #[trigger]
                    self.path(d, g) == old(self).path(d, g) by {
                    match d {
                        Direction::North => {},
                        Direction::East => {},
                        Direction::South => {},
                        Direction::West => {},
                    }
                }
                assert forall|d: Direction| (#[trigger] self.line(d)).wf() && self.line(
                    d,
                ).coming_from() == d by {
                    assert(old(self).line(d).coming_from() == d);
                    match d {
                        Direction::North => {},
                        Direction::East => {},
                        Direction::South => {},
                        Direction::West => {},
                    }
                }
                assert forall|d: Direction, g: Going| ids_increase(#[trigger] self.queue(d, g)) by {
                    assert(self.queue(d, g) == delayed(old(self).queue(d, g), pause_duration));
                    assert(ids_increase(old(self).queue(d, g)));
                }
                assert forall|d: Direction, g: Going|
                    ids_below(#[trigger] self.queue(d, g), self.next_id as int) by {
                    assert(self.queue(d, g) == delayed(old(self).queue(d, g), pause_duration));
                    assert(ids_below(old(self).queue(d, g), old(self).next_id as int));
                }
                assert forall|d: Direction, g: Going, e: Direction, h: Going|
                    d != e || g != h implies ids_apart(
                    #[trigger] self.queue(d, g),
                    #[trigger] self.queue(e, h),
                ) by {
                    assert(self.queue(d, g) == delayed(old(self).queue(d, g), pause_duration));
                    assert(self.queue(e, h) == delayed(old(self).queue(e, h), pause_duration));
                    assert(ids_apart(old(self).queue(d, g), old(self).queue(e, h)));
                }
            }
        }
    }

    /// One tick: every line is updated against a snapshot of the state as it
    /// was before the tick, and the record is brought up to date from the same
    /// snapshot.
    pub fn update(&mut self, now: u64)
        requires
            old(self).wf(),
        ensures
            final(self).wf(),
            old(self).ticked(final(self)),
            final(self).statistics@ == old(self).statistics@.with_cars(
                old(self).all_cars(),
                old(self).all_cars().len() as int,
                now,
            ),
    {
        let traffic_state = self.snapshot();
        proof {
            assert(self.line(Direction::North).wf());
            assert(self.line(Direction::East).wf());
            assert(self.line(Direction::South).wf());
            assert(self.line(Direction::West).wf());
        }
        self.lines[0].update(&traffic_state);
        self.lines[1].update(&traffic_state);
        self.lines[2].update(&traffic_state);
        self.lines[3].update(&traffic_state);
        self.statistics.update(&traffic_state, now);
        proof {
            assert(traffic_state.all_cars() =~= old(self).all_cars()) by {
                assert(traffic_state.queue(Direction::North, Going::Straight) == old(self).queue(
                    Direction::North,
                    Going::Straight,
                ));
                assert(traffic_state.queue(Direction::North, Going::Right) == old(self).queue(
                    Direction::North,
                    Going::Right,
                ));
                assert(traffic_state.queue(Direction::North, Going::Left) == old(self).queue(
                    Direction::North,
                    Going::Left,
                ));
                assert(traffic_state.queue(Direction::East, Going::Straight) == old(self).queue(
                    Direction::East,
                    Going::Straight,
                ));
                assert(traffic_state.queue(Direction::East, Going::Right) == old(self).queue(
                    Direction::East,
                    Going::Right,
                ));
                assert(traffic_state.queue(Direction::East, Going::Left) == old(self).queue(
                    Direction::East,
                    Going::Left,
                ));
                assert(traffic_state.queue(Direction::South, Going::Straight) == old(self).queue(
                    Direction::South,
                    Going::Straight,
                ));
                assert(traffic_state.queue(Direction::South, Going::Right) == old(self).queue(
                    Direction::South,
                    Going::Right,
                ));
                assert(traffic_state.queue(Direction::South, Going::Left) == old(self).queue(
                    Direction::South,
                    Going::Left,
                ));
                assert(traffic_state.queue(Direction::West, Going::Straight) == old(self).queue(
                    Direction::West,
                    Going::Straight,
                ));
                assert(traffic_state.queue(Direction::West, Going::Right) == old(self).queue(
                    Direction::West,
                    Going::Right,
                ));
                assert(traffic_state.queue(Direction::West, Going::Left) == old(self).queue(
                    Direction::West,
                    Going::Left,
                ));
            }
            assert forall|d: Direction, g: Going| #[trigger]
                self.queue(d, g) == queue_updated(
                    survivors(old(self).queue(d, g)),
                    blocked(d, g, *old(self)),
                ) by {
                old(self).lemma_same_cars_block(&traffic_state, d, g);
                assert(old(self).line(d).coming_from() == d);
                match d {
                    Direction::North => {
                        assert(self.lines[0].queue(g) == queue_updated(
                            survivors(old(self).lines[0].queue(g)),
                            blocked(old(self).lines[0].coming_from(), g, traffic_state),
                        ));
                    },
                    Direction::East => {
                        assert(self.lines[1].queue(g) == queue_updated(
                            survivors(old(self).lines[1].queue(g)),
                            blocked(old(self).lines[1].coming_from(), g, traffic_state),
                        ));
                    },
                    Direction::South => {
                        assert(self.lines[2].queue(g) == queue_updated(
                            survivors(old(self).lines[2].queue(g)),
                            blocked(old(self).lines[2].coming_from(), g, traffic_state),
                        ));
                    },
                    Direction::West => {
                        assert(self.lines[3].queue(g) == queue_updated(
                            survivors(old(self).lines[3].queue(g)),
                            blocked(old(self).lines[3].coming_from(), g, traffic_state),
                        ));
                    },
                }
            }
            assert forall|d: Direction, g: Going| #[trigger]
                self.path(d, g) == old(self).path(d, g) by {
                match d {
                    Direction::North => {},
                    Direction::East => {},
                    Direction::South => {},
                    Direction::West => {},
                }
            }
            assert forall|d: Direction| (#[trigger] self.line(d)).wf() && self.line(
                d,
            ).coming_from() == d by {
                assert(old(self).line(d).coming_from() == d);
                match d {
                    Direction::North => {},
                    Direction::East => {},
                    Direction::South => {},
                    Direction::West => {},
                }
            }
            assert forall|d: Direction, g: Going| ids_increase(#[trigger] self.queue(d, g)) by {
                assert(ids_increase(old(self).queue(d, g)));
                assert(ids_below(old(self).queue(d, g), old(self).next_id as int));
                lemma_tick_keeps_ids(
                    old(self).queue(d, g),
                    blocked(d, g, *old(self)),
                    old(self).next_id as int,
                );
            }
            assert forall|d: Direction, g: Going|
                ids_below(#[trigger] self.queue(d, g), self.next_id as int) by {
                assert(ids_increase(old(self).queue(d, g)));
                assert(ids_below(old(self).queue(d, g), old(self).next_id as int));
                lemma_tick_keeps_ids(
                    old(self).queue(d, g),
                    blocked(d, g, *old(self)),
                    old(self).next_id as int,
                );
            }
            assert forall|d: Direction, g: Going, e: Direction, h: Going|
                d != e || g != h implies ids_apart(
                #[trigger] self.queue(d, g),
                #[trigger] self.queue(e, h),
            ) by {
                assert(ids_apart(old(self).queue(d, g), old(self).queue(e, h)));
                lemma_tick_keeps_apart(
                    old(self).queue(d, g),
                    blocked(d, g, *old(self)),
                    old(self).queue(e, h),
                    blocked(e, h, *old(self)),
                );
            }
        }
    }

    /// Puts a new car on the lane `choice`, if there is one: see `with_spawn`.
    /// Without a lane nothing happens.
    pub fn spawn(&mut self, choice: Option<Rc<Path>>, now: u64)
        requires
            old(self).wf(),
            old(self).next_id < usize::MAX,
            choice matches Some(p) ==> p == old(self).path(p.coming_from, p.going_to),
        ensures
            final(self).wf(),
            final(self).statistics@ == old(self).statistics@,
            match choice {
                Some(path) => old(self).with_spawn(path, now, final(self)),
                None => old(self).same_traffic(final(self)),
            },
    {
        match choice {
            None => {
                proof {
                    assert forall|d: Direction, g: Going| #[trigger]
                        self.queue(d, g) == old(self).queue(d, g) by {}
                    assert forall|d: Direction, g: Going| #[trigger]
                        self.path(d, g) == old(self).path(d, g) by {}
                }
            },
            Some(path) => {
                let id: usize = self.next_id;
                let side: usize = path.coming_from.index();
                let ghost from = path.coming_from;
                let ghost way = path.going_to;
                let ghost car = Car::spawned(path, id, now);
                proof {
                    assert(self.line(from).wf());
                    assert(self.line(from).path(way).wf());
                    lemma_waypoints_len(from, way);
                }
                self.next_id = id + 1;
                self.lines[side].gen_car(path, id, now);
                proof {
                    assert forall|d: Direction, g: Going| #[trigger]
                        self.path(d, g) == old(self).path(d, g) by {}
                    assert forall|d: Direction, g: Going|
                        d != from || g != way implies #[trigger] self.queue(d, g) == old(
                        self,
                    ).queue(d, g) by {
                        if d == from {
                            assert(self.lines[side as int].queue(g) == old(self).lines[side as int].queue(g));
                        }
                    }
                    assert forall|d: Direction| (#[trigger] self.line(d)).wf() && self.line(
                        d,
                    ).coming_from() == d by {
                        assert(old(self).line(d).wf() && old(self).line(d).coming_from() == d);
                    }
                    assert forall|d: Direction, g: Going|
                        ids_increase(#[trigger] self.queue(d, g)) && ids_below(
                            self.queue(d, g),
                            self.next_id as int,
                        ) by {
                        assert(ids_increase(old(self).queue(d, g)));
                        assert(ids_below(old(self).queue(d, g), old(self).next_id as int));
                        if d == from && g == way {
                            assert(self.queue(d, g) == old(self).queue(d, g).push(car));
                        } else {
                            assert(self.queue(d, g) == old(self).queue(d, g));
                        }
                    }
                    assert forall|d: Direction, g: Going, e: Direction, h: Going|
                        d != e || g != h implies ids_apart(
                        #[trigger] self.queue(d, g),
                        #[trigger] self.queue(e, h),
                    ) by {
                        assert(ids_apart(old(self).queue(d, g), old(self).queue(e, h)));
                        assert(ids_below(old(self).queue(d, g), old(self).next_id as int));
                        assert(ids_below(old(self).queue(e, h), old(self).next_id as int));
                        if d == from && g == way {
                            assert(self.queue(d, g) == old(self).queue(d, g).push(car));
                            assert(self.queue(e, h) == old(self).queue(e, h));
                        } else if e == from && h == way {
                            assert(self.queue(e, h) == old(self).queue(e, h).push(car));
                            assert(self.queue(d, g) == old(self).queue(d, g));
                        } else {
                            assert(self.queue(d, g) == old(self).queue(d, g));
                            assert(self.queue(e, h) == old(self).queue(e, h));
                        }
                    }
                }
            },
        }
    }

    /// Counts a request for a car from `coming_from`, and puts a car on one of
    /// the free lanes from there, picked at random. Where no lane is free the
    /// request is dropped.
    pub fn gen_car(&mut self, coming_from: Direction, now: u64)
        requires
            old(self).wf(),
            old(self).next_id < usize::MAX,
            old(self).statistics.car_count < usize::MAX,
        ensures
            final(self).wf(),
            old(self).car_requested(coming_from, now, final(self)),
    {
        self.statistics.car_count += 1;
        proof {
            old(self).lemma_wf_same_lines(self);
            assert(self.line(coming_from).wf());
        }
        let free = self.lines[coming_from.index()].get_free_paths();
        proof {
            lemma_free_paths(self.line(coming_from));
        }
        let choice = match choose_path(&free) {
            Some(path) => Some(share(path)),
            None => None,
        };
        let ghost picked = choice;
        proof {
            if exists|g: Going| old(self).line(coming_from).is_free(g) {
                let g = choose|g: Going| old(self).line(coming_from).is_free(g);
                assert(free@.contains(self.line(coming_from).path(g)));
            }
            if picked is Some {
                let p = picked->0;
                assert(free@.contains(p));
                self.lemma_path_wf(coming_from, p.going_to);
            }
        }
        let ghost counted = *self;
        self.spawn(choice, now);
        proof {
            if picked is Some {
                let p = picked->0;
                old(self).lemma_spawn_follows(&counted, p, now, self);
                assert(old(self).line(coming_from).is_free(p.going_to) && old(self).with_spawn(
                    old(self).path(coming_from, p.going_to),
                    now,
                    self,
                ));
            } else {
                old(self).lemma_same_traffic_follows(&counted, self);
            }
        }
    }

    /// Puts a car on a lane picked at random among all the free lanes of all
    /// four lines, and counts it. Where no lane is free nothing happens.
    pub fn gen_car_random(&mut self, now: u64)
        requires
            old(self).wf(),
            old(self).next_id < usize::MAX,
            old(self).statistics.car_count < usize::MAX,
        ensures
            final(self).wf(),
            old(self).random_car_requested(now, final(self)),
    {
        let mut available: Vec<Rc<Path>> = Vec::new();
        let mut line_index: usize = 0;
        while line_index < 4
            invariant
                line_index <= 4,
                self.wf(),
                available@.len() <= 3 * line_index,
                forall|k: int| 0 <= k < available@.len() ==> self.offers(#[trigger] available@[k]),
                forall|d: Direction, g: Going|
                    d.ordinal() < line_index && self.line(d).is_free(g) ==> available@.contains(
                        #[trigger] self.path(d, g),
                    ),
            decreases 4 - line_index,
        {
            let ghost side = Direction::of_ordinal(line_index as int);
            let ghost before = available@;
            proof {
                assert(self.line(side).wf() && self.line(side).coming_from() == side);
                lemma_free_paths(self.line(side));
            }
            let mut free = self.lines[line_index].get_free_paths();
            proof {
                self.lines[line_index as int].paths@.lemma_filter_len(
                    |p: Rc<Path>| self.lines[line_index as int].is_free(p.going_to),
                );
            }
            let ghost found = free@;
            available.append(&mut free);
            proof {
                assert forall|k: int| 0 <= k < available@.len() implies self.offers(
                    #[trigger] available@[k],
                ) by {
                    if k >= before.len() {
                        let p = found[k - before.len()];
                        assert(found.contains(p));
                        assert(self.line(side).path(p.going_to).coming_from == side);
                    }
                }
                assert forall|d: Direction, g: Going|
                    d.ordinal() < line_index + 1 && self.line(d).is_free(g) implies available@.contains(
                    #[trigger] self.path(d, g),
                ) by {
                    if d.ordinal() < line_index {
                        let k = choose|k: int| 0 <= k < before.len() && before[k] == self.path(d, g);
                        assert(available@[k] == self.path(d, g));
                    } else {
                        assert(d == side);
                        assert(found.contains(self.line(side).path(g)));
                        let k = choose|k: int| 0 <= k < found.len() && found[k] == self.path(d, g);
                        assert(available@[before.len() + k] == self.path(d, g));
                    }
                }
            }
            line_index += 1;
        }
        let choice = match choose_path(&available) {
            Some(path) => Some(share(path)),
            None => None,
        };
        let ghost picked = choice;
        proof {
            if exists|d: Direction, g: Going| self.line(d).is_free(g) {
                let (d, g) = choose|d: Direction, g: Going| self.line(d).is_free(g);
                assert(available@.contains(self.path(d, g)));
            }
            if picked is Some {
                let p = picked->0;
                assert(available@.contains(p));
                let k = choose|k: int| 0 <= k < available@.len() && available@[k] == p;
                assert(self.offers(available@[k]));
            }
        }
        match choice {
            Some(path) => {
                let ghost lane = path;
                self.spawn(Some(path), now);
                let ghost spawned = *self;
                self.statistics.car_count += 1;
                proof {
                    spawned.lemma_wf_same_lines(self);
                    old(self).lemma_spawn_carries(lane, now, &spawned, self);
                    assert(old(self).line(lane.coming_from).is_free(lane.going_to) && old(
                        self,
                    ).with_spawn(old(self).path(lane.coming_from, lane.going_to), now, self));
                }
            },
            None => {
                proof {
                    old(self).lemma_wf_same_lines(self);
                }
            },
        }
    }

    /// A new car on a state with the same lanes, cars, clock and next number is
    /// a new car on this state.
    proof fn lemma_spawn_follows(
        &self,
        same: &TrafficState,
        path: Rc<Path>,
        now: u64,
        after: &TrafficState,
    )
        requires
            self.same_traffic(same),
            same.with_spawn(path, now, after),
        ensures
            self.with_spawn(path, now, after),
    {
        assert forall|d: Direction, g: Going| #[trigger] after.path(d, g) == self.path(d, g) by {
            assert(after.path(d, g) == same.path(d, g));
            assert(same.path(d, g) == self.path(d, g));
        }
        assert(same.queue(path.coming_from, path.going_to) == self.queue(
            path.coming_from,
            path.going_to,
        ));
        assert forall|d: Direction, g: Going|
            d != path.coming_from || g != path.going_to implies #[trigger] after.queue(d, g)
            == self.queue(d, g) by {
            assert(after.queue(d, g) == same.queue(d, g));
            assert(same.queue(d, g) == self.queue(d, g));
        }
    }

    /// Having the same lanes, cars, clock and next number carries over from
    /// state to state.
    proof fn lemma_same_traffic_follows(&self, same: &TrafficState, after: &TrafficState)
        requires
            self.same_traffic(same),
            same.same_traffic(after),
        ensures
            self.same_traffic(after),
    {
        assert forall|d: Direction, g: Going| #[trigger] after.path(d, g) == self.path(d, g) by {
            assert(after.path(d, g) == same.path(d, g));
            assert(same.path(d, g) == self.path(d, g));
        }
        assert forall|d: Direction, g: Going| #[trigger] after.queue(d, g) == self.queue(d, g) by {
            assert(after.queue(d, g) == same.queue(d, g));
            assert(same.queue(d, g) == self.queue(d, g));
        }
    }

    /// What holds of a state with a new car holds of every state with the
    /// same lanes, cars, clock and next number.
    proof fn lemma_spawn_carries(
        &self,
        path: Rc<Path>,
        now: u64,
        after: &TrafficState,
        other: &TrafficState,
    )
        requires
            self.with_spawn(path, now, after),
            after.same_traffic(other),
        ensures
            self.with_spawn(path, now, other),
    {
        assert forall|d: Direction, g: Going| #[trigger] other.path(d, g) == self.path(d, g) by {
            assert(other.path(d, g) == after.path(d, g));
            assert(after.path(d, g) == self.path(d, g));
        }
        assert(other.queue(path.coming_from, path.going_to) == after.queue(
            path.coming_from,
            path.going_to,
        ));
        assert forall|d: Direction, g: Going|
            d != path.coming_from || g != path.going_to implies #[trigger] other.queue(d, g)
            == self.queue(d, g) by {
            assert(other.queue(d, g) == after.queue(d, g));
            assert(after.queue(d, g) == self.queue(d, g));
        }
    }
}

} // verus!
