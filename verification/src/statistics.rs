//! What an observer records of the traffic, tick by tick: the extremes of
//! speed and of travel time, and the pairs of cars that came too close.

use vstd::prelude::*;
use crate::constant::CAR_SAFE_DISTANCE;
use crate::geometry::{dist2, distance_squared};
use crate::traffic::car::Car;
use crate::traffic::state::TrafficState;

verus! {

#[derive(Clone, Debug)]
pub struct Statistics {
    /// Number of cars that were asked for.
    pub car_count: usize,
    /// Greatest velocity seen of any car.
    pub max_speed: i64,
    /// Least velocity seen of any car, once one has been seen.
    pub min_speed: Option<i64>,
    /// Longest time, in milliseconds, that a car took from border to border.
    pub max_time: u64,
    /// Shortest such time, once a car has arrived.
    pub min_time: Option<u64>,
    /// Pairs of cars that were seen at the same point.
    pub collisions: Vec<(usize, usize)>,
    /// Pairs of cars that were seen too close to each other.
    pub close_calls: Vec<(usize, usize)>,
    /// Whether the simulation is paused and the record shown.
    pub is_open: bool,
}

/// The record as a value: what `Statistics` holds, with its lists as
/// sequences.
pub struct Record {
    pub car_count: usize,
    pub max_speed: i64,
    pub min_speed: Option<i64>,
    pub max_time: u64,
    pub min_time: Option<u64>,
    pub collisions: Seq<(usize, usize)>,
    pub close_calls: Seq<(usize, usize)>,
    pub is_open: bool,
}

/// The time from `start` to `now`; nothing if `start` is later.
pub open spec fn elapsed(start: u64, now: u64) -> u64 {
    if now >= start {
        (now - start) as u64
    } else {
        0
    }
}

/// Two cars are on the same lane.
pub open spec fn same_lane(a: Car, b: Car) -> bool {
    a.path.coming_from == b.path.coming_from && a.path.going_to == b.path.going_to
}

/// Two cars are less than half the safe distance apart.
pub open spec fn too_close(a: Car, b: Car) -> bool {
    dist2(a.pos, b.pos) < (CAR_SAFE_DISTANCE / 2) * (CAR_SAFE_DISTANCE / 2)
}

impl Record {
    /// The record before anything was seen.
    pub open spec fn empty() -> Record {
        Record {
            car_count: 0,
            max_speed: 0,
            min_speed: None,
            max_time: 0,
            min_time: None,
            collisions: Seq::empty(),
            close_calls: Seq::empty(),
            is_open: false,
        }
    }

    /// The record with one more car asked for.
    pub open spec fn counted(self) -> Record {
        Record { car_count: (self.car_count + 1) as usize, ..self }
    }

    /// The record with the pause switched.
    pub open spec fn switched(self) -> Record {
        Record { is_open: !self.is_open, ..self }
    }

    /// The record after a car was seen at the velocity `v`.
    pub open spec fn with_speed(self, v: i64) -> Record {
        Record {
            max_speed: if v > self.max_speed {
                v
            } else {
                self.max_speed
            },
            min_speed: Some(
                match self.min_speed {
                    Some(least) if least <= v => least,
                    _ => v,
                },
            ),
            ..self
        }
    }

    /// The record after the cars `a` and `b` were seen together. If they are at
    /// the same point, the pair is noted as a collision and as a close call,
    /// unless it is among the collisions already. If they are on one lane and
    /// too close, it is noted as a close call, unless it is among those
    /// already.
    pub open spec fn with_pair(self, a: Car, b: Car) -> Record {
        let pair = (a.id, b.id);
        let hit = a.pos == b.pos && !self.collisions.contains(pair);
        let noted = if hit {
            self.close_calls.push(pair)
        } else {
            self.close_calls
        };
        let near = same_lane(a, b) && too_close(a, b) && !noted.contains(pair);
        Record {
            collisions: if hit {
                self.collisions.push(pair)
            } else {
                self.collisions
            },
            close_calls: if near {
                noted.push(pair)
            } else {
                noted
            },
            ..self
        }
    }

    /// The record after the car `i` of `cars` was seen together with each of
    /// the cars from `i + 1` up to, but without, `upto`.
    pub open spec fn with_pairs(self, cars: Seq<Car>, i: int, upto: int) -> Record
        decreases upto - i,
    {
        if upto <= i + 1 {
            self
        } else {
            self.with_pairs(cars, i, upto - 1).with_pair(cars[i], cars[upto - 1])
        }
    }

    /// The record after a car was seen that is done, if `car` is: its time on
    /// the road counts for the longest and the shortest.
    pub open spec fn with_arrival(self, car: Car, now: u64) -> Record {
        if car.spec_is_done() {
            let time = elapsed(car.start_time, now);
            Record {
                max_time: if time > self.max_time {
                    time
                } else {
                    self.max_time
                },
                min_time: Some(
                    match self.min_time {
                        Some(least) if least <= time => least,
                        _ => time,
                    },
                ),
                ..self
            }
        } else {
            self
        }
    }

    /// The record after the car `i` of `cars` was looked at: its speed, the
    /// pairs that it makes with the cars behind it in `cars`, and its arrival.
    pub open spec fn with_car(self, cars: Seq<Car>, i: int, now: u64) -> Record {
        self.with_speed(cars[i].velocity).with_pairs(cars, i, cars.len() as int).with_arrival(
            cars[i],
            now,
        )
    }

    /// The record after the first `n` of `cars` were looked at, in their
    /// order.
    pub open spec fn with_cars(self, cars: Seq<Car>, n: int, now: u64) -> Record
        decreases n,
    {
        if n <= 0 {
            self
        } else {
            self.with_cars(cars, n - 1, now).with_car(cars, n - 1, now)
        }
    }
}

/// No pair stands twice in the list.
pub open spec fn no_pair_twice(pairs: Seq<(usize, usize)>) -> bool {
    forall|i: int, j: int| 0 <= i < j < pairs.len() ==> pairs[i] != pairs[j]
}

/// What the record learns from two cars: nothing is forgotten, and no pair is
/// noted as a collision twice.
pub proof fn lemma_with_pair(record: Record, a: Car, b: Car)
    ensures
        record.collisions.is_prefix_of(record.with_pair(a, b).collisions),
        record.close_calls.is_prefix_of(record.with_pair(a, b).close_calls),
        no_pair_twice(record.collisions) ==> no_pair_twice(record.with_pair(a, b).collisions),
        a.pos == b.pos ==> record.with_pair(a, b).collisions.contains((a.id, b.id)),
        same_lane(a, b) && too_close(a, b) ==> record.with_pair(a, b).close_calls.contains(
            (a.id, b.id),
        ),
        record.with_pair(a, b).max_speed == record.max_speed,
        record.with_pair(a, b).min_speed == record.min_speed,
        record.with_pair(a, b).max_time == record.max_time,
        record.with_pair(a, b).min_time == record.min_time,
        record.with_pair(a, b).car_count == record.car_count,
        record.with_pair(a, b).is_open == record.is_open,
{
    let pair = (a.id, b.id);
    let after = record.with_pair(a, b);
    let hit = a.pos == b.pos && !record.collisions.contains(pair);
    let noted = if hit {
        record.close_calls.push(pair)
    } else {
        record.close_calls
    };
    if hit {
        assert(after.collisions[record.collisions.len() as int] == pair);
        assert(noted[record.close_calls.len() as int] == pair);
    }
    if same_lane(a, b) && too_close(a, b) {
        if noted.contains(pair) {
            let k = choose|k: int| 0 <= k < noted.len() && noted[k] == pair;
            assert(after.close_calls[k] == pair);
        } else {
            assert(after.close_calls[noted.len() as int] == pair);
        }
    }
    if a.pos == b.pos && !hit {
        assert(after.collisions.contains(pair));
    }
}

/// What the record learns from a car and the cars behind it in the list.
pub proof fn lemma_with_pairs(record: Record, cars: Seq<Car>, i: int, upto: int)
    requires
        0 <= i,
        upto <= cars.len(),
    ensures
        record.collisions.is_prefix_of(record.with_pairs(cars, i, upto).collisions),
        record.close_calls.is_prefix_of(record.with_pairs(cars, i, upto).close_calls),
        no_pair_twice(record.collisions) ==> no_pair_twice(
            record.with_pairs(cars, i, upto).collisions,
        ),
        forall|k: int|
            i < k < upto && cars[i].pos == (#[trigger] cars[k]).pos ==> record.with_pairs(
                cars,
                i,
                upto,
            ).collisions.contains((cars[i].id, cars[k].id)),
        record.with_pairs(cars, i, upto).max_speed == record.max_speed,
        record.with_pairs(cars, i, upto).min_speed == record.min_speed,
        record.with_pairs(cars, i, upto).max_time == record.max_time,
        record.with_pairs(cars, i, upto).min_time == record.min_time,
        record.with_pairs(cars, i, upto).car_count == record.car_count,
        record.with_pairs(cars, i, upto).is_open == record.is_open,
    decreases upto - i,
{
    if upto > i + 1 {
        let before = record.with_pairs(cars, i, upto - 1);
        lemma_with_pairs(record, cars, i, upto - 1);
        lemma_with_pair(before, cars[i], cars[upto - 1]);
        let after = before.with_pair(cars[i], cars[upto - 1]);
        assert forall|k: int|
            i < k < upto && cars[i].pos == (#[trigger] cars[k]).pos implies after.collisions.contains(
            (cars[i].id, cars[k].id),
        ) by {
            if k < upto - 1 {
                let pair = (cars[i].id, cars[k].id);
                let at = choose|at: int| 0 <= at < before.collisions.len() && before.collisions[at]
                    == pair;
                assert(after.collisions[at] == pair);
            }
        }
    }
}

/// What the record holds after the first `n` cars of a tick were looked at.
/// Nothing that was noted is forgotten and no collision is noted twice. The
/// greatest speed is not less, and the least not more, than the speed of any
/// car looked at; the count of cars and the pause are as they were.
pub proof fn lemma_with_cars(record: Record, cars: Seq<Car>, n: int, now: u64)
    requires
        0 <= n <= cars.len(),
    ensures
        record.collisions.is_prefix_of(record.with_cars(cars, n, now).collisions),
        record.close_calls.is_prefix_of(record.with_cars(cars, n, now).close_calls),
        no_pair_twice(record.collisions) ==> no_pair_twice(record.with_cars(cars, n, now).collisions),
        record.with_cars(cars, n, now).max_speed >= record.max_speed,
        record.with_cars(cars, n, now).max_time >= record.max_time,
        forall|k: int|
            0 <= k < n ==> {
                &&& (#[trigger] cars[k]).velocity <= record.with_cars(cars, n, now).max_speed
                &&& record.with_cars(cars, n, now).min_speed is Some
                &&& record.with_cars(cars, n, now).min_speed->0 <= cars[k].velocity
            },
        forall|k: int|
            0 <= k < n && (#[trigger] cars[k]).spec_is_done() ==> {
                &&& elapsed(cars[k].start_time, now) <= record.with_cars(cars, n, now).max_time
                &&& record.with_cars(cars, n, now).min_time is Some
                &&& record.with_cars(cars, n, now).min_time->0 <= elapsed(cars[k].start_time, now)
            },
        forall|k: int, m: int|
            0 <= k < m < cars.len() && k < n && (#[trigger] cars[k]).pos == (#[trigger] cars[m]).pos
                ==> record.with_cars(cars, n, now).collisions.contains((cars[k].id, cars[m].id)),
        record.with_cars(cars, n, now).car_count == record.car_count,
        record.with_cars(cars, n, now).is_open == record.is_open,
    decreases n,
{
    if n > 0 {
        let before = record.with_cars(cars, n - 1, now);
        lemma_with_cars(record, cars, n - 1, now);
        let seen = before.with_speed(cars[n - 1].velocity);
        lemma_with_pairs(seen, cars, n - 1, cars.len() as int);
        let paired = seen.with_pairs(cars, n - 1, cars.len() as int);
        let after = paired.with_arrival(cars[n - 1], now);
        assert(after == record.with_cars(cars, n, now));
        assert forall|k: int, m: int|
            0 <= k < m < cars.len() && k < n && (#[trigger] cars[k]).pos == (
            #[trigger] cars[m]).pos implies after.collisions.contains((cars[k].id, cars[m].id)) by {
            if k < n - 1 {
                let pair = (cars[k].id, cars[m].id);
                let at = choose|at: int| 0 <= at < before.collisions.len() && before.collisions[at]
                    == pair;
                assert(after.collisions[at] == pair);
            }
        }
    }
}

/// Whether `pair` is in `pairs`.
fn holds(pairs: &Vec<(usize, usize)>, pair: (usize, usize)) -> (found: bool)
    ensures
        found == pairs@.contains(pair),
{
    let mut i: usize = 0;
    while i < pairs.len()
        invariant
            i <= pairs@.len(),
            forall|k: int| 0 <= k < i ==> pairs@[k] != pair,
        decreases pairs@.len() - i,
    {
        if pairs[i].0 == pair.0 && pairs[i].1 == pair.1 {
            return true;
        }
        i += 1;
    }
    false
}

/// A list with the same pairs in the same order.
fn copy_pairs(pairs: &Vec<(usize, usize)>) -> (copy: Vec<(usize, usize)>)
    ensures
        copy@ == pairs@,
{
    let mut copy: Vec<(usize, usize)> = Vec::with_capacity(pairs.len());
    let mut i: usize = 0;
    while i < pairs.len()
        invariant
            i <= pairs@.len(),
            copy@ == pairs@.take(i as int),
        decreases pairs@.len() - i,
    {
        proof {
            pairs@.lemma_take_succ_push(i as int);
        }
        copy.push(pairs[i]);
        i += 1;
    }
    proof {
        pairs@.lemma_take_len();
    }
    copy
}

impl Default for Statistics {
    fn default() -> (statistics: Self)
        ensures
            statistics@ == Record::empty(),
    {
        Statistics {
            car_count: 0,
            max_speed: 0,
            min_speed: None,
            max_time: 0,
            min_time: None,
            collisions: Vec::new(),
            close_calls: Vec::new(),
            is_open: false,
        }
    }
}

impl Statistics {
    pub open spec fn view(&self) -> Record {
        Record {
            car_count: self.car_count,
            max_speed: self.max_speed,
            min_speed: self.min_speed,
            max_time: self.max_time,
            min_time: self.min_time,
            collisions: self.collisions@,
            close_calls: self.close_calls@,
            is_open: self.is_open,
        }
    }

    /// A second record that holds the same.
    pub fn duplicate(&self) -> (copy: Statistics)
        ensures
            copy@ == self@,
    {
        Statistics {
            car_count: self.car_count,
            max_speed: self.max_speed,
            min_speed: self.min_speed,
            max_time: self.max_time,
            min_time: self.min_time,
            collisions: copy_pairs(&self.collisions),
            close_calls: copy_pairs(&self.close_calls),
            is_open: self.is_open,
        }
    }

    /// Looks at every car of `traffic_state`, line by line and queue by queue,
    /// and brings the record up to date: see `Record::with_cars`.
    pub fn update(&mut self, traffic_state: &TrafficState, now: u64)
        requires
            traffic_state.wf(),
        ensures
            final(self)@ == old(self)@.with_cars(
                traffic_state.all_cars(),
                traffic_state.all_cars().len() as int,
                now,
            ),
    {
        let cars = traffic_state.cars();
        let n: usize = cars.len();
        let mut i: usize = 0;
        while i < n
            invariant
                i <= n,
                n == cars@.len(),
                forall|k: int| 0 <= k < n ==> (#[trigger] cars@[k]).wf(),
                self@ == old(self)@.with_cars(cars@, i as int, now),
            decreases n - i,
        {
            let car = &cars[i];
            let ghost before = self@;
            if car.velocity > self.max_speed {
                self.max_speed = car.velocity;
            }
            self.min_speed = Some(
                match self.min_speed {
                    Some(least) if least <= car.velocity => least,
                    _ => car.velocity,
                },
            );
            let ghost seen = self@;
            assert(seen == before.with_speed(car.velocity));
            let mut j: usize = i + 1;
            while j < n
                invariant
                    i < j <= n,
                    n == cars@.len(),
                    *car == cars@[i as int],
                    forall|k: int| 0 <= k < n ==> (#[trigger] cars@[k]).wf(),
                    self@ == seen.with_pairs(cars@, i as int, j as int),
                decreases n - j,
            {
                let other = &cars[j];
                let pair = (car.id, other.id);
                let ghost record = self@;
                if car.pos == other.pos && !holds(&self.collisions, pair) {
                    self.collisions.push(pair);
                    self.close_calls.push(pair);
                }
                let limit: i64 = CAR_SAFE_DISTANCE / 2;
                assert(limit * limit == 2_500_000_000) by (nonlinear_arith)
                    requires
                        limit == 50_000,
                ;
                if car.path.coming_from == other.path.coming_from && car.path.going_to
                    == other.path.going_to && distance_squared(car.pos, other.pos) < limit * limit
                    && !holds(&self.close_calls, pair) {
                    self.close_calls.push(pair);
                }
                assert(self@ == record.with_pair(*car, *other));
                j += 1;
            }
            if car.is_done() {
                let time: u64 = if now >= car.start_time {
                    now - car.start_time
                } else {
                    0
                };
                if time > self.max_time {
                    self.max_time = time;
                }
                self.min_time = Some(
                    match self.min_time {
                        Some(least) if least <= time => least,
                        _ => time,
                    },
                );
            }
            i += 1;
        }
    }
}

} // verus!
