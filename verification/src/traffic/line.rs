//! A line: the three lanes that lead in from one side, and for each the queue
//! of the cars on it.

use std::rc::Rc;
use vstd::prelude::*;
use crate::constant::{CAR_LENGTH, CAR_SAFE_DISTANCE};
use crate::traffic::car::Car;
use crate::traffic::direction::{Direction, Going};
use crate::traffic::path::{lemma_path_ends, share, Path};
use crate::traffic::path_collisions::blocked;
use crate::traffic::queue::{
    append_cars, copy_cars, delay_queue, delayed, lemma_survivors, queue_updated, queue_wf,
    remove_done, survivors, update_queue,
};
use crate::traffic::state::TrafficState;

verus! {

#[derive(Clone, Debug)]
pub struct Line {
    /// The lanes, in the order straight, left, right.
    pub paths: [Rc<Path>; 3],
    /// The queues, indexed by the ordinal of the way that their lane goes.
    pub path_cars: [Vec<Car>; 3],
}

/// Index in `paths` of the lane that goes `going_to`.
pub open spec fn slot(going_to: Going) -> int {
    match going_to {
        Going::Straight => 0,
        Going::Left => 1,
        Going::Right => 2,
    }
}

impl Line {
    /// The lane that goes `going_to`.
    pub open spec fn path(&self, going_to: Going) -> Rc<Path> {
        self.paths[slot(going_to)]
    }

    /// The cars on the lane that goes `going_to`, the oldest first.
    pub open spec fn queue(&self, going_to: Going) -> Seq<Car> {
        self.path_cars[going_to.ordinal()]@
    }

    /// The side that the lanes of the line lead in from.
    pub open spec fn coming_from(&self) -> Direction {
        self.paths[0].coming_from
    }

    /// The three lanes are those from one side, in their order, and every car
    /// is well formed and queues on its own lane.
    pub open spec fn wf(&self) -> bool {
        &&& forall|g: Going|
            {
                &&& (#[trigger] self.path(g)).wf()
                &&& self.path(g).going_to == g
                &&& self.path(g).coming_from == self.coming_from()
            }
        &&& forall|g: Going| queue_wf(#[trigger] self.queue(g), self.path(g))
    }

    /// A lane is free for a new car if no car is on it, or if the car that
    /// appeared on it last is a car's length and the safe distance away from
    /// the border.
    pub open spec fn is_free(&self, going_to: Going) -> bool {
        self.queue(going_to).len() == 0 || self.queue(going_to).last().spec_border_distance()
            >= CAR_LENGTH + CAR_SAFE_DISTANCE
    }

    /// The lanes that are free for a new car, in the order of `paths`.
    pub open spec fn free_paths(&self) -> Seq<Rc<Path>> {
        self.paths@.filter(|p: Rc<Path>| self.is_free(p.going_to))
    }

    /// The cars of the line, queue by queue in the order of the queues.
    pub open spec fn cars(&self) -> Seq<Car> {
        self.queue(Going::Straight) + self.queue(Going::Right) + self.queue(Going::Left)
    }

    /// `other` has the same lanes and equal cars in the same queues.
    pub open spec fn same_traffic(&self, other: &Line) -> bool {
        &&& forall|g: Going| #[trigger] other.path(g) == self.path(g)
        &&& forall|g: Going| #[trigger] other.queue(g) == self.queue(g)
    }

    /// `other` is the line with a new car at the back of the queue of `path`.
    pub open spec fn with_car(&self, car: Car, other: &Line) -> bool {
        &&& other.paths == self.paths
        &&& other.queue(car.path.going_to) == self.queue(car.path.going_to).push(car)
        &&& forall|g: Going| g != car.path.going_to ==> #[trigger] other.queue(g) == self.queue(g)
    }

    /// The lanes of a well-formed line are in order in every line that has
    /// them.
    proof fn lemma_wf_kept(&self, before: Line)
        requires
            before.wf(),
            self.paths == before.paths,
        ensures
            forall|g: Going|
                {
                    &&& (#[trigger] self.path(g)).wf()
                    &&& self.path(g).going_to == g
                    &&& self.path(g).coming_from == self.coming_from()
                },
    {
        assert forall|g: Going|
            {
                &&& (#[trigger] self.path(g)).wf()
                &&& self.path(g).going_to == g
                &&& self.path(g).coming_from == self.coming_from()
            } by {
            assert(before.path(g).wf());
        }
    }

    /// Builds the three lanes that lead in from `coming_from`, with no car on
    /// them.
    pub fn new(coming_from: Direction) -> (line: Line)
        ensures
            line.wf(),
            line.coming_from() == coming_from,
            forall|g: Going| (#[trigger] line.queue(g)).len() == 0,
    {
        Line {
            paths: [
                Rc::new(Path::new(coming_from, Going::Straight)),
                Rc::new(Path::new(coming_from, Going::Left)),
                Rc::new(Path::new(coming_from, Going::Right)),
            ],
            path_cars: [Vec::new(), Vec::new(), Vec::new()],
        }
    }

    /// The cars on the lane that goes the way `path` does.
    pub fn path_cars(&self, path: &Path) -> (cars: &Vec<Car>)
        ensures
            cars@ == self.queue(path.going_to),
    {
        &self.path_cars[path.going_to.index()]
    }

    /// The cars on the lane that goes the way `path` does, to be changed in
    /// place.
    pub fn path_cars_mut(&mut self, path: &Path) -> (cars: &mut Vec<Car>)
        ensures
            cars@ == old(self).queue(path.going_to),
            final(self).queue(path.going_to) == final(cars)@,
            final(self).paths == old(self).paths,
            forall|g: Going| g != path.going_to ==> #[trigger] final(self).queue(g) == old(self).queue(g),
    {
        &mut self.path_cars[path.going_to.index()]
    }

    /// One tick: the cars that are done leave, and every queue is updated from
    /// its oldest car on.
    pub fn update(&mut self, traffic_state: &TrafficState)
        requires
            old(self).wf(),
            traffic_state.wf(),
        ensures
            final(self).wf(),
            final(self).paths == old(self).paths,
            forall|g: Going| #[trigger]
                final(self).queue(g) == queue_updated(
                    survivors(old(self).queue(g)),
                    blocked(old(self).coming_from(), g, *traffic_state),
                ),
    {
        proof {
            assert forall|g: Going, i: int| 0 <= i < self.queue(g).len() implies (
            #[trigger] self.queue(g)[i]).point_index < usize::MAX by {
                assert(queue_wf(self.queue(g), self.path(g)));
            }
        }
        self.remove_cars();
        let ghost removed = *self;
        proof {
            assert(queue_wf(self.queue(Going::Straight), self.path(Going::Straight)));
            assert(queue_wf(self.queue(Going::Right), self.path(Going::Right)));
            assert(queue_wf(self.queue(Going::Left), self.path(Going::Left)));
            assert(self.path(Going::Straight).going_to == Going::Straight);
            assert(self.path(Going::Right).going_to == Going::Right);
            assert(self.path(Going::Left).going_to == Going::Left);
        }
        update_queue(&mut self.path_cars[0], &self.paths[0], traffic_state);
        update_queue(&mut self.path_cars[1], &self.paths[2], traffic_state);
        update_queue(&mut self.path_cars[2], &self.paths[1], traffic_state);
        proof {
            assert(self.queue(Going::Straight) == queue_updated(
                removed.queue(Going::Straight),
                blocked(removed.coming_from(), Going::Straight, *traffic_state),
            ));
            assert(self.queue(Going::Right) == queue_updated(
                removed.queue(Going::Right),
                blocked(removed.coming_from(), Going::Right, *traffic_state),
            ));
            assert(self.queue(Going::Left) == queue_updated(
                removed.queue(Going::Left),
                blocked(removed.coming_from(), Going::Left, *traffic_state),
            ));
        }
        assert forall|g: Going| queue_wf(#[trigger] self.queue(g), self.path(g)) by {
            match g {
                Going::Straight => {},
                Going::Right => {},
                Going::Left => {},
            }
        }
        assert forall|g: Going| #[trigger]
            self.queue(g) == queue_updated(
                survivors(old(self).queue(g)),
                blocked(old(self).coming_from(), g, *traffic_state),
            ) by {
            match g {
                Going::Straight => {},
                Going::Right => {},
                Going::Left => {},
            }
        }
    }

    /// The lanes on which a new car may appear.
    pub fn get_free_paths(&self) -> (paths: Vec<Rc<Path>>)
        requires
            self.wf(),
        ensures
            paths@ == self.free_paths(),
    {
        let ghost free = |p: Rc<Path>| self.is_free(p.going_to);
        let mut paths: Vec<Rc<Path>> = Vec::new();
        let mut k: usize = 0;
        assert(self.paths@.take(0).filter(free) =~= Seq::<Rc<Path>>::empty());
        while k < 3
            invariant
                k <= 3,
                self.wf(),
                free == |p: Rc<Path>| self.is_free(p.going_to),
                paths@ == self.paths@.take(k as int).filter(free),
            decreases 3 - k,
        {
            let path = &self.paths[k];
            let cars = self.path_cars(path);
            proof {
                self.paths@.lemma_take_succ_push(k as int);
                self.paths@.take(k as int).lemma_filter_push(*path, free);
                assert(queue_wf(self.queue(path.going_to), self.path(path.going_to)));
            }
            let free_now = cars.len() == 0 || cars[cars.len() - 1].border_distance() >= CAR_LENGTH
                + CAR_SAFE_DISTANCE;
            if free_now {
                paths.push(share(path));
            }
            k += 1;
        }
        proof {
            self.paths@.lemma_take_len();
        }
        paths
    }

    /// Puts a new car, numbered `id`, at the start of `path` and at the back of
    /// its queue.
    pub fn gen_car(&mut self, path: Rc<Path>, id: usize, now: u64)
        requires
            old(self).wf(),
            path == old(self).path(path.going_to),
        ensures
            final(self).wf(),
            old(self).with_car(Car::spawned(path, id, now), final(self)),
    {
        let going: usize = path.going_to.index();
        let ghost way = path.going_to;
        let car = Car::new(path, id, now);
        self.path_cars[going].push(car);
        proof {
            assert forall|g: Going| queue_wf(#[trigger] self.queue(g), self.path(g)) by {
                assert(queue_wf(old(self).queue(g), old(self).path(g)));
                assert(old(self).path(way).wf());
                match g {
                    Going::Straight => {},
                    Going::Right => {},
                    Going::Left => {},
                }
            }
            self.lemma_wf_kept(*old(self));
        }
    }

    /// A second line with the same lanes and equal cars in the same queues.
    pub fn duplicate(&self) -> (line: Line)
        ensures
            self.same_traffic(&line),
            self.wf() ==> line.wf(),
    {
        let line = Line {
            paths: [share(&self.paths[0]), share(&self.paths[1]), share(&self.paths[2])],
            path_cars: [
                copy_cars(&self.path_cars[0]),
                copy_cars(&self.path_cars[1]),
                copy_cars(&self.path_cars[2]),
            ],
        };
        proof {
            assert forall|g: Going| #[trigger] line.path(g) == self.path(g) by {
                match g {
                    Going::Straight => {},
                    Going::Right => {},
                    Going::Left => {},
                }
            }
            assert forall|g: Going| #[trigger] line.queue(g) == self.queue(g) by {
                match g {
                    Going::Straight => {},
                    Going::Right => {},
                    Going::Left => {},
                }
            }
            if self.wf() {
                assert forall|g: Going| queue_wf(#[trigger] line.queue(g), line.path(g)) by {
                    assert(queue_wf(self.queue(g), self.path(g)));
                }
                assert forall|g: Going|
                    {
                        &&& (#[trigger] line.path(g)).wf()
                        &&& line.path(g).going_to == g
                        &&& line.path(g).coming_from == line.coming_from()
                    } by {
                    assert(self.path(g).wf());
                    assert(line.path(Going::Straight) == self.path(Going::Straight));
                }
            }
        }
        line
    }

    /// Adds a copy of each car of the line to the end of `out`, queue by
    /// queue.
    pub fn collect_cars(&self, out: &mut Vec<Car>)
        ensures
            final(out)@ == old(out)@ + self.cars(),
    {
        append_cars(out, &self.path_cars[0]);
        append_cars(out, &self.path_cars[1]);
        append_cars(out, &self.path_cars[2]);
        assert(out@ =~= old(out)@ + self.cars());
    }

    /// Moves the time of appearance of every car of the line on by `by`
    /// milliseconds; a time that would pass the end of the clock stays there.
    pub fn delay(&mut self, by: u64)
        ensures
            old(self).wf() ==> final(self).wf(),
            final(self).paths == old(self).paths,
            forall|g: Going| #[trigger] final(self).queue(g) == delayed(old(self).queue(g), by),
    {
        delay_queue(&mut self.path_cars[0], by);
        delay_queue(&mut self.path_cars[1], by);
        delay_queue(&mut self.path_cars[2], by);
        assert forall|g: Going| #[trigger] self.queue(g) == delayed(old(self).queue(g), by) by {
            match g {
                Going::Straight => {},
                Going::Right => {},
                Going::Left => {},
            }
        }
        proof {
            if old(self).wf() {
                self.lemma_wf_kept(*old(self));
            }
        }
    }

    /// Drops the cars that are done from every queue.
    pub fn remove_cars(&mut self)
        requires
            forall|g: Going, i: int|
                0 <= i < old(self).queue(g).len() ==> (#[trigger] old(self).queue(g)[i]).point_index
                    < usize::MAX,
        ensures
            old(self).wf() ==> final(self).wf(),
            final(self).paths == old(self).paths,
            forall|g: Going| #[trigger] final(self).queue(g) == survivors(old(self).queue(g)),
    {
        proof {
            assert(forall|i: int|
                0 <= i < self.queue(Going::Straight).len() ==> (#[trigger] self.queue(
                    Going::Straight,
                )[i]).point_index < usize::MAX);
            assert(forall|i: int|
                0 <= i < self.queue(Going::Right).len() ==> (#[trigger] self.queue(
                    Going::Right,
                )[i]).point_index < usize::MAX);
            assert(forall|i: int|
                0 <= i < self.queue(Going::Left).len() ==> (#[trigger] self.queue(
                    Going::Left,
                )[i]).point_index < usize::MAX);
            if self.wf() {
                assert(queue_wf(self.queue(Going::Straight), self.path(Going::Straight)));
                assert(queue_wf(self.queue(Going::Right), self.path(Going::Right)));
                assert(queue_wf(self.queue(Going::Left), self.path(Going::Left)));
                lemma_survivors(self.queue(Going::Straight), self.path(Going::Straight));
                lemma_survivors(self.queue(Going::Right), self.path(Going::Right));
                lemma_survivors(self.queue(Going::Left), self.path(Going::Left));
            }
        }
        remove_done(&mut self.path_cars[0]);
        remove_done(&mut self.path_cars[1]);
        remove_done(&mut self.path_cars[2]);
        assert forall|g: Going| #[trigger] self.queue(g) == survivors(old(self).queue(g)) by {
            match g {
                Going::Straight => {},
                Going::Right => {},
                Going::Left => {},
            }
        }
        proof {
            if old(self).wf() {
                assert forall|g: Going| queue_wf(#[trigger] self.queue(g), self.path(g)) by {
                    match g {
                        Going::Straight => {},
                        Going::Right => {},
                        Going::Left => {},
                    }
                }
                self.lemma_wf_kept(*old(self));
            }
        }
    }
}

/// The lanes that a line offers to a new car are its own lanes that are free,
/// and all of them.
pub proof fn lemma_free_paths(line: Line)
    requires
        line.wf(),
    ensures
        forall|p: Rc<Path>| #[trigger]
            line.free_paths().contains(p) ==> p == line.path(p.going_to) && line.is_free(
                p.going_to,
            ),
        forall|g: Going| line.is_free(g) ==> line.free_paths().contains(#[trigger] line.path(g)),
{
    let free = |p: Rc<Path>| line.is_free(p.going_to);
    assert forall|p: Rc<Path>| #[trigger] line.free_paths().contains(p) implies p == line.path(
        p.going_to,
    ) && line.is_free(p.going_to) by {
        let k = choose|k: int| 0 <= k < line.free_paths().len() && line.free_paths()[k] == p;
        line.paths@.lemma_filter_pred(free, k);
        line.paths@.lemma_filter_contains_rev(free, p);
        let j = choose|j: int| 0 <= j < line.paths@.len() && line.paths@[j] == p;
        assert(line.path(Going::Straight).going_to == Going::Straight);
        assert(line.path(Going::Left).going_to == Going::Left);
        assert(line.path(Going::Right).going_to == Going::Right);
    }
    assert forall|g: Going| line.is_free(g) implies line.free_paths().contains(
        #[trigger] line.path(g),
    ) by {
        assert(line.path(g).going_to == g);
        assert(line.paths@[slot(g)] == line.path(g));
        line.paths@.lemma_filter_contains(free, slot(g));
    }
}

/// A line without cars offers all three of its lanes.
pub proof fn lemma_empty_line_is_free(line: Line)
    requires
        forall|g: Going| (#[trigger] line.queue(g)).len() == 0,
    ensures
        line.free_paths() == line.paths@,
        line.free_paths().len() == 3,
{
    let free = |p: Rc<Path>| line.is_free(p.going_to);
    let paths = line.paths@;
    assert(paths.len() == 3);
    assert forall|k: int| 0 <= k < 3 implies free(#[trigger] paths[k]) by {
        assert(line.queue(paths[k].going_to).len() == 0);
    }
    reveal_with_fuel(Seq::filter, 4);
    assert(paths.drop_last().drop_last().drop_last() =~= Seq::<Rc<Path>>::empty());
    assert(paths.filter(free) =~= paths);
}

/// A car that has just appeared takes its lane: the lane is not offered
/// again while that car is the last on it and less than a car's length and
/// the safe distance from the border.
pub proof fn lemma_new_car_takes_lane(line: Line, after: Line, path: Rc<Path>, id: usize, now: u64)
    requires
        line.wf(),
        after.wf(),
        path == line.path(path.going_to),
        line.with_car(Car::spawned(path, id, now), &after),
    ensures
        Car::spawned(path, id, now).spec_border_distance() == 0,
        !after.is_free(path.going_to),
        !after.free_paths().contains(path),
{
    let car = Car::spawned(path, id, now);
    assert(line.path(path.going_to).wf());
    lemma_path_ends(path.coming_from, path.going_to);
    assert(after.queue(path.going_to).last() == car);
    lemma_free_paths(after);
}

} // verus!
