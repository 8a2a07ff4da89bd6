//! Queues: the cars on one lane, the oldest first, and what a tick makes of
//! them.

use std::rc::Rc;
use vstd::prelude::*;
use crate::constant::{CAR_SAFE_DISTANCE, MAX_SPEED};
use crate::geometry::Point;
use crate::traffic::car::{
    lemma_moving_car_keeps_room, lemma_updated_id, lemma_updated_wf, room_under, Car,
};
use crate::traffic::path::Path;
use crate::traffic::path_collisions::blocked;
use crate::traffic::state::TrafficState;

verus! {

/// Every car of the queue is well formed and on the lane `path`.
pub open spec fn queue_wf(queue: Seq<Car>, path: Rc<Path>) -> bool {
    forall|i: int| 0 <= i < queue.len() ==> (#[trigger] queue[i]).wf() && queue[i].path == path
}

/// The cars of a queue that still have a waypoint to head for, in their order.
pub open spec fn survivors(queue: Seq<Car>) -> Seq<Car> {
    queue.filter(|car: Car| !car.spec_is_done())
}

/// The position of the last car of a queue, if it has one.
pub open spec fn tail_position(queue: Seq<Car>) -> Option<Point> {
    if queue.len() == 0 {
        None
    } else {
        Some(queue.last().pos)
    }
}

/// A queue after one tick: its cars are updated from the oldest on, each with
/// the car before it, as that one stands after its own update, as the car
/// ahead. `yields` says whether the lane gives way to crossing traffic.
pub open spec fn queue_updated(queue: Seq<Car>, yields: bool) -> Seq<Car>
    decreases queue.len(),
{
    if queue.len() == 0 {
        queue
    } else {
        let front = queue_updated(queue.drop_last(), yields);
        front.push(queue.last().updated(tail_position(front), yields))
    }
}

/// The numbers of the cars of a queue, in its order.
pub open spec fn queue_ids(queue: Seq<Car>) -> Seq<usize> {
    queue.map_values(|car: Car| car.id)
}

/// A queue with the time of appearance of every car moved on by `by`.
pub open spec fn delayed(queue: Seq<Car>, by: u64) -> Seq<Car> {
    queue.map_values(|car: Car| car.delayed(by))
}

/// Where in `queue` the car stood that is the `i`-th of its survivors.
pub open spec fn origin(queue: Seq<Car>, i: int) -> int
    decreases queue.len(),
{
    if queue.len() == 0 {
        0
    } else if !queue.last().spec_is_done() && i == survivors(queue.drop_last()).len() {
        queue.len() - 1
    } else {
        origin(queue.drop_last(), i)
    }
}

/// The numbers of the cars of a queue go up from the front to the back.
pub open spec fn ids_increase(queue: Seq<Car>) -> bool {
    forall|i: int, j: int|
        0 <= i < j < queue.len() ==> (#[trigger] queue[i]).id < (#[trigger] queue[j]).id
}

/// Every number in the queue is below `bound`.
pub open spec fn ids_below(queue: Seq<Car>, bound: int) -> bool {
    forall|i: int| 0 <= i < queue.len() ==> (#[trigger] queue[i]).id < bound
}

/// No car of the one queue has the number of a car of the other.
pub open spec fn ids_apart(a: Seq<Car>, b: Seq<Car>) -> bool {
    forall|i: int, j: int|
        0 <= i < a.len() && 0 <= j < b.len() ==> (#[trigger] a[i]).id != (#[trigger] b[j]).id
}

/// Drops the cars that are done from a queue and keeps the others in their
/// order.
pub(crate) fn remove_done(cars: &mut Vec<Car>)
    requires
        forall|i: int| 0 <= i < old(cars)@.len() ==> (#[trigger] old(cars)@[i]).point_index < usize::MAX,
    ensures
        final(cars)@ == survivors(old(cars)@),
{
    let ghost alive = |car: Car| !car.spec_is_done();
    let mut kept: Vec<Car> = Vec::new();
    let mut i: usize = 0;
    assert(cars@.take(0).filter(alive) =~= Seq::<Car>::empty());
    while i < cars.len()
        invariant
            i <= cars@.len(),
            cars@ == old(cars)@,
            alive == |car: Car| !car.spec_is_done(),
            forall|k: int| 0 <= k < cars@.len() ==> (#[trigger] cars@[k]).point_index < usize::MAX,
            kept@ == cars@.take(i as int).filter(alive),
        decreases cars@.len() - i,
    {
        proof {
            cars@.lemma_take_succ_push(i as int);
            cars@.take(i as int).lemma_filter_push(cars@[i as int], alive);
        }
        if !cars[i].is_done() {
            kept.push(cars[i].duplicate());
        }
        i += 1;
    }
    proof {
        cars@.lemma_take_len();
    }
    *cars = kept;
}

/// Updates the cars of one queue, the oldest first.
pub(crate) fn update_queue(cars: &mut Vec<Car>, path: &Rc<Path>, traffic_state: &TrafficState)
    requires
        queue_wf(old(cars)@, *path),
        traffic_state.wf(),
    ensures
        final(cars)@ == queue_updated(
            old(cars)@,
            blocked(path.coming_from, path.going_to, *traffic_state),
        ),
        queue_wf(final(cars)@, *path),
{
    let ghost start = cars@;
    let ghost yields = blocked(path.coming_from, path.going_to, *traffic_state);
    let n: usize = cars.len();
    let mut i: usize = 0;
    assert(cars@.take(0) =~= queue_updated(start.take(0), yields));
    while i < n
        invariant
            i <= n,
            n == start.len(),
            cars@.len() == n,
            traffic_state.wf(),
            queue_wf(start, *path),
            queue_wf(cars@, *path),
            yields == blocked(path.coming_from, path.going_to, *traffic_state),
            cars@.take(i as int) == queue_updated(start.take(i as int), yields),
            forall|j: int| i <= j < n ==> cars@[j] == start[j],
        decreases n - i,
    {
        let ghost before = cars@;
        let ghost front = queue_updated(start.take(i as int), yields);
        proof {
            lemma_queue_updated(start.take(i as int), yields);
            assert(start.take(i + 1).drop_last() =~= start.take(i as int));
            assert(start.take(i + 1).last() == start[i as int]);
            if i > 0 {
                assert(before.take(i as int)[i - 1] == before[i - 1]);
            }
        }
        if i == 0 {
            cars[i].update(None, traffic_state);
        } else {
            let prev = cars[i - 1].duplicate();
            cars[i].update(Some(&prev), traffic_state);
        }
        proof {
            lemma_updated_id(before[i as int], tail_position(front), yields);
            assert(cars@ =~= before.update(i as int, cars@[i as int]));
            assert(cars@.take(i + 1) =~= before.take(i as int).push(cars@[i as int]));
        }
        i += 1;
    }
    proof {
        cars@.lemma_take_len();
        start.lemma_take_len();
    }
}

/// A list with equal cars in the same order.
pub(crate) fn copy_cars(cars: &Vec<Car>) -> (copy: Vec<Car>)
    ensures
        copy@ == cars@,
{
    let mut copy: Vec<Car> = Vec::with_capacity(cars.len());
    append_cars(&mut copy, cars);
    assert(copy@ =~= cars@);
    copy
}

/// Adds a copy of each of `cars`, in their order, to the end of `out`.
pub(crate) fn append_cars(out: &mut Vec<Car>, cars: &Vec<Car>)
    ensures
        final(out)@ == old(out)@ + cars@,
{
    let mut i: usize = 0;
    assert(out@ =~= old(out)@ + cars@.take(0));
    while i < cars.len()
        invariant
            i <= cars@.len(),
            out@ == old(out)@ + cars@.take(i as int),
        decreases cars@.len() - i,
    {
        out.push(cars[i].duplicate());
        proof {
            cars@.lemma_take_succ_push(i as int);
            assert(out@ =~= old(out)@ + cars@.take(i + 1));
        }
        i += 1;
    }
    proof {
        cars@.lemma_take_len();
    }
}

/// Moves the time of appearance of every car of the queue on by `by`.
pub(crate) fn delay_queue(cars: &mut Vec<Car>, by: u64)
    ensures
        final(cars)@ == delayed(old(cars)@, by),
{
    let n: usize = cars.len();
    let mut i: usize = 0;
    while i < n
        invariant
            i <= n,
            n == old(cars)@.len(),
            cars@.len() == n,
            forall|k: int| 0 <= k < i ==> cars@[k] == (#[trigger] old(cars)@[k]).delayed(by),
            forall|k: int| i <= k < n ==> cars@[k] == old(cars)@[k],
        decreases n - i,
    {
        let moved: u64 = cars[i].start_time.saturating_add(by);
        cars[i].start_time = moved;
        i += 1;
    }
    assert(cars@ =~= delayed(old(cars)@, by));
}

/// A tick keeps every car of a queue in its place, under its number, on its
/// lane and well formed.
pub proof fn lemma_queue_updated(queue: Seq<Car>, yields: bool)
    ensures
        queue_updated(queue, yields).len() == queue.len(),
        forall|i: int|
            0 <= i < queue.len() ==> {
                &&& (#[trigger] queue_updated(queue, yields)[i]).id == queue[i].id
                &&& queue_updated(queue, yields)[i].path == queue[i].path
                &&& queue_updated(queue, yields)[i].start_time == queue[i].start_time
                &&& queue[i].wf() ==> queue_updated(queue, yields)[i].wf()
            },
        queue_ids(queue_updated(queue, yields)) == queue_ids(queue),
    decreases queue.len(),
{
    if queue.len() > 0 {
        let front = queue_updated(queue.drop_last(), yields);
        lemma_queue_updated(queue.drop_last(), yields);
        let ahead = tail_position(front);
        assert forall|i: int| 0 <= i < queue.len() implies {
            &&& (#[trigger] queue_updated(queue, yields)[i]).id == queue[i].id
            &&& queue_updated(queue, yields)[i].path == queue[i].path
            &&& queue_updated(queue, yields)[i].start_time == queue[i].start_time
            &&& queue[i].wf() ==> queue_updated(queue, yields)[i].wf()
        } by {
            if i == queue.len() - 1 {
                lemma_updated_id(queue.last(), ahead, yields);
                if queue[i].wf() {
                    lemma_updated_wf(queue.last(), ahead, yields);
                }
            } else {
                assert(queue.drop_last()[i] == queue[i]);
            }
        }
    }
    assert(queue_ids(queue_updated(queue, yields)) =~= queue_ids(queue));
}

/// What a tick makes of a car of a queue does not depend on the cars behind
/// it.
pub proof fn lemma_queue_updated_front(queue: Seq<Car>, yields: bool, n: int)
    requires
        0 <= n <= queue.len(),
    ensures
        queue_updated(queue.take(n), yields) == queue_updated(queue, yields).take(n),
    decreases queue.len(),
{
    if n == queue.len() {
        assert(queue.take(n) =~= queue);
        lemma_queue_updated(queue, yields);
        assert(queue_updated(queue, yields).take(n) =~= queue_updated(queue, yields));
    } else {
        let rest = queue.drop_last();
        lemma_queue_updated_front(rest, yields, n);
        lemma_queue_updated(rest, yields);
        assert(rest.take(n) =~= queue.take(n));
        assert(queue_updated(queue, yields).take(n) =~= queue_updated(rest, yields).take(n));
    }
}

/// No car of a queue drives into the car before it: a car that moves in a
/// tick ends it with no less room behind the car before it, as that one
/// stands after the tick, than twice the safe distance, less what three ticks
/// at full speed cover.
pub proof fn lemma_tick_keeps_room(queue: Seq<Car>, path: Rc<Path>, yields: bool, i: int)
    requires
        queue_wf(queue, path),
        0 < i < queue.len(),
        queue_updated(queue, yields)[i].pos != queue[i].pos,
    ensures
        !room_under(
            queue_updated(queue, yields)[i - 1].pos,
            queue_updated(queue, yields)[i].pos,
            2 * CAR_SAFE_DISTANCE - 3 * MAX_SPEED,
        ),
{
    let after = queue_updated(queue, yields);
    let upto = queue.take(i + 1);
    lemma_queue_updated_front(queue, yields, i + 1);
    lemma_queue_updated(queue, yields);
    let front = queue_updated(upto.drop_last(), yields);
    assert(upto.drop_last() =~= queue.take(i));
    lemma_queue_updated_front(queue, yields, i);
    lemma_queue_updated(queue.take(i), yields);
    assert(upto.last() == queue[i]);
    assert(after.take(i + 1)[i] == after[i]);
    assert(after.take(i)[i - 1] == after[i - 1]);
    assert(front.last() == after[i - 1]);
    assert(after[i] == queue[i].updated(Some(after[i - 1].pos), yields));
    assert(queue[i - 1].wf());
    assert(after[i - 1].wf());
    lemma_moving_car_keeps_room(queue[i], after[i - 1].pos, yields);
}

/// The cars that survive a removal are cars of the queue, in their order: the
/// ones that were done are gone and no other.
pub proof fn lemma_survivors(queue: Seq<Car>, path: Rc<Path>)
    requires
        queue_wf(queue, path),
    ensures
        queue_wf(survivors(queue), path),
        forall|i: int| 0 <= i < survivors(queue).len() ==> !(#[trigger] survivors(queue)[i]).spec_is_done(),
{
    let alive = |car: Car| !car.spec_is_done();
    assert forall|i: int| 0 <= i < survivors(queue).len() implies (#[trigger] survivors(
        queue,
    )[i]).wf() && survivors(queue)[i].path == path && !survivors(queue)[i].spec_is_done() by {
        queue.lemma_filter_pred(alive, i);
        let car = survivors(queue)[i];
        assert(survivors(queue).contains(car));
        queue.lemma_filter_contains_rev(alive, car);
    }
}

/// The survivors of a queue with one more car at its back.
pub proof fn lemma_survivors_push(queue: Seq<Car>, car: Car)
    ensures
        survivors(queue.push(car)) == if car.spec_is_done() {
            survivors(queue)
        } else {
            survivors(queue).push(car)
        },
{
    queue.lemma_filter_push(car, |c: Car| !c.spec_is_done());
}

/// Every survivor is the car that stood at its origin, and was not done.
pub proof fn lemma_origin(queue: Seq<Car>, i: int)
    requires
        0 <= i < survivors(queue).len(),
    ensures
        0 <= origin(queue, i) < queue.len(),
        queue[origin(queue, i)] == survivors(queue)[i],
        !queue[origin(queue, i)].spec_is_done(),
    decreases queue.len(),
{
    if queue.len() > 0 {
        let rest = queue.drop_last();
        assert(queue =~= rest.push(queue.last()));
        lemma_survivors_push(rest, queue.last());
        if !(!queue.last().spec_is_done() && i == survivors(rest).len()) {
            lemma_origin(rest, i);
        }
    } else {
        assert(survivors(queue) =~= Seq::<Car>::empty()) by {
            queue.lemma_filter_len(|c: Car| !c.spec_is_done());
        }
    }
}

/// Survivors stand in the order in which they stood in the queue: of two, the
/// one in front stood in front.
pub proof fn lemma_origin_increasing(queue: Seq<Car>, i: int, j: int)
    requires
        0 <= i < j < survivors(queue).len(),
    ensures
        0 <= origin(queue, i) < origin(queue, j) < queue.len(),
    decreases queue.len(),
{
    if queue.len() > 0 {
        let rest = queue.drop_last();
        assert(queue =~= rest.push(queue.last()));
        lemma_survivors_push(rest, queue.last());
        if !queue.last().spec_is_done() && j == survivors(rest).len() {
            lemma_origin(rest, i);
        } else {
            lemma_origin_increasing(rest, i, j);
        }
    } else {
        assert(survivors(queue) =~= Seq::<Car>::empty()) by {
            queue.lemma_filter_len(|c: Car| !c.spec_is_done());
        }
    }
}

/// Every car that is not done survives: it is the origin of a survivor.
pub proof fn lemma_living_survive(queue: Seq<Car>, k: int) -> (i: int)
    requires
        0 <= k < queue.len(),
        !queue[k].spec_is_done(),
    ensures
        0 <= i < survivors(queue).len(),
        origin(queue, i) == k,
    decreases queue.len(),
{
    let rest = queue.drop_last();
    assert(queue =~= rest.push(queue.last()));
    lemma_survivors_push(rest, queue.last());
    if k == queue.len() - 1 {
        survivors(rest).len() as int
    } else {
        let i = lemma_living_survive(rest, k);
        i
    }
}

/// A tick takes the cars that were done off a queue, and no others: every car
/// that is left was not done before the tick, and every car that was not done
/// is left, under its number.
pub proof fn lemma_tick_removes_the_done(queue: Seq<Car>, yields: bool)
    ensures
        forall|i: int|
            0 <= i < queue_updated(survivors(queue), yields).len() ==> {
                &&& 0 <= origin(queue, i) < queue.len()
                &&& !queue[origin(queue, i)].spec_is_done()
                &&& (#[trigger] queue_updated(survivors(queue), yields)[i]).id == queue[origin(
                    queue,
                    i,
                )].id
            },
        forall|k: int|
            0 <= k < queue.len() && !(#[trigger] queue[k]).spec_is_done() ==> exists|i: int|
                0 <= i < queue_updated(survivors(queue), yields).len() && #[trigger] origin(queue, i)
                    == k,
{
    let after = queue_updated(survivors(queue), yields);
    lemma_queue_updated(survivors(queue), yields);
    assert forall|i: int| 0 <= i < after.len() implies {
        &&& 0 <= origin(queue, i) < queue.len()
        &&& !queue[origin(queue, i)].spec_is_done()
        &&& (#[trigger] after[i]).id == queue[origin(queue, i)].id
    } by {
        lemma_origin(queue, i);
    }
    assert forall|k: int| 0 <= k < queue.len() && !(#[trigger] queue[k]).spec_is_done() implies exists|
        i: int,
    | 0 <= i < after.len() && #[trigger] origin(queue, i) == k by {
        let i = lemma_living_survive(queue, k);
        assert(0 <= i < after.len() && origin(queue, i) == k);
    }
}

/// A tick does not reorder a queue: the cars that are left after it are cars
/// that stood in the queue before it, under the same numbers, and of any two
/// of them the one in front stood in front before.
pub proof fn lemma_tick_keeps_order(queue: Seq<Car>, yields: bool, i: int, j: int)
    requires
        0 <= i < j < queue_updated(survivors(queue), yields).len(),
    ensures
        0 <= origin(queue, i) < origin(queue, j) < queue.len(),
        queue_updated(survivors(queue), yields)[i].id == queue[origin(queue, i)].id,
        queue_updated(survivors(queue), yields)[j].id == queue[origin(queue, j)].id,
{
    lemma_queue_updated(survivors(queue), yields);
    lemma_origin_increasing(queue, i, j);
    lemma_origin(queue, i);
    lemma_origin(queue, j);
}

/// A tick keeps the numbers of a queue going up, and below what they were
/// below.
pub proof fn lemma_tick_keeps_ids(queue: Seq<Car>, yields: bool, bound: int)
    requires
        ids_increase(queue),
        ids_below(queue, bound),
    ensures
        ids_increase(queue_updated(survivors(queue), yields)),
        ids_below(queue_updated(survivors(queue), yields), bound),
{
    let after = queue_updated(survivors(queue), yields);
    lemma_queue_updated(survivors(queue), yields);
    assert forall|i: int, j: int| 0 <= i < j < after.len() implies (#[trigger] after[i]).id < (
    #[trigger] after[j]).id by {
        lemma_tick_keeps_order(queue, yields, i, j);
    }
    assert forall|i: int| 0 <= i < after.len() implies (#[trigger] after[i]).id < bound by {
        lemma_origin(queue, i);
    }
}

/// Two queues that share no number share none after a tick.
pub proof fn lemma_tick_keeps_apart(a: Seq<Car>, yields_a: bool, b: Seq<Car>, yields_b: bool)
    requires
        ids_apart(a, b),
    ensures
        ids_apart(
            queue_updated(survivors(a), yields_a),
            queue_updated(survivors(b), yields_b),
        ),
{
    let after_a = queue_updated(survivors(a), yields_a);
    let after_b = queue_updated(survivors(b), yields_b);
    lemma_queue_updated(survivors(a), yields_a);
    lemma_queue_updated(survivors(b), yields_b);
    assert forall|i: int, j: int| 0 <= i < after_a.len() && 0 <= j < after_b.len() implies (
    #[trigger] after_a[i]).id != (#[trigger] after_b[j]).id by {
        lemma_origin(a, i);
        lemma_origin(b, j);
        assert(a[origin(a, i)].id != b[origin(b, j)].id);
    }
}

} // verus!
