use std::rc::Rc;

use smart_road::geometry::Point;
use smart_road::traffic::{Direction, Going, TrafficState};

fn count_cars(state: &TrafficState) -> usize {
    state.lines.iter().map(|l| l.path_cars.iter().map(|q| q.len()).sum::<usize>()).sum()
}

#[test]
fn new_state_is_empty() {
    let state = TrafficState::new(42);
    assert_eq!(state.pause_time, 42);
    assert_eq!(state.next_id, 0);
    assert_eq!(count_cars(&state), 0);
    assert_eq!(state.statistics.car_count, 0);
    assert!(!state.statistics.is_open);
    assert_eq!(state.statistics.max_speed, 0);
    assert_eq!(state.statistics.min_speed, None);
    assert_eq!(state.statistics.max_time, 0);
    assert_eq!(state.statistics.min_time, None);
    assert!(state.statistics.collisions.is_empty());
    assert!(state.statistics.close_calls.is_empty());
    let sides = [Direction::North, Direction::East, Direction::South, Direction::West];
    for (k, line) in state.lines.iter().enumerate() {
        assert_eq!(line.paths[0].coming_from, sides[k]);
        assert_eq!(line.paths[0].going_to, Going::Straight);
        assert_eq!(line.paths[1].coming_from, sides[k]);
        assert_eq!(line.paths[1].going_to, Going::Left);
        assert_eq!(line.paths[2].coming_from, sides[k]);
        assert_eq!(line.paths[2].going_to, Going::Right);
    }
}

#[test]
fn spawn_puts_a_car_on_the_chosen_path() {
    let mut state = TrafficState::new(0);
    let path = Rc::clone(&state.lines[2].paths[1]);
    state.spawn(Some(Rc::clone(&path)), 77);
    assert_eq!(state.next_id, 1);
    assert_eq!(count_cars(&state), 1);
    let car = &state.lines[2].path_cars[2][0];
    assert_eq!(car.id, 0);
    assert_eq!(car.start_time, 77);
    assert_eq!(car.pos, Point { x: 366_250, y: 700_000 });
    assert_eq!(car.velocity, 4_000);
    assert!(Rc::ptr_eq(&car.path, &path));
    state.spawn(Some(path), 78);
    assert_eq!(state.next_id, 2);
    assert_eq!(state.lines[2].path_cars[2][1].id, 1);
    assert_eq!(state.statistics.car_count, 0);
}

#[test]
fn spawn_without_a_path_changes_nothing() {
    let mut state = TrafficState::new(0);
    state.spawn(None, 5);
    assert_eq!(state.next_id, 0);
    assert_eq!(count_cars(&state), 0);
    assert_eq!(state.statistics.car_count, 0);
}

#[test]
fn gen_car_puts_a_car_on_a_free_path_of_that_side() {
    let mut state = TrafficState::new(0);
    state.gen_car(Direction::West, 500);
    assert_eq!(state.statistics.car_count, 1);
    assert_eq!(state.next_id, 1);
    assert_eq!(count_cars(&state), 1);
    let line = &state.lines[3];
    let cars: Vec<_> = line.path_cars.iter().flatten().collect();
    assert_eq!(cars.len(), 1);
    assert_eq!(cars[0].id, 0);
    assert_eq!(cars[0].start_time, 500);
    assert_eq!(cars[0].path.coming_from, Direction::West);
    assert_eq!(cars[0].pos.x, 0);
    assert!(line.paths.iter().any(|p| Rc::ptr_eq(p, &cars[0].path)));
    assert_eq!(line.path_cars[cars[0].path.going_to.index()].len(), 1);
}

#[test]
fn gen_car_fills_the_three_paths_and_then_drops_the_request() {
    let mut state = TrafficState::new(0);
    for k in 0..3 {
        state.gen_car(Direction::North, k);
    }
    assert_eq!(state.statistics.car_count, 3);
    for queue in &state.lines[0].path_cars {
        assert_eq!(queue.len(), 1);
    }
    let mut ids: Vec<usize> = state.lines[0].path_cars.iter().map(|q| q[0].id).collect();
    ids.sort();
    assert_eq!(ids, vec![0, 1, 2]);
    state.gen_car(Direction::North, 9);
    assert_eq!(state.statistics.car_count, 4);
    assert_eq!(state.next_id, 3);
    assert_eq!(count_cars(&state), 3);
    for k in 1..4 {
        for queue in &state.lines[k].path_cars {
            assert!(queue.is_empty());
        }
    }
}

#[test]
fn gen_car_picks_among_the_free_paths_only() {
    for _ in 0..50 {
        let mut state = TrafficState::new(0);
        let straight = Rc::clone(&state.lines[1].paths[0]);
        let right = Rc::clone(&state.lines[1].paths[2]);
        state.spawn(Some(straight), 0);
        state.spawn(Some(right), 0);
        state.gen_car(Direction::East, 1);
        assert_eq!(state.lines[1].path_cars[0].len(), 1);
        assert_eq!(state.lines[1].path_cars[1].len(), 1);
        assert_eq!(state.lines[1].path_cars[2].len(), 1);
        assert_eq!(state.lines[1].path_cars[2][0].id, 2);
    }
}

#[test]
fn gen_car_reaches_every_free_path() {
    let mut seen = [false; 3];
    for _ in 0..200 {
        let mut state = TrafficState::new(0);
        state.gen_car(Direction::South, 0);
        for (k, queue) in state.lines[2].path_cars.iter().enumerate() {
            if !queue.is_empty() {
                seen[k] = true;
            }
        }
    }
    assert_eq!(seen, [true, true, true]);
}

#[test]
fn gen_car_random_fills_all_twelve_paths_and_then_does_nothing() {
    let mut state = TrafficState::new(0);
    for k in 0..12 {
        state.gen_car_random(k);
        assert_eq!(count_cars(&state), k as usize + 1);
        assert_eq!(state.statistics.car_count, k as usize + 1);
    }
    for line in &state.lines {
        for queue in &line.path_cars {
            assert_eq!(queue.len(), 1);
            assert_eq!(queue[0].velocity, 4_000);
        }
    }
    state.gen_car_random(99);
    assert_eq!(count_cars(&state), 12);
    assert_eq!(state.statistics.car_count, 12);
    assert_eq!(state.next_id, 12);
}

#[test]
fn gen_car_random_puts_each_car_on_its_own_line() {
    let mut state = TrafficState::new(0);
    for k in 0..12 {
        state.gen_car_random(k);
    }
    let sides = [Direction::North, Direction::East, Direction::South, Direction::West];
    let ways = [Going::Straight, Going::Right, Going::Left];
    let mut ids = vec![];
    for (l, line) in state.lines.iter().enumerate() {
        for (q, queue) in line.path_cars.iter().enumerate() {
            assert_eq!(queue[0].path.coming_from, sides[l]);
            assert_eq!(queue[0].path.going_to, ways[q]);
            ids.push(queue[0].id);
        }
    }
    ids.sort();
    assert_eq!(ids, (0..12).collect::<Vec<usize>>());
}

#[test]
fn pause_leaves_the_cars_alone_and_resume_moves_their_start_times() {
    let mut state = TrafficState::new(0);
    let path = Rc::clone(&state.lines[0].paths[0]);
    state.spawn(Some(path), 100);
    state.toggle_pause(1_000);
    assert!(state.statistics.is_open);
    assert_eq!(state.pause_time, 1_000);
    assert_eq!(state.lines[0].path_cars[0][0].start_time, 100);
    state.toggle_pause(1_600);
    assert!(!state.statistics.is_open);
    assert_eq!(state.pause_time, 1_000);
    let start = state.lines[0].path_cars[0][0].start_time;
    assert_eq!(start, 700);
    // At 2000 the car has been on the road for 1900 less the 600 of the pause.
    assert_eq!(2_000 - start, 1_300);
    assert_eq!(state.next_id, 1);
    assert_eq!(state.statistics.car_count, 0);
}

#[test]
fn resume_moves_every_car_of_every_line() {
    let mut state = TrafficState::new(0);
    for k in 0..12 {
        state.gen_car_random(10 * k);
    }
    let before: Vec<u64> =
        state.lines.iter().flat_map(|l| l.path_cars.iter().flatten()).map(|c| c.start_time).collect();
    state.toggle_pause(500);
    state.toggle_pause(750);
    let after: Vec<u64> =
        state.lines.iter().flat_map(|l| l.path_cars.iter().flatten()).map(|c| c.start_time).collect();
    assert_eq!(before.len(), 12);
    for k in 0..12 {
        assert_eq!(after[k], before[k] + 250);
    }
}

#[test]
fn resume_before_the_pause_moves_nothing_and_the_clock_does_not_run_over() {
    let mut state = TrafficState::new(0);
    let path = Rc::clone(&state.lines[0].paths[0]);
    state.spawn(Some(Rc::clone(&path)), 100);
    state.toggle_pause(1_000);
    state.toggle_pause(400);
    assert_eq!(state.lines[0].path_cars[0][0].start_time, 100);
    state.spawn(Some(path), u64::MAX - 10);
    state.toggle_pause(0);
    state.toggle_pause(1_000);
    assert_eq!(state.lines[0].path_cars[0][0].start_time, 1_100);
    assert_eq!(state.lines[0].path_cars[0][1].start_time, u64::MAX);
}

#[test]
fn update_moves_every_car_against_the_state_before_the_tick() {
    let mut state = TrafficState::new(0);
    let north = Rc::clone(&state.lines[0].paths[0]);
    let east = Rc::clone(&state.lines[1].paths[0]);
    state.spawn(Some(north), 0);
    state.spawn(Some(east), 0);
    // The car from the north is about to enter; the one from the east is one
    // step short of its first waypoint.
    state.lines[0].path_cars[0][0].pos = Point { x: 282_500, y: 100_000 };
    state.lines[0].path_cars[0][0].velocity = 2_000;
    state.lines[1].path_cars[0][0].pos = Point { x: 594_000, y: 282_500 };
    state.lines[1].path_cars[0][0].velocity = 2_000;
    state.update(1);
    // Nobody was inside before the tick, so nobody gave way. The car from
    // the east is inside now.
    assert_eq!(state.lines[0].path_cars[0][0].pos, Point { x: 282_500, y: 102_000 });
    assert_eq!(state.lines[1].path_cars[0][0].point_index, 1);
    assert_eq!(state.lines[1].path_cars[0][0].pos, Point { x: 591_800, y: 282_500 });
    state.update(2);
    // Now the car from the north stops for it: it is within half the safe
    // distance of the end of its run in.
    assert_eq!(state.lines[0].path_cars[0][0].velocity, 0);
    assert_eq!(state.lines[0].path_cars[0][0].pos, Point { x: 282_500, y: 102_000 });
    assert_eq!(state.lines[1].path_cars[0][0].velocity, 2_420);
    assert_eq!(state.next_id, 2);
}

#[test]
fn update_drops_a_car_in_the_tick_after_it_has_arrived() {
    let mut state = TrafficState::new(0);
    let path = Rc::clone(&state.lines[0].paths[0]);
    state.spawn(Some(path), 1_000);
    let mut ticks = 0;
    while !state.lines[0].path_cars[0][0].is_done() {
        ticks += 1;
        state.update(1_000 + 16 * ticks);
    }
    assert_eq!(ticks, 204);
    assert_eq!(count_cars(&state), 1);
    assert_eq!(state.statistics.max_time, 0);
    state.update(1_000 + 16 * 205);
    assert_eq!(count_cars(&state), 0);
    assert_eq!(state.statistics.max_time, 16 * 205);
    assert_eq!(state.statistics.min_time, Some(16 * 205));
    assert_eq!(state.statistics.max_speed, 4_000);
    assert_eq!(state.statistics.min_speed, Some(2_000));
    state.update(1_000 + 16 * 206);
    assert_eq!(state.statistics.max_time, 16 * 205);
}

#[test]
fn snapshot_is_equal_and_apart() {
    let mut state = TrafficState::new(3);
    for k in 0..5 {
        state.gen_car_random(k);
    }
    state.toggle_pause(9);
    let copy = state.snapshot();
    assert_eq!(copy.pause_time, 9);
    assert_eq!(copy.next_id, 5);
    assert_eq!(copy.statistics.car_count, 5);
    assert!(copy.statistics.is_open);
    for l in 0..4 {
        for k in 0..3 {
            assert!(Rc::ptr_eq(&copy.lines[l].paths[k], &state.lines[l].paths[k]));
            assert_eq!(copy.lines[l].path_cars[k].len(), state.lines[l].path_cars[k].len());
            for (a, b) in copy.lines[l].path_cars[k].iter().zip(&state.lines[l].path_cars[k]) {
                assert_eq!(a.id, b.id);
                assert_eq!(a.pos, b.pos);
                assert!(Rc::ptr_eq(&a.path, &b.path));
            }
        }
    }
    state.update(10);
    assert_eq!(count_cars(&copy), 5);
    for line in &copy.lines {
        for car in line.path_cars.iter().flatten() {
            assert_eq!(car.velocity, 4_000);
        }
    }
}

#[test]
fn cars_are_listed_line_by_line() {
    let mut state = TrafficState::new(0);
    let order = [(3, 0), (0, 1), (0, 0), (2, 2), (1, 1)];
    for (line, path) in order {
        let path = Rc::clone(&state.lines[line].paths[path]);
        state.spawn(Some(path), 0);
    }
    let ids: Vec<usize> = state.cars().iter().map(|c| c.id).collect();
    // North straight, north left; east left; south right; west straight.
    assert_eq!(ids, vec![2, 1, 4, 3, 0]);
}
