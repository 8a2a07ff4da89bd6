use std::rc::Rc;

use smart_road::geometry::Point;
use smart_road::traffic::{Car, Direction, Going, Line, Path, TrafficState};

fn ways(paths: &Vec<Rc<Path>>) -> Vec<Going> {
    paths.iter().map(|p| p.going_to).collect()
}

#[test]
fn new_line_has_its_three_paths_and_no_car() {
    let line = Line::new(Direction::East);
    assert_eq!(*line.paths[0], Path::new(Direction::East, Going::Straight));
    assert_eq!(*line.paths[1], Path::new(Direction::East, Going::Left));
    assert_eq!(*line.paths[2], Path::new(Direction::East, Going::Right));
    for cars in &line.path_cars {
        assert!(cars.is_empty());
    }
}

#[test]
fn empty_line_offers_all_three_paths() {
    let line = Line::new(Direction::North);
    let free = line.get_free_paths();
    assert_eq!(ways(&free), vec![Going::Straight, Going::Left, Going::Right]);
    for (k, path) in free.iter().enumerate() {
        assert!(Rc::ptr_eq(path, &line.paths[k]));
    }
}

#[test]
fn new_car_takes_its_path_until_it_is_far_enough_from_the_border() {
    let mut line = Line::new(Direction::North);
    let left = Rc::clone(&line.paths[1]);
    line.gen_car(left, 3, 99);
    assert_eq!(ways(&line.get_free_paths()), vec![Going::Straight, Going::Right]);
    line.path_cars[2][0].pos = Point { x: 333_750, y: 159_999 };
    assert_eq!(ways(&line.get_free_paths()), vec![Going::Straight, Going::Right]);
    line.path_cars[2][0].pos = Point { x: 333_750, y: 160_000 };
    assert_eq!(ways(&line.get_free_paths()), vec![Going::Straight, Going::Left, Going::Right]);
}

#[test]
fn only_the_last_car_of_a_queue_counts() {
    let mut line = Line::new(Direction::West);
    let straight = Rc::clone(&line.paths[0]);
    line.gen_car(Rc::clone(&straight), 0, 0);
    line.path_cars[0][0].pos = Point { x: 400_000, y: 417_500 };
    assert_eq!(line.get_free_paths().len(), 3);
    line.gen_car(straight, 1, 0);
    assert_eq!(ways(&line.get_free_paths()), vec![Going::Left, Going::Right]);
    line.path_cars[0][1].pos = Point { x: 200_000, y: 417_500 };
    line.path_cars[0][0].pos = Point { x: 0, y: 417_500 };
    assert_eq!(line.get_free_paths().len(), 3);
}

#[test]
fn gen_car_appends_to_the_queue_of_its_path() {
    let mut line = Line::new(Direction::South);
    let right = Rc::clone(&line.paths[2]);
    let straight = Rc::clone(&line.paths[0]);
    line.gen_car(Rc::clone(&right), 5, 10);
    line.gen_car(Rc::clone(&right), 6, 20);
    line.gen_car(straight, 7, 30);
    assert_eq!(line.path_cars[0].len(), 1);
    assert_eq!(line.path_cars[1].len(), 2);
    assert_eq!(line.path_cars[2].len(), 0);
    assert_eq!(line.path_cars[1][0].id, 5);
    assert_eq!(line.path_cars[1][1].id, 6);
    assert_eq!(line.path_cars[1][1].start_time, 20);
    assert_eq!(line.path_cars[1][1].pos, Point { x: 468_750, y: 700_000 });
    assert_eq!(line.path_cars[1][1].velocity, 4_000);
    assert_eq!(line.path_cars[1][1].point_index, 0);
    assert!(Rc::ptr_eq(&line.path_cars[1][1].path, &right));
    assert_eq!(line.path_cars[0][0].id, 7);
}

#[test]
fn path_cars_are_found_by_the_way_of_the_path() {
    let mut line = Line::new(Direction::South);
    let right = Rc::clone(&line.paths[2]);
    let left = Rc::clone(&line.paths[1]);
    let straight = Rc::clone(&line.paths[0]);
    line.gen_car(Rc::clone(&right), 5, 10);
    line.gen_car(Rc::clone(&left), 6, 10);
    assert_eq!(line.path_cars(&right).len(), 1);
    assert_eq!(line.path_cars(&right)[0].id, 5);
    assert_eq!(line.path_cars(&left)[0].id, 6);
    assert!(line.path_cars(&straight).is_empty());
    line.path_cars_mut(&left)[0].velocity = 123;
    assert_eq!(line.path_cars[2][0].velocity, 123);
    line.path_cars_mut(&straight).push(Car::new(Rc::clone(&straight), 9, 0));
    assert_eq!(line.path_cars[0][0].id, 9);
    assert_eq!(line.path_cars[1].len(), 1);
}

#[test]
fn remove_cars_drops_the_done_and_keeps_the_order() {
    let mut line = Line::new(Direction::North);
    let straight = Rc::clone(&line.paths[0]);
    let left = Rc::clone(&line.paths[1]);
    for id in 0..5 {
        line.gen_car(Rc::clone(&straight), id, 0);
    }
    line.gen_car(Rc::clone(&left), 5, 0);
    line.gen_car(Rc::clone(&left), 6, 0);
    line.path_cars[0][0].point_index = 3;
    line.path_cars[0][2].point_index = 3;
    line.path_cars[0][3].point_index = 2;
    line.path_cars[2][1].point_index = 104;
    line.remove_cars();
    let ids: Vec<usize> = line.path_cars[0].iter().map(|c| c.id).collect();
    assert_eq!(ids, vec![1, 3, 4]);
    assert_eq!(line.path_cars[0][1].point_index, 2);
    let ids: Vec<usize> = line.path_cars[2].iter().map(|c| c.id).collect();
    assert_eq!(ids, vec![5]);
    assert!(line.path_cars[1].is_empty());
    line.remove_cars();
    assert_eq!(line.path_cars[0].len(), 3);
}

#[test]
fn update_gives_each_car_the_updated_car_before_it() {
    let state = TrafficState::new(0);
    let mut line = Line::new(Direction::North);
    let straight = Rc::clone(&line.paths[0]);
    line.gen_car(Rc::clone(&straight), 0, 0);
    line.gen_car(Rc::clone(&straight), 1, 0);
    line.path_cars[0][0].point_index = 1;
    line.path_cars[0][0].pos = Point { x: 282_500, y: 259_000 };
    line.update(&state);
    // The car in front has moved on to 263000 before the one behind looks:
    // that is room enough to roll, though not where it stood before.
    assert_eq!(line.path_cars[0][0].pos, Point { x: 282_500, y: 263_000 });
    assert_eq!(line.path_cars[0][0].velocity, 4_000);
    assert_eq!(line.path_cars[0][1].velocity, 2_000);
    assert_eq!(line.path_cars[0][1].pos, Point { x: 282_500, y: 2_000 });
    let ids: Vec<usize> = line.path_cars[0].iter().map(|c| c.id).collect();
    assert_eq!(ids, vec![0, 1]);
}

#[test]
fn update_removes_done_cars_first_and_updates_every_queue() {
    let state = TrafficState::new(0);
    let mut line = Line::new(Direction::North);
    let straight = Rc::clone(&line.paths[0]);
    let left = Rc::clone(&line.paths[1]);
    let right = Rc::clone(&line.paths[2]);
    line.gen_car(Rc::clone(&straight), 0, 0);
    line.gen_car(Rc::clone(&straight), 1, 0);
    line.gen_car(left, 2, 0);
    line.gen_car(right, 3, 0);
    line.path_cars[0][0].point_index = 3;
    line.path_cars[0][0].pos = Point { x: 282_500, y: 100_000 };
    line.update(&state);
    // The car that was done is gone, so the car behind it has a free way.
    assert_eq!(line.path_cars[0].len(), 1);
    assert_eq!(line.path_cars[0][0].id, 1);
    assert_eq!(line.path_cars[0][0].pos, Point { x: 282_500, y: 2_000 });
    assert_eq!(line.path_cars[2][0].pos, Point { x: 333_750, y: 2_000 });
    assert_eq!(line.path_cars[1][0].pos, Point { x: 231_250, y: 2_000 });
    assert_eq!(line.path_cars[1][0].id, 3);
}

#[test]
fn duplicate_line_is_equal_and_apart() {
    let mut line = Line::new(Direction::West);
    let straight = Rc::clone(&line.paths[0]);
    line.gen_car(straight, 4, 2);
    let mut copy = line.duplicate();
    assert!(Rc::ptr_eq(&copy.paths[0], &line.paths[0]));
    assert_eq!(copy.path_cars[0].len(), 1);
    assert_eq!(copy.path_cars[0][0].id, 4);
    copy.path_cars[0][0].velocity = 1;
    assert_eq!(line.path_cars[0][0].velocity, 4_000);
}

#[test]
fn delay_moves_every_start_time() {
    let mut line = Line::new(Direction::West);
    let straight = Rc::clone(&line.paths[0]);
    let left = Rc::clone(&line.paths[1]);
    line.gen_car(Rc::clone(&straight), 0, 100);
    line.gen_car(straight, 1, 200);
    line.gen_car(left, 2, u64::MAX - 5);
    line.delay(50);
    assert_eq!(line.path_cars[0][0].start_time, 150);
    assert_eq!(line.path_cars[0][1].start_time, 250);
    assert_eq!(line.path_cars[2][0].start_time, u64::MAX);
}

#[test]
fn collect_cars_goes_queue_by_queue() {
    let mut line = Line::new(Direction::West);
    let straight = Rc::clone(&line.paths[0]);
    let left = Rc::clone(&line.paths[1]);
    let right = Rc::clone(&line.paths[2]);
    line.gen_car(left, 0, 0);
    line.gen_car(right, 1, 0);
    line.gen_car(Rc::clone(&straight), 2, 0);
    line.gen_car(straight, 3, 0);
    let mut out = vec![Car::new(Rc::clone(&line.paths[0]), 77, 0)];
    line.collect_cars(&mut out);
    let ids: Vec<usize> = out.iter().map(|c| c.id).collect();
    assert_eq!(ids, vec![77, 2, 3, 1, 0]);
}
