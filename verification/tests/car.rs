use std::rc::Rc;

use smart_road::geometry::Point;
use smart_road::traffic::car::CarStatus;
use smart_road::traffic::{Car, Direction, Going, Path, TrafficState};

fn car_on(d: Direction, g: Going) -> Car {
    Car::new(Rc::new(Path::new(d, g)), 0, 0)
}

/// A state with one car inside the intersection on the lane from the east
/// that goes straight, which crosses the lanes from the north.
fn state_with_crossing_traffic() -> TrafficState {
    let mut state = TrafficState::new(0);
    let path = Rc::clone(&state.lines[1].paths[0]);
    state.spawn(Some(path), 0);
    state.lines[1].path_cars[0][0].point_index = 1;
    state.lines[1].path_cars[0][0].pos = Point { x: 500_000, y: 282_500 };
    state
}

#[test]
fn new_car_stands_on_the_border_at_full_speed() {
    let path = Rc::new(Path::new(Direction::West, Going::Left));
    let car = Car::new(Rc::clone(&path), 17, 1_234);
    assert_eq!(car.id, 17);
    assert_eq!(car.start_time, 1_234);
    assert_eq!(car.velocity, 4_000);
    assert_eq!(car.pos, Point { x: 0, y: 366_250 });
    assert_eq!(car.heading, Point { x: 1, y: 0 });
    assert_eq!(car.point_index, 0);
    assert!(Rc::ptr_eq(&car.path, &path));
    assert_eq!(car.border_distance(), 0);
    assert!(car.get_status() == CarStatus::BeforeTurn);
    assert!(!car.is_done());
}

#[test]
fn status_follows_the_progress_index() {
    let mut car = car_on(Direction::North, Going::Straight);
    assert!(car.get_status() == CarStatus::BeforeTurn);
    car.point_index = 1;
    assert!(car.get_status() == CarStatus::Turning);
    car.point_index = 2;
    assert!(car.get_status() == CarStatus::Turning);
    car.point_index = 3;
    assert!(car.get_status() == CarStatus::AfterTurn);
    let mut turn = car_on(Direction::North, Going::Left);
    turn.point_index = 103;
    assert!(turn.get_status() == CarStatus::Turning);
    turn.point_index = 104;
    assert!(turn.get_status() == CarStatus::AfterTurn);
}

#[test]
fn done_once_no_waypoint_is_left() {
    let mut car = car_on(Direction::North, Going::Straight);
    assert!(!car.is_done());
    assert_eq!(car.get_move_vector(), Some(Point { x: 0, y: 107_500 }));
    car.point_index = 2;
    car.pos = Point { x: 282_000, y: 600_000 };
    assert!(!car.is_done());
    assert_eq!(car.get_move_vector(), Some(Point { x: 500, y: 100_000 }));
    car.point_index = 3;
    assert!(car.is_done());
    assert_eq!(car.get_move_vector(), None);
}

#[test]
fn border_distance_is_measured_from_the_side_of_entry() {
    let at = Point { x: 100_000, y: 250_000 };
    let mut car = car_on(Direction::North, Going::Straight);
    car.pos = at;
    assert_eq!(car.border_distance(), 250_000);
    let mut car = car_on(Direction::East, Going::Straight);
    car.pos = at;
    assert_eq!(car.border_distance(), 600_000);
    let mut car = car_on(Direction::South, Going::Straight);
    car.pos = at;
    assert_eq!(car.border_distance(), 450_000);
    let mut car = car_on(Direction::West, Going::Straight);
    car.pos = at;
    assert_eq!(car.border_distance(), 100_000);
}

#[test]
fn duplicate_is_equal_and_shares_the_path() {
    let mut car = car_on(Direction::South, Going::Right);
    car.velocity = 3_210;
    car.point_index = 5;
    car.pos = Point { x: 1, y: 2 };
    car.heading = Point { x: 3, y: 4 };
    let copy = car.duplicate();
    assert_eq!(copy.id, car.id);
    assert_eq!(copy.velocity, 3_210);
    assert_eq!(copy.point_index, 5);
    assert_eq!(copy.pos, car.pos);
    assert_eq!(copy.heading, car.heading);
    assert_eq!(copy.start_time, car.start_time);
    assert!(Rc::ptr_eq(&copy.path, &car.path));
}

#[test]
fn free_way_before_the_turn_is_capped_at_min_speed() {
    let state = TrafficState::new(0);
    let mut car = car_on(Direction::North, Going::Straight);
    assert_eq!(car.update_velocity(None, &state), 2_000);
    car.velocity = 1_500;
    assert_eq!(car.update_velocity(None, &state), 1_650);
    car.velocity = 1_819;
    assert_eq!(car.update_velocity(None, &state), 2_000);
    car.velocity = 1_818;
    assert_eq!(car.update_velocity(None, &state), 1_999);
}

#[test]
fn free_way_after_the_first_waypoint_is_capped_at_max_speed() {
    let state = TrafficState::new(0);
    let mut car = car_on(Direction::North, Going::Straight);
    car.point_index = 1;
    car.velocity = 2_000;
    assert_eq!(car.update_velocity(None, &state), 2_200);
    car.velocity = 2_662;
    assert_eq!(car.update_velocity(None, &state), 2_928);
    car.velocity = 3_700;
    assert_eq!(car.update_velocity(None, &state), 4_000);
    car.velocity = 4_000;
    assert_eq!(car.update_velocity(None, &state), 4_000);
    car.point_index = 3;
    car.velocity = 3_000;
    assert_eq!(car.update_velocity(None, &state), 3_300);
}

#[test]
fn stopped_car_pulls_away_from_the_rolling_speed() {
    let state = TrafficState::new(0);
    let mut car = car_on(Direction::North, Going::Straight);
    car.velocity = 0;
    assert_eq!(car.update_velocity(None, &state), 1_100);
    car.velocity = 999;
    assert_eq!(car.update_velocity(None, &state), 1_100);
    car.velocity = 1_000;
    assert_eq!(car.update_velocity(None, &state), 1_100);
    car.velocity = 1_001;
    assert_eq!(car.update_velocity(None, &state), 1_101);
}

#[test]
fn car_ahead_within_twice_the_safe_distance_stops_the_car() {
    let state = TrafficState::new(0);
    let car = car_on(Direction::North, Going::Straight);
    let mut ahead = car_on(Direction::North, Going::Straight);
    // The room is the distance less the length of a car: 259999 - 60000.
    ahead.pos = Point { x: 282_500, y: 259_999 };
    assert_eq!(car.update_velocity(Some(&ahead), &state), 0);
    ahead.pos = Point { x: 282_500, y: 60_000 };
    assert_eq!(car.update_velocity(Some(&ahead), &state), 0);
    ahead.pos = car.pos;
    assert_eq!(car.update_velocity(Some(&ahead), &state), 0);
    // Also for a car that has passed its first waypoint.
    let mut turning = car_on(Direction::North, Going::Straight);
    turning.point_index = 1;
    turning.pos = Point { x: 282_500, y: 200_000 };
    ahead.pos = Point { x: 282_500, y: 400_000 };
    assert_eq!(turning.update_velocity(Some(&ahead), &state), 0);
}

#[test]
fn car_ahead_within_three_times_the_safe_distance_slows_the_car() {
    let state = TrafficState::new(0);
    let mut car = car_on(Direction::North, Going::Straight);
    let mut ahead = car_on(Direction::North, Going::Straight);
    ahead.pos = Point { x: 282_500, y: 260_000 };
    assert_eq!(car.update_velocity(Some(&ahead), &state), 2_000);
    ahead.pos = Point { x: 282_500, y: 359_999 };
    assert_eq!(car.update_velocity(Some(&ahead), &state), 2_000);
    car.velocity = 2_000;
    assert_eq!(car.update_velocity(Some(&ahead), &state), 1_000);
    car.velocity = 1_001;
    assert_eq!(car.update_velocity(Some(&ahead), &state), 500);
    car.velocity = 500;
    assert_eq!(car.update_velocity(Some(&ahead), &state), 500);
    car.velocity = 0;
    assert_eq!(car.update_velocity(Some(&ahead), &state), 500);
}

#[test]
fn car_ahead_further_away_does_not_matter() {
    let state = TrafficState::new(0);
    let mut car = car_on(Direction::North, Going::Straight);
    let mut ahead = car_on(Direction::North, Going::Straight);
    ahead.pos = Point { x: 282_500, y: 360_000 };
    assert_eq!(car.update_velocity(Some(&ahead), &state), 2_000);
    car.point_index = 1;
    assert_eq!(car.update_velocity(Some(&ahead), &state), 4_000);
    // The distance is taken in the plane: 216000 across and 288000 along are
    // 360000 apart.
    car.pos = Point { x: 0, y: 0 };
    ahead.pos = Point { x: 216_000, y: 288_000 };
    assert_eq!(car.update_velocity(Some(&ahead), &state), 4_000);
    ahead.pos = Point { x: 216_000, y: 287_999 };
    assert_eq!(car.update_velocity(Some(&ahead), &state), 2_000);
}

#[test]
fn car_gives_way_to_crossing_traffic_inside_the_intersection() {
    let state = state_with_crossing_traffic();
    let mut car = car_on(Direction::North, Going::Straight);
    // More than the safe distance before the end of the run in.
    assert_eq!(car.update_velocity(None, &state), 2_000);
    car.pos = Point { x: 282_500, y: 7_500 };
    assert_eq!(car.update_velocity(None, &state), 2_000);
    // Within the safe distance: 107500 - 7501 = 99999.
    car.pos = Point { x: 282_500, y: 7_501 };
    assert_eq!(car.update_velocity(None, &state), 2_000);
    car.velocity = 2_000;
    assert_eq!(car.update_velocity(None, &state), 1_000);
    car.pos = Point { x: 282_500, y: 57_500 };
    assert_eq!(car.update_velocity(None, &state), 1_000);
    // Within half the safe distance: 107500 - 57501 = 49999.
    car.pos = Point { x: 282_500, y: 57_501 };
    assert_eq!(car.update_velocity(None, &state), 0);
    car.pos = Point { x: 282_500, y: 107_000 };
    assert_eq!(car.update_velocity(None, &state), 0);
}

#[test]
fn car_inside_the_intersection_gives_way_to_nobody() {
    let state = state_with_crossing_traffic();
    let mut car = car_on(Direction::North, Going::Straight);
    car.point_index = 1;
    car.pos = Point { x: 282_500, y: 107_500 };
    car.velocity = 2_000;
    assert_eq!(car.update_velocity(None, &state), 2_200);
}

#[test]
fn crossing_traffic_outside_the_intersection_does_not_count() {
    let mut state = state_with_crossing_traffic();
    let mut car = car_on(Direction::North, Going::Straight);
    car.pos = Point { x: 282_500, y: 100_000 };
    assert_eq!(car.update_velocity(None, &state), 0);
    state.lines[1].path_cars[0][0].point_index = 0;
    assert_eq!(car.update_velocity(None, &state), 2_000);
    state.lines[1].path_cars[0][0].point_index = 3;
    assert_eq!(car.update_velocity(None, &state), 2_000);
    state.lines[1].path_cars[0][0].point_index = 2;
    assert_eq!(car.update_velocity(None, &state), 0);
    car.velocity = 1_000;
    car.pos = Point { x: 282_500, y: 20_000 };
    assert_eq!(car.update_velocity(None, &state), 500);
}

#[test]
fn right_turn_gives_way_to_nobody() {
    let state = state_with_crossing_traffic();
    let mut car = car_on(Direction::North, Going::Right);
    car.pos = Point { x: 231_250, y: 100_000 };
    assert_eq!(car.update_velocity(None, &state), 2_000);
    let mut car = car_on(Direction::South, Going::Right);
    car.pos = Point { x: 468_750, y: 600_000 };
    assert_eq!(car.update_velocity(None, &state), 2_000);
}

#[test]
fn update_moves_the_car_towards_its_next_waypoint() {
    let state = TrafficState::new(0);
    let mut car = car_on(Direction::North, Going::Straight);
    car.update(None, &state);
    assert_eq!(car.pos, Point { x: 282_500, y: 2_000 });
    assert_eq!(car.velocity, 2_000);
    assert_eq!(car.heading, Point { x: 0, y: 107_500 });
    assert_eq!(car.point_index, 0);
    car.update(None, &state);
    assert_eq!(car.pos, Point { x: 282_500, y: 4_000 });
    assert_eq!(car.heading, Point { x: 0, y: 105_500 });
}

#[test]
fn update_leaves_a_near_waypoint_behind_and_goes_on_in_the_same_tick() {
    let state = TrafficState::new(0);
    let mut car = car_on(Direction::North, Going::Straight);
    for _ in 0..53 {
        car.update(None, &state);
    }
    assert_eq!(car.pos, Point { x: 282_500, y: 106_000 });
    assert_eq!(car.velocity, 2_000);
    assert_eq!(car.point_index, 0);
    // The waypoint is 1500 away, less than the speed picked: the car heads for
    // the next one, and picks its speed anew as a car inside the intersection.
    car.update(None, &state);
    assert_eq!(car.point_index, 1);
    assert_eq!(car.velocity, 2_200);
    assert_eq!(car.pos, Point { x: 282_500, y: 108_200 });
    assert_eq!(car.heading, Point { x: 0, y: 486_500 });
    car.update(None, &state);
    assert_eq!(car.velocity, 2_420);
    assert_eq!(car.pos, Point { x: 282_500, y: 110_620 });
    car.update(None, &state);
    assert_eq!(car.velocity, 2_662);
    assert_eq!(car.pos, Point { x: 282_500, y: 113_282 });
}

#[test]
fn update_speeds_up_to_max_speed_inside_the_intersection() {
    let state = TrafficState::new(0);
    let mut car = car_on(Direction::North, Going::Straight);
    car.point_index = 1;
    car.pos = Point { x: 282_500, y: 107_500 };
    car.velocity = 2_000;
    let expected = [
        (109_700, 2_200),
        (112_120, 2_420),
        (114_782, 2_662),
        (117_710, 2_928),
        (120_930, 3_220),
        (124_472, 3_542),
        (128_368, 3_896),
        (132_368, 4_000),
        (136_368, 4_000),
    ];
    for (y, v) in expected {
        car.update(None, &state);
        assert_eq!(car.pos, Point { x: 282_500, y });
        assert_eq!(car.velocity, v);
    }
}

#[test]
fn update_runs_a_car_to_the_end_of_its_path() {
    let state = TrafficState::new(0);
    let mut car = car_on(Direction::North, Going::Straight);
    let mut ticks = 0;
    while !car.is_done() {
        car.update(None, &state);
        ticks += 1;
        assert!(0 <= car.velocity && car.velocity <= 4_000);
        assert!(ticks <= 204);
    }
    assert_eq!(ticks, 204);
    assert_eq!(car.pos, Point { x: 282_500, y: 698_868 });
    assert_eq!(car.point_index, 3);
    assert!(car.get_status() == CarStatus::AfterTurn);
}

#[test]
fn update_runs_a_car_through_a_turn() {
    let state = TrafficState::new(0);
    let mut car = car_on(Direction::North, Going::Right);
    let mut ticks = 0;
    while !car.is_done() {
        let before = car.point_index;
        car.update(None, &state);
        ticks += 1;
        assert!(car.point_index >= before);
        assert!(2_000 <= car.velocity && car.velocity <= 4_000);
        assert!(0 <= car.pos.x && car.pos.x <= 700_000);
        assert!(0 <= car.pos.y && car.pos.y <= 700_000);
        assert!(ticks <= 132);
    }
    assert_eq!(ticks, 132);
    assert_eq!(car.pos, Point { x: 1_311, y: 231_248 });
    assert_eq!(car.heading, Point { x: -5_311, y: 6 });
    assert_eq!(car.point_index, 104);
    let mut car = car_on(Direction::East, Going::Left);
    let mut ticks = 0;
    while !car.is_done() {
        car.update(None, &state);
        ticks += 1;
    }
    assert_eq!(ticks, 189);
    assert_eq!(car.pos, Point { x: 333_749, y: 696_455 });
    assert_eq!(car.heading, Point { x: 2, y: 7_545 });
}

#[test]
fn update_of_a_done_car_changes_nothing() {
    let state = TrafficState::new(0);
    let mut car = car_on(Direction::North, Going::Straight);
    car.point_index = 3;
    car.pos = Point { x: 282_500, y: 698_868 };
    car.velocity = 3_000;
    car.heading = Point { x: 0, y: 5 };
    car.update(None, &state);
    assert_eq!(car.pos, Point { x: 282_500, y: 698_868 });
    assert_eq!(car.velocity, 3_000);
    assert_eq!(car.heading, Point { x: 0, y: 5 });
    assert_eq!(car.point_index, 3);
}

#[test]
fn update_of_a_stopped_car_keeps_it_in_place() {
    let state = TrafficState::new(0);
    let mut car = car_on(Direction::North, Going::Straight);
    car.pos = Point { x: 282_500, y: 50_000 };
    car.heading = Point { x: 0, y: 9 };
    let mut ahead = car_on(Direction::North, Going::Straight);
    ahead.pos = Point { x: 282_500, y: 150_000 };
    car.update(Some(&ahead), &state);
    assert_eq!(car.velocity, 0);
    assert_eq!(car.pos, Point { x: 282_500, y: 50_000 });
    assert_eq!(car.heading, Point { x: 0, y: 57_500 });
    assert_eq!(car.point_index, 0);
    // At a waypoint, with nowhere to point to, it keeps its heading.
    car.pos = Point { x: 282_500, y: 107_500 };
    car.heading = Point { x: 0, y: 9 };
    car.update(Some(&ahead), &state);
    assert_eq!(car.velocity, 0);
    assert_eq!(car.pos, Point { x: 282_500, y: 107_500 });
    assert_eq!(car.heading, Point { x: 0, y: 9 });
    assert_eq!(car.point_index, 0);
}

#[test]
fn update_slows_down_for_crossing_traffic_and_waits() {
    let state = state_with_crossing_traffic();
    let mut car = car_on(Direction::North, Going::Straight);
    let expected = [
        (2_000, 2_000),
        (4_000, 2_000),
        (6_000, 2_000),
        (8_000, 2_000),
        (9_000, 1_000),
        (9_500, 500),
        (10_000, 500),
    ];
    for (y, v) in expected {
        car.update(None, &state);
        assert_eq!(car.pos, Point { x: 282_500, y });
        assert_eq!(car.velocity, v);
    }
    for _ in 0..200 {
        car.update(None, &state);
    }
    // It creeps on until it is within half the safe distance of the end of its
    // run in, and stops there.
    assert_eq!(car.velocity, 0);
    assert_eq!(car.pos, Point { x: 282_500, y: 58_000 });
    assert_eq!(car.point_index, 0);
}
