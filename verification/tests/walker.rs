use prime_walk::color::{next_color, Color};
use prime_walk::prime_walk::{
    is_ascending_from, ConfigError, Direction, PrimeWalk, Turn,
};

#[test]
fn new_walker_defaults() {
    let w = PrimeWalk::new();
    assert_eq!(w.steps_completed, 0);
    assert_eq!(w.last_prime, 1);
    assert_eq!(w.initial_heading, 90_000);
    assert_eq!(w.heading, 90_000);
    assert_eq!(w.turn, 90_000);
    assert_eq!(w.color, Color { r: 255, g: 0, b: 0 });
    assert!(!w.drawing);
}

#[test]
fn cardinal_directions_resolve_to_millidegrees() {
    let w = PrimeWalk::new();
    assert_eq!(w.with_direction(Direction::North).unwrap().heading, 90_000);
    assert_eq!(w.with_direction(Direction::East).unwrap().heading, 0);
    assert_eq!(w.with_direction(Direction::South).unwrap().heading, -90_000);
    assert_eq!(w.with_direction(Direction::West).unwrap().heading, 180_000);
    let tilted = w.with_direction(Direction::Angle(33_700)).unwrap();
    assert_eq!(tilted.heading, 33_700);
    assert_eq!(tilted.initial_heading, 33_700);
}

#[test]
fn direction_outside_the_open_range_is_rejected() {
    let w = PrimeWalk::new();
    assert_eq!(
        w.with_direction(Direction::Angle(360_000)),
        Err(ConfigError::InvalidDirection)
    );
    assert_eq!(
        w.with_direction(Direction::Angle(-360_000)),
        Err(ConfigError::InvalidDirection)
    );
    assert_eq!(
        w.with_direction(Direction::Angle(400_000)),
        Err(ConfigError::InvalidDirection)
    );
}

#[test]
fn turn_presets_resolve_to_millidegrees() {
    let w = PrimeWalk::new();
    assert_eq!(w.with_turn(Turn::Right).unwrap().turn, 90_000);
    assert_eq!(w.with_turn(Turn::Left).unwrap().turn, -90_000);
    assert_eq!(w.with_turn(Turn::Angle(45_000)).unwrap().turn, 45_000);
}

#[test]
fn half_turns_and_out_of_range_turns_are_rejected() {
    let w = PrimeWalk::new();
    assert_eq!(w.with_turn(Turn::Angle(180_000)), Err(ConfigError::InvalidTurn));
    assert_eq!(w.with_turn(Turn::Angle(-180_000)), Err(ConfigError::InvalidTurn));
    assert_eq!(w.with_turn(Turn::Angle(360_000)), Err(ConfigError::InvalidTurn));
    assert_eq!(w.with_turn(Turn::Angle(-360_000)), Err(ConfigError::InvalidTurn));
    assert_eq!(w.with_turn(Turn::Angle(500_000)), Err(ConfigError::InvalidTurn));
}

#[test]
fn start_color_override() {
    let w = PrimeWalk::new().with_start_color(10, 20, 30);
    assert_eq!(w.color, Color { r: 10, g: 20, b: 30 });
}

#[test]
fn advancing_measures_prime_gaps() {
    let mut w = PrimeWalk::new();
    let s1 = w.advance_to_prime(2);
    let s2 = w.advance_to_prime(3);
    let s3 = w.advance_to_prime(5);
    let s4 = w.advance_to_prime(7);
    assert_eq!(
        [s1.distance, s2.distance, s3.distance, s4.distance],
        [1, 1, 2, 2]
    );
    assert_eq!(
        [s1.heading_mdeg, s2.heading_mdeg, s3.heading_mdeg, s4.heading_mdeg],
        [90_000, 180_000, 270_000, 0]
    );
    assert_eq!(w.steps_completed, 4);
    assert_eq!(w.last_prime, 7);
    assert_eq!(w.heading, 90_000);
}

#[test]
fn heading_stays_normalized_under_large_turns() {
    let mut w = PrimeWalk::new()
        .with_direction(Direction::East)
        .unwrap()
        .with_turn(Turn::Angle(350_000))
        .unwrap();
    let mut p: u64 = 2;
    for _ in 0..50 {
        w.advance_to_prime(p);
        assert!(w.heading > -360_000 && w.heading < 360_000);
        assert_eq!(
            w.heading.rem_euclid(360_000),
            (w.steps_completed as i64 * 350_000).rem_euclid(360_000)
        );
        p += 1;
    }
}

#[test]
fn left_turns_go_negative_and_stay_in_range() {
    let mut w = PrimeWalk::new().with_turn(Turn::Left).unwrap();
    let s1 = w.advance_to_prime(2);
    let s2 = w.advance_to_prime(3);
    let s3 = w.advance_to_prime(5);
    let s4 = w.advance_to_prime(7);
    assert_eq!(
        [s1.heading_mdeg, s2.heading_mdeg, s3.heading_mdeg, s4.heading_mdeg],
        [90_000, 0, -90_000, -180_000]
    );
    assert_eq!(w.heading, -270_000);
}

#[test]
fn measurement_pass_keeps_the_color() {
    let mut w = PrimeWalk::new();
    w.advance_to_prime(2);
    w.advance_to_prime(3);
    assert_eq!(w.color, Color { r: 255, g: 0, b: 0 });
}

#[test]
fn drawing_pass_advances_the_color() {
    let mut w = PrimeWalk::new();
    w.advance_to_prime(2);
    w.start_drawing();
    assert_eq!(w.steps_completed, 0);
    assert_eq!(w.last_prime, 1);
    assert_eq!(w.heading, 90_000);
    assert!(w.drawing);
    let s1 = w.advance_to_prime(2);
    assert_eq!(s1.color, Color { r: 255, g: 0, b: 0 });
    let s2 = w.advance_to_prime(3);
    assert_eq!(s2.color, Color { r: 255, g: 0, b: 1 });
    assert_eq!(w.color, Color { r: 255, g: 0, b: 2 });
    assert_eq!(w.next_color(), Color { r: 255, g: 0, b: 3 });
}

#[test]
fn color_increments_through_the_byte_boundaries() {
    assert_eq!(
        next_color(Color { r: 0, g: 0, b: 255 }),
        Color { r: 0, g: 1, b: 0 }
    );
    assert_eq!(
        next_color(Color { r: 0, g: 255, b: 255 }),
        Color { r: 1, g: 0, b: 0 }
    );
    assert_eq!(
        next_color(Color { r: 170, g: 12, b: 9 }),
        Color { r: 170, g: 12, b: 10 }
    );
}

#[test]
fn color_wraps_from_white_to_black() {
    assert_eq!(
        next_color(Color { r: 255, g: 255, b: 255 }),
        Color { r: 0, g: 0, b: 0 }
    );
    // white itself is reached, not skipped
    assert_eq!(
        next_color(Color { r: 255, g: 255, b: 254 }),
        Color { r: 255, g: 255, b: 255 }
    );
}

#[test]
fn ascending_check_matches_its_meaning() {
    assert!(is_ascending_from(1, &vec![2, 3, 5, 7]));
    assert!(is_ascending_from(1, &Vec::new()));
    assert!(!is_ascending_from(2, &vec![2, 3]));
    assert!(!is_ascending_from(1, &vec![2, 3, 3]));
    assert!(!is_ascending_from(1, &vec![2, 5, 3]));
}
