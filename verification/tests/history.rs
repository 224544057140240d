use snake_move::body::SnakeBody;
use snake_move::fixed::UNIT;
use snake_move::head::SnakeHead;
use snake_move::relax::NoGround;
use snake_move::segment::{MoveMode, MoveSegment};
use snake_move::vector::Vector3;

const TICK: i64 = 16_667;

fn at(x: i64, y: i64) -> Vector3 {
    Vector3::new(x * UNIT, y * UNIT, 0)
}

fn lone_head() -> SnakeHead {
    SnakeHead::new(Vec::new())
}

#[test]
fn a_new_chain_is_empty() {
    let head = SnakeHead::new(vec![SnakeBody::new(100_000, 80 * UNIT, at(-80, 0))]);
    assert_eq!(head.time(), 0);
    assert_eq!(head.travelled(), 0);
    assert_eq!(head.segment_first(), 0);
    assert_eq!(head.segment_count(), 0);
    assert_eq!(head.body_count(), 1);
    assert_eq!(head.head_position(), Vector3::new(0, 0, 0));
    assert!(head.get_path().is_empty());
    let body = head.body(0);
    assert_eq!(body.delay, 100_000);
    assert_eq!(body.distance, 80 * UNIT);
    assert_eq!(body.position, at(-80, 0));
    assert_eq!(body.target, Vector3::new(0, 0, 0));
    assert_eq!(body.segment, 0);
}

#[test]
fn nothing_is_solved_before_the_head_has_moved() {
    let mut head = SnakeHead::new(vec![SnakeBody::new(0, 0, at(5, 5))]);
    head.update_body(30 * UNIT);
    head.solve_body::<NoGround>(10 * UNIT, UNIT, 30 * UNIT, None);
    assert_eq!(head.body(0).position, at(5, 5));
    assert_eq!(head.body(0).target, Vector3::new(0, 0, 0));
}

#[test]
fn the_first_movement_starts_the_history() {
    let mut head = lone_head();
    head.move_head(TICK, at(7, -3), MoveMode::Normal);
    assert_eq!(head.time(), TICK);
    assert_eq!(head.travelled(), 0);
    assert_eq!(head.head_position(), at(7, -3));
    assert_eq!(head.segment_count(), 1);
    assert_eq!(head.get_path(), vec![at(7, -3)]);
    assert_eq!(head.get_distance(0), 0);
    assert_eq!(head.get_distance(10 * TICK), 0);
    assert_eq!(head.get_position(0, 0), (at(7, -3), 0));
    assert_eq!(head.get_position(0, -80 * UNIT), (at(7, -3), 80 * UNIT));
}

#[test]
fn the_length_travelled_adds_up_in_the_plane() {
    let mut head = lone_head();
    head.move_head(TICK, Vector3::new(0, 0, 0), MoveMode::Normal);
    head.move_head(TICK, Vector3::new(30 * UNIT, 40 * UNIT, 999 * UNIT), MoveMode::Normal);
    assert_eq!(head.travelled(), 50 * UNIT);
    head.move_head(TICK, Vector3::new(30 * UNIT, 50 * UNIT, 0), MoveMode::Normal);
    assert_eq!(head.travelled(), 60 * UNIT);
    assert_eq!(head.time(), 3 * TICK);
    // Between two instants the length is interpolated.
    assert_eq!(head.get_distance(TICK), 0);
    assert_eq!(head.get_distance(2 * TICK), 50 * UNIT);
    assert_eq!(head.get_distance(3 * TICK), 60 * UNIT);
    assert_eq!(head.get_distance(TICK + TICK / 2), 24_998_500);
    // Along the path the position is interpolated.
    assert_eq!(head.get_position(0, 25 * UNIT).0.x, 15 * UNIT);
    assert_eq!(head.get_position(0, 25 * UNIT).0.y, 20 * UNIT);
    assert_eq!(
        head.get_position(0, 55 * UNIT),
        (Vector3::new(30 * UNIT, 45 * UNIT, 499_500_000), 0)
    );
    assert_eq!(head.get_position(0, 70 * UNIT), (Vector3::new(30 * UNIT, 50 * UNIT, 0), -10 * UNIT));
}

#[test]
fn recorded_lengths_never_decrease() {
    let mut head = lone_head();
    let moves = [(0, 0), (10, 0), (20, 0), (15, 0), (5, 3), (5, 3), (40, 40), (-20, 7), (-20, 8)];
    let mut travelled = 0;
    for (x, y) in moves.iter() {
        head.move_head(TICK, at(*x, *y), MoveMode::Normal);
        assert!(head.travelled() >= travelled);
        travelled = head.travelled();
    }
    let mut last = 0;
    for step in 0..=100 {
        let d = head.get_distance(step * head.time() / 100);
        assert!(d >= last);
        last = d;
    }
    assert_eq!(last, head.travelled());
}

#[test]
fn a_standing_head_does_not_lengthen_its_history() {
    let mut head = lone_head();
    head.move_head(TICK, at(0, 0), MoveMode::Normal);
    head.move_head(TICK, at(10, 0), MoveMode::Normal);
    for _ in 0..50 {
        head.move_head(TICK, at(10, 0), MoveMode::Normal);
    }
    assert_eq!(head.travelled(), 10 * UNIT);
    assert_eq!(head.get_path(), vec![at(0, 0), at(10, 0)]);
    // The length was reached at the second movement, and has been held since.
    assert_eq!(head.get_distance(2 * TICK), 10 * UNIT);
    assert_eq!(head.get_distance(30 * TICK), 10 * UNIT);
    assert_eq!(head.get_distance(52 * TICK), 10 * UNIT);
}

#[test]
fn slow_motion_is_recorded_in_steps() {
    let mut head = lone_head();
    let mut lengths = Vec::new();
    for x in 0..=11 {
        head.move_head(TICK, at(x, 0), MoveMode::Normal);
        lengths.push(head.get_path().len());
    }
    assert_eq!(lengths, vec![1, 2, 2, 2, 2, 2, 3, 3, 3, 3, 3, 4]);
    assert_eq!(head.get_path(), vec![at(0, 0), at(5, 0), at(10, 0), at(11, 0)]);
    assert_eq!(head.travelled(), 11 * UNIT);
}

#[test]
fn a_jump_opens_a_segment_and_adds_no_length() {
    let mut head = lone_head();
    head.move_head(TICK, at(0, 0), MoveMode::Normal);
    head.move_head(TICK, at(10, 0), MoveMode::Normal);
    assert_eq!(head.segment_count(), 1);
    head.move_head(TICK, at(500, 500), MoveMode::Teleport);
    assert_eq!(head.segment_count(), 2);
    assert_eq!(head.travelled(), 10 * UNIT);
    assert_eq!(head.head_position(), at(500, 500));
    // A second jump in a row stays in the segment and replaces the landing point.
    head.move_head(TICK, at(600, 600), MoveMode::Teleport);
    assert_eq!(head.segment_count(), 2);
    assert_eq!(head.travelled(), 10 * UNIT);
    assert_eq!(head.get_position(1, 0), (at(600, 600), 0));
    assert_eq!(head.get_position(1, 99 * UNIT), (at(600, 600), 0));
    head.move_head(TICK, at(610, 600), MoveMode::Normal);
    assert_eq!(head.segment_count(), 3);
    assert_eq!(head.travelled(), 20 * UNIT);
    assert_eq!(head.get_path(), vec![at(0, 0), at(10, 0), at(600, 600), at(610, 600)]);
    assert_eq!(head.get_position(2, 15 * UNIT), (at(605, 600), 0));
    assert_eq!(head.get_position(0, 15 * UNIT), (at(10, 0), -5 * UNIT));
}

#[test]
fn a_segment_starts_with_one_record() {
    let seg = MoveSegment::new(at(1, 2), 3 * UNIT, MoveMode::Teleport);
    assert_eq!(seg.move_mode(), MoveMode::Teleport);
}

#[test]
fn movements_out_of_range_are_told_apart() {
    let mut head = lone_head();
    assert!(head.can_move_head(1, at(0, 0)));
    assert!(!head.can_move_head(0, at(0, 0)));
    assert!(!head.can_move_head(-1, at(0, 0)));
    assert!(!head.can_move_head(TICK, at(1_000_001, 0)));
    assert!(!head.can_move_head(TICK, Vector3::new(0, 0, -1_000_000_000_001)));
    assert!(head.can_move_head(TICK, at(1_000_000, -1_000_000)));
    assert!(!head.can_move_head(1_000_000_000_000_000_001, at(0, 0)));
    head.move_head(999_999_999_999_999_999, at(0, 0), MoveMode::Normal);
    assert!(head.can_move_head(1, at(0, 0)));
    assert!(!head.can_move_head(2, at(0, 0)));
}

#[test]
fn the_history_is_bounded() {
    let mut head = SnakeHead::new(vec![
        SnakeBody::new(100_000, 80 * UNIT, at(-80, 0)),
        SnakeBody::new(200_000, 160 * UNIT, at(-160, 0)),
    ]);
    let mut longest = 0;
    for step in 0..2000 {
        head.move_head(TICK, at(10 * step, 0), MoveMode::Normal);
        head.solve_body::<NoGround>(10 * UNIT, UNIT, 30 * UNIT, None);
        longest = longest.max(head.get_path().len());
    }
    assert!(longest <= 129, "{}", longest);
    assert!(head.get_path().len() >= 64);
    // What the bodies still ask for is still there.
    assert_eq!(head.body(1).target, at(19_990 - 2 - 160, 0).set_xy(head.body(1).target.xy()));
    let gap = head.head_position().x - head.body(1).position.x;
    assert!((gap - 280 * UNIT).abs() < 2 * UNIT, "{}", gap);
    assert_eq!(head.get_distance(head.time()), head.travelled());
    assert_eq!(head.travelled(), 19_990 * UNIT);
}

#[test]
fn reading_at_a_record_gives_the_record_back() {
    let mut head = lone_head();
    let points = [(0, 0), (50, 0), (100, 10), (150, 40), (200, 100), (200, 170), (150, 230)];
    let mut seen = Vec::new();
    for (x, y) in points.iter() {
        head.move_head(TICK, at(*x, *y), MoveMode::Normal);
        seen.push((head.time(), head.travelled(), at(*x, *y)));
    }
    for (time, travelled, position) in seen {
        assert_eq!(head.get_distance(time), travelled);
        assert_eq!(head.get_position(0, head.get_distance(time)), (position, 0));
    }
}

#[test]
fn the_head_falls_back_to_the_nearest_recent_record() {
    let mut head = lone_head();
    for step in 0..=10 {
        head.move_head(TICK, at(10 * step, 0), MoveMode::Normal);
    }
    assert_eq!(head.travelled(), 100 * UNIT);
    // Beside the record at 80: the way through it is 83 long, shorter than 100.
    head.move_head(TICK, at(80, 3), MoveMode::Normal);
    let path = head.get_path();
    assert_eq!(path.len(), 10);
    assert_eq!(path[8], at(80, 0));
    assert_eq!(path[9], at(80, 3));
    assert_eq!(head.get_position(0, 83 * UNIT), (at(80, 3), 0));
    assert_eq!(head.get_position(0, 81 * UNIT), (at(80, 1), 0));
}

#[test]
fn records_far_behind_are_never_fallen_back_to() {
    let mut head = lone_head();
    for step in 0..=10 {
        head.move_head(TICK, at(10 * step, 0), MoveMode::Normal);
    }
    let before = head.get_path();
    assert_eq!(before.len(), 11);
    // The nearest record within the back limit stands at 60, and the way
    // through it, 120 long, is no shorter than the 100 travelled.
    head.move_head(TICK, at(0, 0), MoveMode::Normal);
    let after = head.get_path();
    assert_eq!(after.len(), 12);
    assert_eq!(&after[..11], &before[..]);
    assert_eq!(after[11], at(0, 0));
    assert_eq!(head.travelled(), 200 * UNIT);
}

#[test]
fn a_straight_path_is_read_straight() {
    let mut head = lone_head();
    for step in 0..=20 {
        head.move_head(TICK, at(10 * step - 70, 0), MoveMode::Normal);
    }
    // Every record stands seventy short of its arc length along the axis.
    for d in [0, 1, 9_999_999, 10_000_000, 123_456_789, 200 * UNIT] {
        assert_eq!(head.get_position(0, d), (Vector3::new(d - 70 * UNIT, 0, 0), 0));
    }
    let far = head.get_position(0, 150 * UNIT).0;
    let near = head.get_position(0, 70 * UNIT).0;
    assert_eq!(far.x - near.x, 80 * UNIT);
}
