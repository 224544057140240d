use snake_move::body::SnakeBody;
use snake_move::fixed::UNIT;
use snake_move::head::SnakeHead;
use snake_move::relax::{
    detour_all, separate_all, settle_all, start_round, step_all, BodyMove, NoGround,
};
use snake_move::segment::MoveMode;
use snake_move::vector::{Vector2, Vector3};

const TICK: i64 = 16_667;
const RADIUS: i64 = 30 * UNIT;
const MAX_MOVE: i64 = 10 * UNIT;
const MIN_MOVE: i64 = UNIT;

fn at(x: i64, y: i64) -> Vector3 {
    Vector3::new(x * UNIT, y * UNIT, 0)
}

fn two_bodies() -> SnakeHead {
    SnakeHead::new(vec![
        SnakeBody::new(100_000, 80 * UNIT, at(-80, 0)),
        SnakeBody::new(200_000, 160 * UNIT, at(-160, 0)),
    ])
}

fn tick(head: &mut SnakeHead, position: Vector3, mode: MoveMode) {
    assert!(head.can_move_head(TICK, position));
    head.move_head(TICK, position, mode);
    head.solve_body::<NoGround>(MAX_MOVE, MIN_MOVE, RADIUS, None);
}

fn near(a: i64, b: i64, tolerance: i64) -> bool {
    (a - b).abs() <= tolerance
}

#[test]
fn straight_line_settles_at_the_offsets() {
    let mut head = two_bodies();
    for step in 0..300 {
        tick(&mut head, at(10 * step, 0), MoveMode::Normal);
    }
    // While the head moves, a body trails by its offset and by what the
    // head covers during the body's delay.
    let moving0 = head.body(0);
    let moving1 = head.body(1);
    assert_eq!(moving0.position.y, 0);
    assert_eq!(moving1.position.y, 0);
    assert!(near(moving0.position.x, (2990 - 60 - 80) * UNIT, 2 * UNIT), "{}", moving0.position.x);
    assert!(near(moving1.position.x, (2990 - 120 - 160) * UNIT, 2 * UNIT), "{}", moving1.position.x);
    for _ in 0..60 {
        tick(&mut head, at(2990, 0), MoveMode::Normal);
    }
    let b0 = head.body(0);
    let b1 = head.body(1);
    assert_eq!(b0.position.y, 0);
    assert_eq!(b1.position.y, 0);
    assert!(near(head.head_position().x - b0.position.x, 80 * UNIT, UNIT), "{}", b0.position.x);
    assert!(near(b0.position.x - b1.position.x, 80 * UNIT, UNIT), "{}", b1.position.x);
}

#[test]
fn reversal_does_not_retrace_the_path() {
    let mut head = two_bodies();
    for step in 0..50 {
        tick(&mut head, at(10 * step, 0), MoveMode::Normal);
    }
    assert_eq!(head.travelled(), 490 * UNIT);
    let mut targets = [head.body(0).target, head.body(1).target];
    let mut path_len = head.get_path().len();
    for back in 1..=50 {
        tick(&mut head, at(490 - 10 * back, 0), MoveMode::Normal);
        if back <= 4 {
            // Inside the back limit the head walks its own path backwards:
            // nothing is added to the length travelled, and the path shrinks.
            assert_eq!(head.travelled(), 490 * UNIT);
            assert!(head.get_path().len() < path_len);
        }
        path_len = head.get_path().len();
        for k in 0..2 {
            let target = head.body(k).target;
            let jump = (target.x - targets[k].x).abs();
            assert!(jump <= 11 * UNIT, "body {} target jumped by {}", k, jump);
            if back <= 8 {
                assert!(target.x >= targets[k].x, "body {} target fell back", k);
            }
            assert_eq!(target.y, 0);
            targets[k] = target;
        }
    }
}

fn planar_gap(a: Vector3, b: Vector3) -> i128 {
    let dx = (a.x - b.x) as i128;
    let dy = (a.y - b.y) as i128;
    dx * dx + dy * dy
}

#[test]
fn teleport_waits_for_clearance() {
    let mut head = two_bodies();
    for step in 0..30 {
        tick(&mut head, at(10 * step, 0), MoveMode::Normal);
    }
    let landing = at(1000, 500);
    let clear = 4 * (RADIUS as i128) * (RADIUS as i128);
    tick(&mut head, landing, MoveMode::Teleport);
    assert_eq!(head.segment_count(), 2);
    // The head strolls around the landing point without leaving it.
    let ring = [(10, 0), (17, 7), (17, 17), (10, 24), (0, 24), (-7, 17), (-7, 7), (0, 0)];
    for lap in 0..5 {
        for (dx, dy) in ring.iter() {
            let _ = lap;
            tick(&mut head, at(1000 + dx, 500 + dy), MoveMode::Normal);
            assert!(planar_gap(head.head_position(), landing) < clear);
            assert_eq!(head.body(0).segment, 0);
            assert_eq!(head.body(1).segment, 0);
        }
    }
    // The bodies have reached the place where the head jumped, and wait there.
    assert!(near(head.body(0).position.x, 290 * UNIT, 80 * UNIT));
    assert!(near(head.body(1).position.x, 290 * UNIT, 80 * UNIT));
    assert!(planar_gap(head.body(0).position, head.body(1).position) >= clear - 2 * RADIUS as i128);
    // The head walks away; the bodies follow one at a time.
    let mut first_jump = None;
    let mut second_jump = None;
    let mut previous = head.body(0).position;
    for step in 1..=120 {
        tick(&mut head, at(1000 + 10 * step, 500), MoveMode::Normal);
        let b0 = head.body(0);
        let b1 = head.body(1);
        if first_jump.is_none() && b0.segment > 0 {
            first_jump = Some(step);
            assert!(planar_gap(head.head_position(), landing) >= clear);
            assert!(planar_gap(b0.position, landing) <= (2 * MAX_MOVE as i128).pow(2));
        }
        if second_jump.is_none() && b1.segment > 0 {
            second_jump = Some(step);
            assert!(first_jump.is_some() && first_jump != Some(step));
            assert!(planar_gap(previous, landing) >= clear);
            assert!(planar_gap(b1.position, landing) <= (2 * MAX_MOVE as i128).pow(2));
        }
        if second_jump.is_none() && planar_gap(previous, landing) < clear {
            assert_eq!(b1.segment, 0);
        }
        previous = b0.position;
    }
    assert!(first_jump.is_some());
    assert!(second_jump.is_some());
    assert!(first_jump < second_jump);
}

fn entry(position: Vector3, target: Vector3, delta: Vector2) -> BodyMove {
    BodyMove { position, delta, origin: position, target, max_move: 2 * MAX_MOVE }
}

#[test]
fn crossing_bodies_turn_around_each_other() {
    let far = at(10_000, 10_000);
    let mut moves = vec![
        BodyMove { position: far, delta: Vector2::new(0, 0), origin: far, target: far, max_move: 0 },
        entry(at(0, 0), at(100, 0), Vector2::new(MAX_MOVE, 0)),
        entry(at(20, 0), at(-100, 0), Vector2::new(-MAX_MOVE, 0)),
    ];
    let mut seen: Vec<(Vector3, Vector3)> = vec![(moves[1].position, moves[2].position)];
    for _ in 0..8 {
        start_round(&mut moves);
        step_all(&mut moves);
        separate_all(&mut moves, RADIUS);
        detour_all(&mut moves, RADIUS);
        settle_all::<NoGround>(&mut moves, MIN_MOVE, None);
        let now = (moves[1].position, moves[2].position);
        for old in seen.iter().rev().take(2) {
            assert!(planar_gap(now.0, old.0) > 100 * 100, "first body stands still");
            assert!(planar_gap(now.1, old.1) > 100 * 100, "second body stands still");
        }
        seen.push(now);
    }
    // The pair has turned: the bodies no longer stand on the line they began on.
    assert_ne!(moves[1].position.y, 0);
    assert_ne!(moves[2].position.y, 0);
    assert!(near(moves[1].position.y, -moves[2].position.y, 100));
}
