use snake_move::body::SnakeBody;
use snake_move::fixed::UNIT;
use snake_move::head::SnakeHead;
use snake_move::relax::{
    detour_all, relax, separate_all, settle_all, start_round, step_all, BodyMove, GroundProjector,
    NoGround,
};
use snake_move::segment::MoveMode;
use snake_move::vector::{Vector2, Vector3};

const TICK: i64 = 16_667;
const RADIUS: i64 = 30 * UNIT;
const MAX_MOVE: i64 = 10 * UNIT;
const MIN_MOVE: i64 = UNIT;

fn at(x: i64, y: i64) -> Vector3 {
    Vector3::new(x * UNIT, y * UNIT, 0)
}

fn still(position: Vector3) -> BodyMove {
    BodyMove {
        position,
        delta: Vector2::new(0, 0),
        origin: position,
        target: position,
        max_move: 2 * MAX_MOVE,
    }
}

fn far_head() -> BodyMove {
    BodyMove { max_move: 0, ..still(at(10_000, 10_000)) }
}

struct Shelf {
    height: i64,
}

impl GroundProjector for Shelf {
    fn fix_spec(&self, current: Vector3, previous: Vector3) -> Vector3 {
        self.fix(current, previous)
    }

    fn fix(&self, current: Vector3, previous: Vector3) -> Vector3 {
        Vector3::new(current.x, current.y, previous.z + self.height)
    }
}

#[test]
fn bodies_step_an_eighth_of_their_way() {
    let mut moves = vec![
        BodyMove { delta: Vector2::new(80, 80), ..far_head() },
        BodyMove { delta: Vector2::new(80, -17), ..still(at(1, 1)) },
    ];
    step_all(&mut moves);
    assert_eq!(moves[0].position, at(10_000, 10_000));
    assert_eq!(moves[1].position, Vector3::new(UNIT + 10, UNIT - 3, 0));
    assert_eq!(moves[1].origin, at(1, 1));
}

#[test]
fn overlapping_bodies_give_way_by_half() {
    let mut moves = vec![far_head(), still(at(0, 0)), still(at(20, 0))];
    separate_all(&mut moves, RADIUS);
    assert_eq!(moves[1].position, at(-20, 0));
    assert_eq!(moves[2].position, at(40, 0));
    // Bodies that stand clear are left alone.
    let mut clear = vec![far_head(), still(at(0, 0)), still(at(60, 0))];
    separate_all(&mut clear, RADIUS);
    assert_eq!(clear[1].position, at(0, 0));
    assert_eq!(clear[2].position, at(60, 0));
}

#[test]
fn the_head_does_not_give_way() {
    let mut moves = vec![BodyMove { max_move: 0, ..still(at(0, 0)) }, still(at(12, 16))];
    separate_all(&mut moves, RADIUS);
    assert_eq!(moves[0].position, at(0, 0));
    assert_eq!(moves[1].position, at(36, 48));
}

#[test]
fn bodies_on_one_spot_part_along_a_fixed_direction() {
    let mut moves = vec![far_head(), still(at(0, 0)), still(at(0, 0))];
    separate_all(&mut moves, RADIUS);
    assert_eq!(moves[1].position, Vector3::new(28_767_720, -8_509_860, 0));
    assert_eq!(moves[2].position, Vector3::new(-28_767_720, 8_509_860, 0));
    // The direction depends on the pair.
    let mut other = vec![BodyMove { max_move: 0, ..still(at(0, 0)) }, still(at(0, 0))];
    separate_all(&mut other, RADIUS);
    assert_eq!(other[1].position, Vector3::new(2 * 25_244_130, 2 * 16_209_060, 0));
}

#[test]
fn crossing_bodies_are_turned_by_half_a_degree() {
    let a = BodyMove { target: at(100, 0), delta: Vector2::new(MAX_MOVE, 0), ..still(at(0, 0)) };
    let b = BodyMove { target: at(-100, 0), delta: Vector2::new(-MAX_MOVE, 0), ..still(at(60, 0)) };
    let mut moves = vec![far_head(), a, b];
    detour_all(&mut moves, RADIUS);
    assert_eq!(moves[1].position, Vector3::new(2_285, -523_592, 0));
    assert_eq!(moves[2].position, Vector3::new(60 * UNIT - 2_285, 523_592, 0));
    // Bodies whose targets lie the way they stand are not turned.
    let c = BodyMove { target: at(-100, 0), ..still(at(0, 0)) };
    let d = BodyMove { target: at(100, 0), ..still(at(60, 0)) };
    let mut calm = vec![far_head(), c, d];
    detour_all(&mut calm, RADIUS);
    assert_eq!(calm[1].position, at(0, 0));
    assert_eq!(calm[2].position, at(60, 0));
}

#[test]
fn a_turn_into_a_third_body_is_not_made() {
    let a = BodyMove { target: at(100, 0), delta: Vector2::new(MAX_MOVE, 0), ..still(at(0, 0)) };
    let b = BodyMove { target: at(-100, 0), delta: Vector2::new(-MAX_MOVE, 0), ..still(at(60, 0)) };
    let blocker = BodyMove { target: at(30, 500), ..still(Vector3::new(30 * UNIT, 52 * UNIT + 400_000, 0)) };
    let mut moves = vec![far_head(), a, b, blocker];
    detour_all(&mut moves, RADIUS);
    assert_eq!(moves[1].position, at(0, 0));
    assert_eq!(moves[2].position, at(60, 0));
}

#[test]
fn bodies_are_held_to_their_speed_limit() {
    let fast = BodyMove { position: at(30, 40), max_move: MAX_MOVE, ..still(at(0, 0)) };
    let slow = BodyMove { position: Vector3::new(100, 0, 0), ..still(at(0, 0)) };
    let fine = BodyMove { position: at(3, 4), max_move: MAX_MOVE, ..still(at(0, 0)) };
    let mut moves = vec![far_head(), fast, slow, fine];
    settle_all::<NoGround>(&mut moves, MIN_MOVE, None);
    assert_eq!(moves[1].position, at(6, 8));
    assert_eq!(moves[2].position, at(0, 0));
    assert_eq!(moves[3].position, at(3, 4));
    assert_eq!(moves[0].position, at(10_000, 10_000));
}

#[test]
fn moving_bodies_are_put_on_the_ground() {
    let shelf = Shelf { height: 5 * UNIT };
    let moved = BodyMove { position: at(3, 4), ..still(at(0, 0)) };
    let idle = BodyMove { position: Vector3::new(10, 0, 0), ..still(at(0, 0)) };
    let mut moves = vec![far_head(), moved, idle];
    settle_all(&mut moves, MIN_MOVE, Some(&shelf));
    assert_eq!(moves[1].position, Vector3::new(3 * UNIT, 4 * UNIT, 5 * UNIT));
    // A body that goes back to where it began the round is put there too.
    assert_eq!(moves[2].position, Vector3::new(0, 0, 5 * UNIT));
    // What the ground hands back is kept inside the world.
    let attic = Shelf { height: 2_000_000 * UNIT };
    let mut high = vec![far_head(), moved];
    settle_all(&mut high, MIN_MOVE, Some(&attic));
    assert_eq!(high[1].position, Vector3::new(3 * UNIT, 4 * UNIT, 1_000_000 * UNIT));
}

#[test]
fn a_round_begins_where_the_last_one_ended() {
    let pushed = BodyMove { position: at(30, 40), max_move: MAX_MOVE, ..still(at(0, 0)) };
    let mut moves = vec![far_head(), pushed];
    start_round(&mut moves);
    assert_eq!(moves[1].origin, at(30, 40));
    assert_eq!(moves[1].position, at(30, 40));
    settle_all::<NoGround>(&mut moves, MIN_MOVE, None);
    assert_eq!(moves[1].position, at(30, 40));
    // Pushed far in every round, a body goes its limit in every round.
    let wall = BodyMove { max_move: 0, ..still(at(0, 0)) };
    let body = BodyMove { max_move: 5 * UNIT, ..still(Vector3::new(UNIT, 0, 0)) };
    let mut crowded = vec![wall, body];
    relax::<NoGround>(&mut crowded, MIN_MOVE, RADIUS, None);
    assert_eq!(crowded[1].position, at(41, 0));
}

#[test]
fn a_tick_is_eight_rounds() {
    let walker = BodyMove { target: at(100, 0), delta: Vector2::new(8 * UNIT, 0), ..still(at(0, 0)) };
    let mut moves = vec![far_head(), walker];
    relax::<NoGround>(&mut moves, MIN_MOVE, RADIUS, None);
    assert_eq!(moves[1].position, at(8, 0));
    let mut by_hand = vec![far_head(), walker];
    for _ in 0..8 {
        start_round(&mut by_hand);
        step_all(&mut by_hand);
        separate_all(&mut by_hand, RADIUS);
        detour_all(&mut by_hand, RADIUS);
        settle_all::<NoGround>(&mut by_hand, MIN_MOVE, None);
    }
    assert_eq!(by_hand[1].position, moves[1].position);
}

fn chase(gap: i64) -> i64 {
    // One body, `gap` short of its target and far from the head: how far
    // it gets in a tick.
    let start = 100 * UNIT - gap;
    let mut head = SnakeHead::new(vec![SnakeBody::new(0, 200 * UNIT, Vector3::new(start, 0, 0))]);
    for step in 0..=6 {
        head.move_head(TICK, at(50 * step, 0), MoveMode::Normal);
    }
    head.solve_body::<NoGround>(MAX_MOVE, MIN_MOVE, RADIUS, None);
    assert_eq!(head.body(0).target, at(100, 0));
    assert_eq!(head.body(0).position.y, 0);
    head.body(0).position.x - start
}

#[test]
fn a_body_far_behind_hurries() {
    // From four radii on a body moves at twice the nominal speed.
    assert_eq!(chase(200 * UNIT), 20 * UNIT);
    assert_eq!(chase(120 * UNIT), 20 * UNIT);
    // Half way between one and a half and four radii: one and three quarters.
    assert_eq!(chase(82_500_000), 17_500_000);
    // Where the ratio does not come out even, every step rounds down.
    assert_eq!(chase(100 * UNIT), 18_666_664);
    // Up to one and a half radii: one and a half times.
    assert_eq!(chase(45 * UNIT), 15 * UNIT);
    assert_eq!(chase(20 * UNIT), 15 * UNIT);
    // A body nearer to its target than its speed stops on the target.
    assert_eq!(chase(12 * UNIT), 12 * UNIT);
    assert_eq!(chase(0), 0);
}

#[test]
fn a_body_short_of_its_segment_holds_back() {
    // The body asks for a point 80 behind the start of the path: it is to
    // stop 80 short of the start.
    let mut head = SnakeHead::new(vec![SnakeBody::new(0, 80 * UNIT, at(-200, 0))]);
    head.move_head(TICK, at(0, 0), MoveMode::Normal);
    for _ in 0..40 {
        head.solve_body::<NoGround>(MAX_MOVE, MIN_MOVE, RADIUS, None);
    }
    assert_eq!(head.body(0).target, at(0, 0));
    let x = head.body(0).position.x;
    assert!((x + 80 * UNIT).abs() <= UNIT, "{}", x);
}

#[test]
fn a_chain_at_rest_stays_at_rest() {
    let mut head = SnakeHead::new(vec![
        SnakeBody::new(0, 80 * UNIT, at(-80, 0)),
        SnakeBody::new(0, 160 * UNIT, at(-160, 0)),
    ]);
    for step in 0..=40 {
        head.move_head(TICK, at(10 * step - 400, 0), MoveMode::Normal);
    }
    for _ in 0..200 {
        head.move_head(TICK, at(0, 0), MoveMode::Normal);
        head.solve_body::<NoGround>(MAX_MOVE, MIN_MOVE, RADIUS, None);
    }
    let before = (head.body(0), head.body(1));
    assert_eq!(before.0.position.xy(), before.0.target.xy());
    assert_eq!(before.1.position.xy(), before.1.target.xy());
    assert_eq!(before.0.position, at(-80, 0));
    assert_eq!(before.1.position, at(-160, 0));
    head.solve_body::<NoGround>(MAX_MOVE, MIN_MOVE, RADIUS, None);
    assert_eq!(head.body(0).position, before.0.position);
    assert_eq!(head.body(1).position, before.1.position);
    assert_eq!(head.body(0).target, before.0.target);
}

#[test]
fn bodies_end_a_tick_apart() {
    let mut head = SnakeHead::new(vec![
        SnakeBody::new(0, 10 * UNIT, at(-3, 1)),
        SnakeBody::new(0, 20 * UNIT, at(2, -2)),
        SnakeBody::new(0, 30 * UNIT, at(0, 4)),
    ]);
    head.move_head(TICK, at(0, 0), MoveMode::Normal);
    for _ in 0..60 {
        head.solve_body::<NoGround>(MAX_MOVE, MIN_MOVE, RADIUS, None);
    }
    let mut spots = vec![head.head_position()];
    for k in 0..3 {
        spots.push(head.body(k).position);
    }
    let clear = (2 * RADIUS - 100) as i128;
    for i in 0..spots.len() {
        for j in i + 1..spots.len() {
            let dx = (spots[i].x - spots[j].x) as i128;
            let dy = (spots[i].y - spots[j].y) as i128;
            assert!(dx * dx + dy * dy >= clear * clear, "{} and {} overlap", i, j);
        }
    }
}

#[test]
fn segments_left_behind_are_dropped() {
    let mut head = SnakeHead::new(vec![SnakeBody::new(0, 20 * UNIT, at(-20, 0))]);
    for step in 0..10 {
        head.move_head(TICK, at(10 * step, 0), MoveMode::Normal);
        head.solve_body::<NoGround>(MAX_MOVE, MIN_MOVE, RADIUS, None);
    }
    head.move_head(TICK, at(1000, 0), MoveMode::Teleport);
    head.solve_body::<NoGround>(MAX_MOVE, MIN_MOVE, RADIUS, None);
    assert_eq!(head.segment_first(), 0);
    assert_eq!(head.segment_count(), 2);
    for step in 1..=30 {
        head.move_head(TICK, at(1000 + 10 * step, 0), MoveMode::Normal);
        head.solve_body::<NoGround>(MAX_MOVE, MIN_MOVE, RADIUS, None);
        let body = head.body(0);
        assert!(body.segment >= head.segment_first());
        assert!(body.segment < head.segment_first() + head.segment_count());
    }
    // The body has followed the jump and walked on: the first two segments are gone.
    assert_eq!(head.body(0).segment, 2);
    assert_eq!(head.segment_first(), 2);
    assert_eq!(head.segment_count(), 1);
    assert!(head.body(0).position.x > 1000 * UNIT);
    assert_eq!(head.get_path()[0], at(1000, 0));
}

#[test]
fn update_body_moves_bodies_on_one_segment_at_a_time() {
    let mut head = SnakeHead::new(vec![SnakeBody::new(0, 0, at(0, 0))]);
    head.move_head(TICK, at(0, 0), MoveMode::Normal);
    head.move_head(TICK, at(500, 0), MoveMode::Teleport);
    head.move_head(TICK, at(600, 0), MoveMode::Normal);
    assert_eq!(head.segment_count(), 3);
    head.update_body(RADIUS);
    assert_eq!(head.body(0).segment, 1);
    assert_eq!(head.body(0).position, at(500, 0));
    assert_eq!(head.segment_first(), 1);
    head.update_body(RADIUS);
    assert_eq!(head.body(0).segment, 2);
    assert_eq!(head.body(0).position, at(500, 0));
    assert_eq!(head.segment_first(), 2);
    head.update_body(RADIUS);
    assert_eq!(head.body(0).segment, 2);
    assert_eq!(head.segment_count(), 1);
}

#[test]
fn a_body_that_may_not_move_stays_where_it_is() {
    // With no speed at all the push away from the head is undone in every
    // round: the body is still under the head when the tick ends.
    let mut head = SnakeHead::new(vec![SnakeBody::new(0, 0, at(0, 0))]);
    head.move_head(TICK, at(0, 0), MoveMode::Normal);
    head.solve_body::<NoGround>(0, MIN_MOVE, RADIUS, None);
    assert_eq!(head.body(0).position, at(0, 0));
    assert_eq!(head.head_position(), at(0, 0));
}

#[test]
fn a_ground_that_lifts_moves_a_chain_at_rest() {
    let shelf = Shelf { height: 1 };
    let mut head = SnakeHead::new(vec![SnakeBody::new(0, 80 * UNIT, at(-80, 0))]);
    head.move_head(TICK, at(0, 0), MoveMode::Normal);
    head.solve_body(MAX_MOVE, MIN_MOVE, RADIUS, Some(&shelf));
    assert_eq!(head.body(0).position, Vector3::new(-80 * UNIT, 0, 8));
    // A ground that leaves the body where it stands leaves the chain at rest.
    let level = Shelf { height: 0 };
    head.solve_body(MAX_MOVE, MIN_MOVE, RADIUS, Some(&level));
    assert_eq!(head.body(0).position, Vector3::new(-80 * UNIT, 0, 8));
}

fn cross(a: (i64, i64), b: (i64, i64)) -> i128 {
    (a.0 as i128) * (b.1 as i128) - (a.1 as i128) * (b.0 as i128)
}

fn line(from: Vector3, to: Vector3) -> (i64, i64) {
    (to.x - from.x, to.y - from.y)
}

#[test]
fn a_turn_leaves_the_line_between_the_pair() {
    let a = BodyMove { target: at(100, 0), delta: Vector2::new(MAX_MOVE, 0), ..still(at(0, 0)) };
    let b = BodyMove { target: at(-100, 0), delta: Vector2::new(-MAX_MOVE, 0), ..still(at(60, 0)) };
    let mut moves = vec![far_head(), a, b];
    let before = line(moves[1].position, moves[2].position);
    detour_all(&mut moves, RADIUS);
    let after = line(moves[1].position, moves[2].position);
    assert_eq!(after, (60 * UNIT - 4_570, 1_047_184));
    assert!(cross(before, after) > 0);
    // The turn has brought the two no closer.
    let square = |v: (i64, i64)| (v.0 as i128) * (v.0 as i128) + (v.1 as i128) * (v.1 as i128);
    assert!(square(after) >= square(before));
    // Steps that lean the other way turn the pair the other way.
    let c = BodyMove { target: at(100, 0), delta: Vector2::new(MAX_MOVE, UNIT), ..still(at(0, 0)) };
    let d = BodyMove { target: at(-100, 0), delta: Vector2::new(-MAX_MOVE, -UNIT), ..still(at(60, 0)) };
    let mut other = vec![far_head(), c, d];
    detour_all(&mut other, RADIUS);
    let turned = line(other[1].position, other[2].position);
    assert_ne!(turned, before);
    assert!(cross(before, turned) < 0);
}

#[test]
fn bodies_parted_from_one_spot_stand_two_radii_apart() {
    let mut moves = vec![far_head(), still(at(5, 5)), still(Vector3::new(5 * UNIT + 60, 5 * UNIT - 40, 0))];
    separate_all(&mut moves, RADIUS);
    let gap = line(moves[1].position, moves[2].position);
    let square = (gap.0 as i128) * (gap.0 as i128) + (gap.1 as i128) * (gap.1 as i128);
    let radius = RADIUS as i128;
    let unit = UNIT as i128;
    assert!(unit * square >= 4 * radius * radius * (unit - 1) - 816 * unit * radius);
    assert!(square <= (2 * radius + 200) * (2 * radius + 200));
}

#[test]
fn a_chain_at_rest_stays_at_rest_tick_after_tick() {
    let mut head = SnakeHead::new(vec![
        SnakeBody::new(0, 80 * UNIT, at(-80, 0)),
        SnakeBody::new(0, 160 * UNIT, at(-160, 0)),
    ]);
    for step in 0..=40 {
        head.move_head(TICK, at(10 * step - 400, 0), MoveMode::Normal);
    }
    for _ in 0..200 {
        head.solve_body::<NoGround>(MAX_MOVE, MIN_MOVE, RADIUS, None);
    }
    let rest = head.save();
    for _ in 0..5 {
        head.solve_body::<NoGround>(MAX_MOVE, MIN_MOVE, RADIUS, None);
        let now = head.save();
        assert_eq!(now.bodies.len(), rest.bodies.len());
        for (a, b) in now.bodies.iter().zip(rest.bodies.iter()) {
            assert_eq!((a.position, a.target, a.segment), (b.position, b.target, b.segment));
        }
        assert_eq!(now.distances, rest.distances);
        assert_eq!(now.segment_first, rest.segment_first);
        assert_eq!(now.segments.len(), rest.segments.len());
        for (a, b) in now.segments.iter().zip(rest.segments.iter()) {
            assert_eq!(a.records, b.records);
        }
        assert_eq!((now.position, now.time), (rest.position, rest.time));
    }
}
