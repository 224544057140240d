use snake_move::body::SnakeBody;
use snake_move::fixed::UNIT;
use snake_move::head::SnakeHead;
use snake_move::records::{MoveRecord, MoveRecords};
use snake_move::relax::NoGround;
use snake_move::segment::MoveMode;
use snake_move::snapshot::{ChainData, SegmentData};
use snake_move::vector::Vector3;

const TICK: i64 = 16_667;

fn at(x: i64, y: i64) -> Vector3 {
    Vector3::new(x * UNIT, y * UNIT, 0)
}

fn busy_chain() -> SnakeHead {
    let mut head = SnakeHead::new(vec![
        SnakeBody::new(100_000, 80 * UNIT, at(-80, 0)),
        SnakeBody::new(200_000, 160 * UNIT, at(-160, 0)),
    ]);
    for step in 0..40 {
        head.move_head(TICK, at(10 * step, step), MoveMode::Normal);
        head.solve_body::<NoGround>(10 * UNIT, UNIT, 30 * UNIT, None);
    }
    head.move_head(TICK, at(900, 900), MoveMode::Teleport);
    head.solve_body::<NoGround>(10 * UNIT, UNIT, 30 * UNIT, None);
    head
}

fn drive(head: &mut SnakeHead) -> Vec<Vector3> {
    let mut seen = Vec::new();
    for step in 1..=60 {
        head.move_head(TICK, at(900 + 10 * step, 900), MoveMode::Normal);
        head.solve_body::<NoGround>(10 * UNIT, UNIT, 30 * UNIT, None);
        seen.push(head.body(0).position);
        seen.push(head.body(1).position);
        seen.push(head.body(1).target);
    }
    seen
}

#[test]
fn a_chain_brought_back_goes_on_as_before() {
    let mut head = busy_chain();
    let data = head.save();
    assert_eq!(data.time, 41 * TICK);
    assert_eq!(data.segments.len(), 2);
    assert_eq!(data.bodies.len(), 2);
    assert_eq!(data.max_delay, 200_000);
    assert_eq!(data.max_distance, 160 * UNIT);
    let mut again = SnakeHead::load(&data).expect("a saved chain is a chain");
    assert_eq!(again.time(), head.time());
    assert_eq!(again.travelled(), head.travelled());
    assert_eq!(again.get_path(), head.get_path());
    assert_eq!(drive(&mut head), drive(&mut again));
    assert_eq!(again.get_path(), head.get_path());
}

#[test]
fn data_that_is_no_chain_is_turned_away() {
    let good = busy_chain().save();
    assert!(SnakeHead::load(&good).is_some());
    let spoil = |change: &dyn Fn(&mut ChainData)| {
        let mut data = busy_chain().save();
        change(&mut data);
        SnakeHead::load(&data).is_none()
    };
    assert!(spoil(&|d| d.time = -1));
    assert!(spoil(&|d| d.time = 0));
    assert!(spoil(&|d| d.max_delay = -1));
    assert!(spoil(&|d| d.position.z = 1_000_000_000_001));
    assert!(spoil(&|d| d.distances.swap(0, 1)));
    assert!(spoil(&|d| d.distances[3].value = d.distances[2].value - 1));
    assert!(spoil(&|d| d.distances[0].value = -1));
    assert!(spoil(&|d| d.distances.clear()));
    assert!(spoil(&|d| d.segments.clear()));
    assert!(spoil(&|d| d.segments[0].records.clear()));
    assert!(spoil(&|d| d.segments[0].records.reverse()));
    assert!(spoil(&|d| d.segments[1].records[0].key += 1));
    assert!(spoil(&|d| d.segments[0].records[0].value.x = -1_000_000_000_001));
    assert!(spoil(&|d| d.segment_first = usize::MAX));
    assert!(spoil(&|d| d.segment_first = 1));
    assert!(spoil(&|d| d.bodies[0].segment = 2));
    assert!(spoil(&|d| d.bodies[1].delay = -1));
    assert!(spoil(&|d| d.bodies[1].target.y = 1_000_000_000_001));
    // What does not touch the invariant is let through.
    assert!(!spoil(&|d| d.bodies[1].segment = 1));
    assert!(!spoil(&|d| d.segments[0].move_mode = MoveMode::Teleport));
    assert!(!spoil(&|d| d.max_distance = 0));
}

#[test]
fn a_fresh_chain_can_be_saved() {
    let head = SnakeHead::new(vec![SnakeBody::new(5, 7, at(1, 2))]);
    let data = head.save();
    assert!(data.distances.is_empty());
    assert!(data.segments.is_empty());
    assert_eq!(data.max_delay, 5);
    assert_eq!(data.max_distance, 7);
    let again = SnakeHead::load(&data).expect("a saved chain is a chain");
    assert_eq!(again.body(0).position, at(1, 2));
    assert_eq!(again.segment_count(), 0);
}

#[test]
fn a_series_is_made_of_records_in_order() {
    let rec = |key: i64, x: i64| MoveRecord { key, value: Vector3::new(x, 0, 0) };
    let good = vec![rec(0, 1), rec(0, 2), rec(5, 3)];
    let series = MoveRecords::from_records(&good).expect("records in order");
    assert_eq!(series.len(), 3);
    assert_eq!(series.to_vec().iter().map(|r| r.value.x).collect::<Vec<_>>(), vec![1, 2, 3]);
    assert!(MoveRecords::from_records(&vec![rec(1, 0), rec(0, 0)]).is_none());
    assert!(MoveRecords::from_records(&vec![rec(1_000_000_000_000_000_001, 0)]).is_none());
    assert!(MoveRecords::from_records(&vec![rec(0, 1_000_000_000_001)]).is_none());
    assert!(MoveRecords::<i64>::from_records(&Vec::new()).is_some());
    let _ = SegmentData { move_mode: MoveMode::Normal, records: good };
}
