use snake_move::fixed::{div_floor, isqrt, mul_div, UNIT};
use snake_move::records::{LerpValue, MoveRecord, MoveRecords};
use snake_move::vector::{clamp_coord, lerp_scalar, Vector2, Vector3};

#[test]
fn square_roots_round_down() {
    assert_eq!(isqrt(0), 0);
    assert_eq!(isqrt(1), 1);
    assert_eq!(isqrt(15), 3);
    assert_eq!(isqrt(16), 4);
    assert_eq!(isqrt(17), 4);
    assert_eq!(isqrt(1_000_000_000_000), 1_000_000);
    assert_eq!(isqrt(999_999_999_999), 999_999);
    assert_eq!(isqrt(u128::MAX), u64::MAX);
}

#[test]
fn quotients_round_toward_minus_infinity() {
    assert_eq!(div_floor(7, 2), 3);
    assert_eq!(div_floor(-7, 2), -4);
    assert_eq!(div_floor(-8, 2), -4);
    assert_eq!(div_floor(0, 5), 0);
    assert_eq!(div_floor(-1, 1_000_000), -1);
    assert_eq!(mul_div(-7, 1, 2), -4);
    assert_eq!(mul_div(7, 3, 2), 10);
    assert_eq!(mul_div(1_000_000_000_000, 1_000_000, 3), 333_333_333_333_333_333);
    assert_eq!(mul_div(i64::MAX, i64::MAX, i64::MAX), i64::MAX);
}

#[test]
fn distances_are_measured_in_the_plane() {
    let a = Vector3::new(0, 0, 5 * UNIT);
    let b = Vector3::new(3 * UNIT, 4 * UNIT, -7 * UNIT);
    assert_eq!(a.xy().distance(b.xy()), 5 * UNIT);
    assert_eq!(a.xy().distance_squared(b.xy()), 25 * (UNIT as i128) * (UNIT as i128));
    assert_eq!(Vector2::new(1, 1).length(), 1);
    assert_eq!(Vector2::new(-3, 4).length_squared(), 25);
    assert_eq!(Vector2::new(2, 3).dot_product(Vector2::new(-5, 7)), 11);
    assert_eq!(Vector2::new(2, 3).plus(Vector2::new(-5, 7)), Vector2::new(-3, 10));
    assert_eq!(Vector2::new(2, 3).minus(Vector2::new(-5, 7)), Vector2::new(7, -4));
    assert_eq!(b.set_xy(Vector2::new(1, 2)), Vector3::new(1, 2, -7 * UNIT));
}

#[test]
fn the_world_has_an_edge() {
    let edge = 1_000_000_000_000;
    assert_eq!(clamp_coord(edge + 1), edge);
    assert_eq!(clamp_coord(-edge - 1), -edge);
    assert_eq!(clamp_coord(edge), edge);
    assert_eq!(clamp_coord(-17), -17);
    assert_eq!(Vector2::new(i64::MAX, i64::MIN).confine(), Vector2::new(edge, -edge));
    assert_eq!(Vector3::new(5, 2 * edge, -2 * edge).confine(), Vector3::new(5, edge, -edge));
}

#[test]
fn interpolation_rounds_toward_minus_infinity() {
    assert_eq!(lerp_scalar(0, 100, 1, 4), 25);
    assert_eq!(lerp_scalar(10, 0, 1, 1000), 9);
    assert_eq!(lerp_scalar(-10, 10, 0, 7), -10);
    assert_eq!(lerp_scalar(-10, 10, 7, 7), 10);
    assert_eq!(5i64.lerp(8, 1, 2), 6);
    let a = Vector3::new(0, 10, -10);
    let b = Vector3::new(100, 0, 10);
    assert_eq!(a.lerp(b, 1, 4), Vector3::new(25, 7, -5));
    assert_eq!(Vector2::new(10, -10).shrink(1, 4), Vector2::new(2, -3));
}

fn series(keys: &[i64]) -> MoveRecords<i64> {
    let mut s = MoveRecords::new();
    for k in keys {
        s.push(MoveRecord { key: *k, value: 10 * *k });
    }
    s
}

#[test]
fn an_empty_series_has_no_value() {
    let s: MoveRecords<i64> = MoveRecords::new();
    assert!(s.is_empty());
    assert_eq!(s.len(), 0);
    assert!(s.get_linear(5).is_none());
    assert!(s.last().is_none());
    assert_eq!(s.partition_point(5), 0);
}

#[test]
fn a_series_is_read_between_its_records() {
    let mut s: MoveRecords<i64> = MoveRecords::new();
    s.push(MoveRecord { key: 0, value: 0 });
    s.push(MoveRecord { key: UNIT, value: 100 });
    s.push(MoveRecord { key: 3 * UNIT, value: 0 });
    assert_eq!(s.get_linear(UNIT / 4), Some((25, 0)));
    assert_eq!(s.get_linear(UNIT), Some((100, 0)));
    assert_eq!(s.get_linear(2 * UNIT), Some((50, 0)));
    assert_eq!(s.get_linear(UNIT + 1), Some((99, 0)));
    assert_eq!(s.get_linear(3 * UNIT), Some((0, 0)));
}

#[test]
fn a_series_is_held_outside_its_records() {
    let mut s: MoveRecords<i64> = MoveRecords::new();
    s.push(MoveRecord { key: 10 * UNIT, value: 7 });
    s.push(MoveRecord { key: 20 * UNIT, value: 9 });
    // Before the first record: its value, and how far short the key falls.
    assert_eq!(s.get_linear(4 * UNIT), Some((7, 6 * UNIT)));
    assert_eq!(s.get_linear(10 * UNIT), Some((7, 0)));
    // After the last record: its value, and a shortfall below zero.
    assert_eq!(s.get_linear(25 * UNIT), Some((9, -5 * UNIT)));
}

#[test]
fn records_closer_than_the_guard_yield_the_later_one() {
    let mut s: MoveRecords<i64> = MoveRecords::new();
    s.push(MoveRecord { key: 1000, value: 1 });
    s.push(MoveRecord { key: 1099, value: 2 });
    s.push(MoveRecord { key: 1199, value: 4 });
    assert_eq!(s.get_linear(1001), Some((2, 0)));
    assert_eq!(s.get_linear(1099), Some((2, 0)));
    // A hundred steps apart the records are interpolated again.
    assert_eq!(s.get_linear(1149), Some((3, 0)));
}

#[test]
fn a_series_splits_at_a_key() {
    let s = series(&[1, 3, 3, 3, 8]);
    assert_eq!(s.partition_point(0), 0);
    assert_eq!(s.partition_point(1), 0);
    assert_eq!(s.partition_point(2), 1);
    assert_eq!(s.partition_point(3), 1);
    assert_eq!(s.partition_point(4), 4);
    assert_eq!(s.partition_point(8), 4);
    assert_eq!(s.partition_point(9), 5);
}

#[test]
fn a_series_grows_and_shrinks_at_its_end() {
    let mut s = series(&[1, 2, 3, 4]);
    assert_eq!(s.len(), 4);
    assert_eq!(s.last().map(|r| r.key), Some(4));
    assert_eq!(s.pop().map(|r| r.value), Some(40));
    assert_eq!(s.len(), 3);
    s.truncate(5);
    assert_eq!(s.len(), 3);
    s.truncate(1);
    assert_eq!(s.len(), 1);
    assert_eq!(s.get(0).key, 1);
    assert_eq!(s.pop().map(|r| r.key), Some(1));
    assert!(s.pop().is_none());
}

#[test]
fn a_long_series_sheds_its_older_half() {
    let keys: Vec<i64> = (0..129).map(|k| 10 * k).collect();
    // The middle record is 640 behind the last.
    let mut s = series(&keys);
    s.trim(640);
    assert_eq!(s.len(), 129);
    s.trim(639);
    assert_eq!(s.len(), 65);
    assert_eq!(s.get(0).key, 640);
    assert_eq!(s.last().map(|r| r.key), Some(1280));
    // A series of the prefix length or less is left alone.
    let mut short = series(&keys[..128]);
    short.trim(0);
    assert_eq!(short.len(), 128);
}

#[test]
fn shedding_leaves_recent_readings_alone() {
    let keys: Vec<i64> = (0..200).map(|k| 1000 * k).collect();
    let mut s = series(&keys);
    let threshold = 50_000;
    let last = 199_000;
    let before: Vec<_> = (0..=50).map(|k| s.get_linear(last - 1000 * k - 500)).collect();
    s.trim(threshold);
    assert_eq!(s.len(), 100);
    let after: Vec<_> = (0..=50).map(|k| s.get_linear(last - 1000 * k - 500)).collect();
    assert_eq!(before, after);
}
