use diagram_collision::geom::{aabb, intersection, rotate_polygon, Node};
use diagram_collision::units::{
    station_order_conflict, Direction, Interval, IntervalIDExt, IntervalLength, ScaleMode,
    ScheduleEntry, Time, TrainAction,
};

fn node(x: i64, y: i64) -> Node {
    Node { x, y }
}

#[test]
fn time_breaks_down_into_clock_fields() {
    let t = Time::new(1 * 3600 + 2 * 60 + 5);
    assert_eq!(t.seconds(), 3725);
    assert_eq!(t.second(), 5);
    assert_eq!(t.minutes(), 62);
    assert_eq!(t.minute(), 2);
    assert_eq!(t.hours(), 1);
    assert_eq!(t.hour(), 1);
}

#[test]
fn time_hour_wraps_at_midnight() {
    let t = Time::new(25 * 3600);
    assert_eq!(t.hours(), 25);
    assert_eq!(t.hour(), 1);
    assert_eq!(Time::new(0).seconds(), 0);
}

#[test]
fn interval_length_keeps_meters() {
    let l = IntervalLength::new(2500);
    assert_eq!(l.meters(), 2500);
    assert_eq!(IntervalLength::new(0).meters(), 0);
}

#[test]
fn interval_id_reverses() {
    let id: (u64, u64) = (17, 42);
    assert_eq!(id.reverse(), (42, 17));
    assert_eq!(id.reverse().reverse(), id);
}

#[test]
fn plain_data_types_compare_by_fields() {
    assert_eq!(ScaleMode::Linear, ScaleMode::Linear);
    assert!(ScaleMode::Linear != ScaleMode::Uniform);
    assert_eq!(TrainAction::Compose, TrainAction::Compose);
    assert_eq!(Direction::Forward, Direction::Forward);
    let e = ScheduleEntry { arrival: Time::new(10), departure: Time::new(20), station: 5 };
    assert_eq!(e.arrival.seconds(), 10);
    assert_eq!(e.departure.seconds(), 20);
    assert_eq!(e.station, 5);
    let iv = Interval { length: IntervalLength::new(3) };
    assert_eq!(iv.length.meters(), 3);
}

#[test]
fn aabb_of_triangle() {
    let tri = vec![node(0, 5), node(10, -3), node(-7, 2)];
    let b = aabb(&tri).expect("non-empty");
    assert_eq!((b.x_min, b.x_max, b.y_min, b.y_max), (-7, 10, -3, 5));
    assert!(aabb(&Vec::new()).is_none());
}

#[test]
fn quarter_turn_rotates_exactly() {
    // cos = 0/1, sin = 1/1: a quarter turn counterclockwise
    let p = vec![node(1000, 0), node(0, 0), node(0, 1000)];
    let r = rotate_polygon(p, node(0, 0), 0, 1, 1);
    assert_eq!(r, vec![node(0, 1000), node(0, 0), node(-1000, 0)]);
}

#[test]
fn rotation_about_offset_center() {
    // a half turn (cos = -1, sin = 0) about (100, 100)
    let p = vec![node(200, 100), node(100, 200), node(100, 100)];
    let r = rotate_polygon(p, node(100, 100), -1, 0, 1);
    assert_eq!(r, vec![node(0, 100), node(100, 0), node(100, 100)]);
}

#[test]
fn scaled_rotation_truncates_toward_zero() {
    // cos = sin = 707/1000, close to an eighth turn
    let p = vec![node(1000, 0)];
    let r = rotate_polygon(p, node(0, 0), 707, 707, 1000);
    assert_eq!(r, vec![node(707, 707)]);
    let q = rotate_polygon(vec![node(3, 0)], node(0, 0), 707, 707, 1000);
    // 3 * 707 / 1000 truncates to 2
    assert_eq!(q, vec![node(2, 2)]);
}

#[test]
fn intersection_with_vertical_probe_line() {
    let r = intersection(node(0, 0), node(1000, 1000), 500).expect("crosses");
    assert_eq!(r, node(500, 500));
    let down = intersection(node(0, 1000), node(500, 0), 250).expect("crosses");
    assert_eq!(down, node(250, 500));
}

#[test]
fn intersection_of_vertical_segment() {
    assert_eq!(intersection(node(5, 0), node(5, 100), 5), Some(node(5, 0)));
    assert_eq!(intersection(node(5, 0), node(5, 100), 6), None);
}

#[test]
fn station_order_scan_finds_first_conflict() {
    assert_eq!(station_order_conflict(&vec![1, 2, 3, 4]), None);
    assert_eq!(station_order_conflict(&vec![1, 2]), None);
    // repeated adjacent station inside a window
    assert_eq!(station_order_conflict(&vec![1, 2, 2, 3]), Some((0, true)));
    // a station beginning the previous interval and ending the next
    assert_eq!(station_order_conflict(&vec![1, 2, 1]), Some((0, false)));
    assert_eq!(station_order_conflict(&vec![1, 2, 3, 2]), Some((1, false)));
    // the scan looks at windows of three, so the very first adjacent pair
    // is only caught by the later per-pair check during drawing
    assert_eq!(station_order_conflict(&vec![5, 5, 1]), None);
}
