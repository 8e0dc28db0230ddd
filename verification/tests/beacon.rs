use advent::y2022::beacon::{count_beacons, get_ranges, part1, read_input, sum_ranges, Entry, Error};

fn lines(v: &[&str]) -> Vec<String> {
    v.iter().map(|s| s.to_string()).collect()
}

fn example() -> Vec<String> {
    lines(&[
        "Sensor at x=2, y=18: closest beacon is at x=-2, y=15",
        "Sensor at x=9, y=16: closest beacon is at x=10, y=16",
        "Sensor at x=13, y=2: closest beacon is at x=15, y=3",
        "Sensor at x=12, y=14: closest beacon is at x=10, y=16",
        "Sensor at x=10, y=20: closest beacon is at x=10, y=16",
        "Sensor at x=14, y=17: closest beacon is at x=10, y=16",
        "Sensor at x=8, y=7: closest beacon is at x=2, y=10",
        "Sensor at x=2, y=0: closest beacon is at x=2, y=10",
        "Sensor at x=0, y=11: closest beacon is at x=2, y=10",
        "Sensor at x=20, y=14: closest beacon is at x=25, y=17",
        "Sensor at x=17, y=20: closest beacon is at x=21, y=22",
        "Sensor at x=16, y=7: closest beacon is at x=15, y=3",
        "Sensor at x=14, y=3: closest beacon is at x=15, y=3",
        "Sensor at x=20, y=1: closest beacon is at x=15, y=3",
    ])
}

#[test]
fn beacon_example() {
    let entries = read_input(&example()).ok().unwrap();
    assert_eq!(entries.len(), 14);
    assert_eq!(part1(&entries, 10), 26);
    assert_eq!(count_beacons(&entries, 10), 1);
    assert_eq!(sum_ranges(&get_ranges(&entries, 10)), 27);
}

#[test]
fn beacon_entry() {
    let e = Entry::parse("Sensor at x=8, y=7: closest beacon is at x=2, y=10").ok().unwrap();
    assert_eq!(e.dist(), 9);
    assert_eq!(e.range_for_y(10), Some((2, 15)));
    assert_eq!(e.range_for_y(17), None);
    assert_eq!(e.range_for_y(16), Some((8, 9)));
}

#[test]
fn beacon_sweep_overlaps() {
    assert_eq!(sum_ranges(&vec![(0, 5), (2, 4), (3, 8), (10, 12)]), 10);
    assert_eq!(sum_ranges(&vec![]), 0);
}

#[test]
fn beacon_parse_errors() {
    match Entry::parse("Sensor at x=1, y=2 closest beacon is at x=3, y=4") {
        Err(Error::InvalidLine(s)) => assert_eq!(s, "Sensor at x=1, y=2 closest beacon is at x=3, y=4"),
        _ => panic!("expected a bad line"),
    }
    match Entry::parse("Sensor at x=1, y=z: closest beacon is at x=3, y=4") {
        Err(Error::InvalidNumber(s)) => assert_eq!(s, "z"),
        _ => panic!("expected a bad number"),
    }
    assert!(read_input(&lines(&["", "  Sensor at x=1, y=2: closest beacon is at x=3, y=4  "])).is_ok());
}
