use advent::y2022::climb::{can_move, dijkstra, neighbors, process, read_input, Error};

fn lines(v: &[&str]) -> Vec<String> {
    v.iter().map(|s| s.to_string()).collect()
}

fn example() -> Vec<String> {
    lines(&["Sabqponm", "abcryxxl", "", "accszExk", "acctuvwj", "abdefghi"])
}

#[test]
fn climb_example() {
    let m = read_input(&example()).ok().unwrap();
    assert_eq!(m.start, (0, 0));
    assert_eq!(m.end, (2, 5));
    assert_eq!(m.elevation[2][5], 25);
    assert_eq!(m.elevation[0][0], 0);
    assert_eq!(dijkstra(&m), 31);
    assert_eq!(process(&example()).ok().unwrap(), Some(31));
}

#[test]
fn climb_moves() {
    let m = read_input(&example()).ok().unwrap();
    assert!(can_move(&m, (0, 0), (0, 1)));
    assert!(!can_move(&m, (0, 1), (0, 3)));
    assert_eq!(neighbors(&m, (0, 0)), vec![(1, 0), (0, 1)]);
}

#[test]
fn climb_unreachable_and_errors() {
    let m = read_input(&lines(&["SzE"])).ok().unwrap();
    assert_eq!(dijkstra(&m), i32::MAX);
    assert!(matches!(read_input(&lines(&["Sab", "ab"])), Err(Error::RowLength { got: 2, expected: 3 })));
    assert!(matches!(read_input(&lines(&["", " "])), Err(Error::Empty)));
    assert!(matches!(process(&lines(&["Sab", "ab"])), Err(Error::RowLength { got: 2, expected: 3 })));
    let same = read_input(&lines(&["E"])).ok().unwrap();
    assert_eq!(dijkstra(&same), 0);
}
