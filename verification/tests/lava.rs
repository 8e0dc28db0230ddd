use advent::y2022::lava::{count_faces, dim, parse_line, process, read_cubes, Error};

fn lines(v: &[&str]) -> Vec<String> {
    v.iter().map(|s| s.to_string()).collect()
}

fn example() -> Vec<String> {
    lines(&[
        "2,2,2", "1,2,2", "3,2,2", "2,1,2", "2,3,2", "2,2,1", "2,2,3", "2,2,4", "2,2,6", "1,2,5", "3,2,5", "2,1,5",
        "2,3,5",
    ])
}

#[test]
fn lava_example() {
    assert_eq!(process(&example()).ok().unwrap(), Some(64));
    let cubes = read_cubes(&example()).ok().unwrap();
    assert_eq!(dim(&cubes), (5, 5, 8));
    assert_eq!(count_faces(&cubes), Some(64));
}

#[test]
fn lava_two_cubes() {
    assert_eq!(process(&lines(&["1,1,1", "", "  2,1,1  "])).ok().unwrap(), Some(10));
    assert_eq!(process(&lines(&["0,0,0"])).ok().unwrap(), Some(6));
    assert_eq!(process(&lines(&["0,0,0", "0,0,0"])).ok().unwrap(), Some(12));
}

#[test]
fn lava_limits() {
    assert_eq!(process(&lines(&[])).ok().unwrap(), None);
    assert_eq!(process(&lines(&["-1,0,0"])).ok().unwrap(), None);
}

#[test]
fn lava_parse_errors() {
    assert_eq!(parse_line("3,-4,+5").ok().unwrap(), (3, -4, 5));
    match parse_line("1;2;3") {
        Err(Error::MissingComma(s)) => assert_eq!(s, "1;2;3"),
        _ => panic!("expected a missing comma"),
    }
    match parse_line("1,2;3") {
        Err(Error::MissingComma(s)) => assert_eq!(s, "2;3"),
        _ => panic!("expected a missing comma"),
    }
    match parse_line("1,x,y") {
        Err(Error::InvalidNumber(s)) => assert_eq!(s, "x"),
        _ => panic!("expected a bad number"),
    }
    match process(&lines(&["1,1,1", "1,1"])) {
        Err(Error::MissingComma(s)) => assert_eq!(s, "1"),
        _ => panic!("expected a missing comma"),
    }
}
