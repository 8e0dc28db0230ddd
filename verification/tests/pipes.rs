use advent::y2023::pipes::{can_read, Input, Node, PipeError};

fn lines(v: &[&str]) -> Vec<String> {
    v.iter().map(|s| s.to_string()).collect()
}

fn solve(v: &[&str]) -> (i64, usize) {
    let ls = lines(v);
    assert!(can_read(&ls));
    let mut input = Input::read(&ls);
    let a = input.part1().ok().unwrap();
    assert!(input.can_scan());
    (a, input.part2())
}

#[test]
fn pipes_square_loop() {
    let (a, b) = solve(&[".....", ".S-7.", ".|.|.", ".L-J.", "....."]);
    assert_eq!(a, 4);
    assert_eq!(b, 1);
}

#[test]
fn pipes_complex_loop() {
    let (a, _) = solve(&["..F7.", ".FJ|.", "SJ.L7", "|F--J", "LJ..."]);
    assert_eq!(a, 8);
}

#[test]
fn pipes_enclosed_example() {
    let (_, b) = solve(&[
        "...........",
        ".S-------7.",
        ".|F-----7|.",
        ".||.....||.",
        ".||.....||.",
        ".|L-7.F-J|.",
        ".|..|.|..|.",
        ".L--J.L--J.",
        "...........",
    ]);
    assert_eq!(b, 4);
}

#[test]
fn pipes_larger_enclosed_example() {
    let (_, b) = solve(&[
        ".F----7F7F7F7F-7....",
        ".|F--7||||||||FJ....",
        ".||.FJ||||||||L7....",
        "FJL7L7LJLJ||LJ.L-7..",
        "L--J.L7...LJS7F-7L7.",
        "....F-J..F7FJ|L7L7L7",
        "....L7.F7||L7|.L7L7|",
        ".....|FJLJ|FJ|F7|.LJ",
        "....FJL-7.||.||||...",
        "....L---J.LJ.LJLJ...",
    ]);
    assert_eq!(b, 8);
}

#[test]
fn pipes_start_is_patched() {
    let input = Input::read(&lines(&[".....", ".S-7.", ".|.|.", ".L-J.", "....."]));
    assert_eq!(input.start, (1, 1));
    let s = input.get((1, 1)).unwrap();
    assert!(!s.n && s.s && s.e && !s.w);
    assert_eq!(s.d1, Some(0));
    assert_eq!(input.find_starts(), Ok(((2, 1), (1, 2))));
    assert!(input.get((9, 9)).is_none());
}

#[test]
fn pipes_lonely_start() {
    let ls = lines(&["...", ".S.", "..."]);
    assert!(can_read(&ls));
    let mut input = Input::read(&ls);
    assert_eq!(input.find_starts(), Err(PipeError::BadStart));
    assert_eq!(input.part1(), Err(PipeError::BadStart));
}

#[test]
fn pipes_unreadable_start() {
    // The row below the start is too short to look at.
    assert!(!can_read(&lines(&["..S..", "."])));
    assert!(!can_read(&lines(&[])));
}

#[test]
fn pipes_nodes_draw() {
    let f = Node::from_char('F');
    assert!(f.s && f.e && !f.n && !f.w);
    assert_eq!(f.to_char(), 'F');
    assert_eq!(Node::from_char('x').to_char(), '.');
    let mut n = Node::from_char('|');
    n.d1 = Some(12);
    n.d2 = Some(11);
    assert_eq!(n.d(), Some(11));
    assert!(n.in_loop());
    assert_eq!(n.to_char(), 'b');
    n.d1 = Some(40);
    n.d2 = Some(50);
    assert_eq!(n.to_char(), '#');
}
