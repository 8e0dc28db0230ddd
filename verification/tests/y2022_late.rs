use advent::y2022::jungle::{process as jungle_process, read_input as read_jungle, Instruction, Orientation};
use advent::y2022::elves::{process as elves_process, read_input as read_grove, Direction};
use advent::y2022::mix::{grove_coordinates, mix, process as mix_process, read_input as read_numbers};
use advent::y2022::monkey_math::{compute, compute2, part2, read_input as read_jobs};
use advent::y2022::sand::{process as pour, read_input as read_cave, Cave, Tile};

fn lines(v: &[&str]) -> Vec<String> {
    v.iter().map(|s| s.to_string()).collect()
}

fn example_jobs() -> Vec<String> {
    lines(&[
        "root: pppw + sjmn", "dbpl: 5", "cczh: sllz + lgvd", "zczc: 2", "ptdq: humn - dvpt", "dvpt: 3", "lfqf: 4",
        "humn: 5", "ljgn: 2", "sjmn: drzm * dbpl", "sllz: 4", "pppw: cczh / lfqf", "lgvd: ljgn * ptdq",
        "drzm: hmdt - zczc", "hmdt: 32",
    ])
}

#[test]
fn monkey_math_example() {
    let jobs = read_jobs(&example_jobs()).ok().unwrap();
    assert_eq!(compute(&jobs, "root", 100), 152);
    assert_eq!(compute2(&jobs, "sjmn", 100), Some(150));
    assert_eq!(compute2(&jobs, "pppw", 100), None);
    assert_eq!(part2(&jobs, 100).ok().unwrap(), 301);
}

#[test]
fn monkey_math_solution_balances_root() {
    let jobs = read_jobs(&example_jobs()).ok().unwrap();
    let h = part2(&jobs, 100).ok().unwrap();
    let fixed: Vec<String> = example_jobs()
        .into_iter()
        .map(|l| if l.starts_with("humn:") { format!("humn: {}", h) } else { l })
        .collect();
    let jobs2 = read_jobs(&fixed).ok().unwrap();
    assert_eq!(compute(&jobs2, "pppw", 100), compute(&jobs2, "sjmn", 100));
    assert_eq!(compute2(&jobs, "sjmn", 100), Some(compute(&jobs, "sjmn", 100)));
    assert_eq!(compute2(&jobs, "humn", 100), None);
    assert_eq!(compute(&jobs, "root", 20), compute(&jobs, "root", 100));
    assert_eq!(part2(&jobs, 20).ok().unwrap(), 301);
    assert_eq!(compute2(&jobs, "root", 100), None);
}

#[test]
fn monkey_math_errors() {
    assert!(read_jobs(&lines(&["root 5"])).is_err());
    let jobs = read_jobs(&lines(&["root: aaaa + bbbb", "aaaa: 1", "bbbb: 2"])).ok().unwrap();
    assert!(part2(&jobs, 100).is_err());
}

#[test]
fn mix_example() {
    let values = read_numbers(&lines(&["1", "2", "-3", "3", "-2", "0", "4"])).ok().unwrap();
    let ids: Vec<u64> = vec![10, 11, 12, 13, 14, 15, 16];
    let mixed = mix(&values, &ids);
    assert_eq!(mixed, vec![1, 2, -3, 4, 0, 3, -2]);
    assert_eq!(grove_coordinates(&mixed), 3);
    assert_eq!(mix_process(&values), Some(3));
    assert!(read_numbers(&lines(&["1", "x"])).is_err());
}

#[test]
fn sand_example() {
    let input = lines(&["498,4 -> 498,6 -> 496,6", "503,4 -> 502,4 -> 502,9 -> 494,9"]);
    let cave = read_cave(&input).ok().unwrap();
    assert_eq!(cave.max_y, 9);
    assert_eq!(cave.min_x, 494);
    assert_eq!(pour(cave, false, 100000), 24);
    let cave = read_cave(&input).ok().unwrap();
    assert_eq!(pour(cave, true, 100000), 93);
    assert!(read_cave(&lines(&["498 4"])).is_err());
    assert!(read_cave(&lines(&["498,x"])).is_err());
}

#[test]
fn sand_far_rocks() {
    let cave = read_cave(&lines(&["1000000000000,5 -> 1000000000000,7"])).ok().unwrap();
    assert_eq!(cave.max_x, 1000000000000);
    assert!(cave.get(1000000000000, 6) == Tile::Rock);
    assert!(cave.get(1000000000000, 8) == Tile::Empty);
    assert_eq!(pour(cave, false, 10), 0);
}

#[test]
fn sand_tiles() {
    let mut cave = Cave::new(0, 0, 10, 3);
    assert!(cave.get(5, 2) == Tile::Empty);
    cave.set(5, 2, Tile::Rock);
    assert!(cave.get(5, 2) == Tile::Rock);
    assert!(cave.get(4, 2) == Tile::Empty);
}

#[test]
fn elves_example() {
    let input = lines(&["....#..", "..###.#", "#...#.#", ".#...##", "#.###..", "##.#.##", ".#..#.."]);
    let grove = read_grove(&input).ok().unwrap();
    assert_eq!(grove.elves.len(), 22);
    assert_eq!(elves_process(grove), 110);
    assert!(read_grove(&lines(&["..x"])).is_err());
    assert!(Direction::North.next() == Direction::South);
    assert!(Direction::East.next() == Direction::North);
}

#[test]
fn jungle_example() {
    let input = lines(&[
        "        ...#", "        .#..", "        #...", "        ....", "...#.......#", "........#...",
        "..#....#....", "..........#.", "        ...#....", "        .....#..", "        .#......",
        "        ......#.", "", "10R5L5R10L4R5L5",
    ]);
    let (board, instructions) = read_jungle(&input).ok().unwrap();
    assert_eq!(board.rows.len(), 12);
    assert_eq!(instructions.len(), 13);
    assert!(instructions[1] == Instruction::Right);
    assert_eq!(jungle_process(&board, &instructions), 6032);
    assert_eq!(board.walk(board.initial_pos(), &Orientation::Right, 10), (10, 0));
    assert!(Orientation::Up.turn_right() == Orientation::Right);
    assert!(Orientation::Up.turn_left() == Orientation::Left);
    assert_eq!(Orientation::Left.score(), 2);
    assert_eq!(Orientation::Down.to_string(), "v");
    assert!(read_jungle(&lines(&["  .x"])).is_err());
    assert!(read_jungle(&lines(&["...", ""])).is_err());
    assert!(read_jungle(&lines(&["...", "", "1R", "2L"])).is_err());
    assert!(read_jungle(&lines(&["...", "", "1Rx"])).is_err());
}
