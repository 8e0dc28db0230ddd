use advent::y2022::disk::{compute_size, process_commands, sum_small};
use advent::y2022::monkeys::{init_monkeys, monkey_business, process as monkey_process, test_monkeys};
use advent::y2022::rope::{follow, parse_command, process_lines, simulate, Error as RopeError};
use advent::y2022::stacks::{apply_move, parse_move, process_instructions, top_crates};
use advent::y2022::trees::{compute_visible, count_visible, read_heights};
use advent::y2022::tube::{run_program, Tube};

fn lines(v: &[&str]) -> Vec<String> {
    v.iter().map(|s| s.to_string()).collect()
}

#[test]
fn stacks_example() {
    let mut stacks: Vec<String> = lines(&["", "ZN", "MCD", "P"]);
    let moves = lines(&["move 1 from 2 to 1", "move 3 from 1 to 3", "move 2 from 2 to 1", "move 1 from 1 to 2"]);
    assert!(process_instructions(&mut stacks, &moves).is_ok());
    assert_eq!(top_crates(&stacks), "CMZ");
    assert_eq!(parse_move("move 3 from 1 to 2").ok().unwrap(), (3, 1, 2));
    assert!(parse_move("move x from 1 to 2").is_err());
    let mut small = lines(&["", "A", ""]);
    assert!(apply_move(&mut small, 2, 1, 2).is_err());
    assert!(apply_move(&mut small, 1, 1, 9).is_err());
}

#[test]
fn disk_example() {
    let input = lines(&[
        "$ cd /", "$ ls", "dir a", "14848514 b.txt", "8504156 c.dat", "dir d", "$ cd a", "$ ls", "dir e", "29116 f",
        "2557 g", "62596 h.lst", "$ cd e", "$ ls", "584 i", "$ cd ..", "$ cd ..", "$ cd d", "$ ls", "4060174 j",
        "8033020 d.log", "5626152 d.ext", "7214296 k",
    ]);
    let mut disk = process_commands(&input).ok().unwrap();
    assert_eq!(compute_size(&mut disk), 48381165);
    assert_eq!(sum_small(&disk), 95437);
}

#[test]
fn trees_example() {
    let input = lines(&["30373", "25512", "65332", "33549", "35390"]);
    let heights = read_heights(&input).ok().unwrap();
    let visible = compute_visible(&heights);
    assert_eq!(count_visible(&visible), 21);
    assert!(read_heights(&lines(&["123", "12"])).is_err());
}

#[test]
fn stacks_padded_and_blank_lines() {
    let mut stacks: Vec<String> = lines(&["", "ZN", "MCD", "P"]);
    let moves = lines(&["  move 1 from 2 to 1 ", "   ", "", "move 3 from 1 to 3\n", "move 2 from 2 to 1", "\tmove 1 from 1 to 2"]);
    assert!(process_instructions(&mut stacks, &moves).is_ok());
    assert_eq!(top_crates(&stacks), "CMZ");
}

#[test]
fn stacks_error_keeps_moves_made() {
    let mut stacks: Vec<String> = lines(&["", "AB", "C"]);
    let moves = lines(&["move 1 from 1 to 2", "move 5 from 2 to 1", "move 1 from 1 to 2"]);
    assert!(process_instructions(&mut stacks, &moves).is_err());
    assert_eq!(stacks, lines(&["", "ABC", ""]));
}

#[test]
fn rope_example() {
    let input = ["R 4", "U 4", "L 3", "D 1", "R 4", "D 1", "L 5", "R 2"];
    let commands: Vec<(char, i32)> = input.iter().map(|l| parse_command(l).ok().unwrap()).collect();
    assert_eq!(simulate(&commands, 2).ok().unwrap(), 13);
    assert_eq!(simulate(&commands, 10).ok().unwrap(), 1);
    assert_eq!(follow((2, 0), (0, 0)), (1, 0));
    assert_eq!(follow((1, 1), (0, 0)), (0, 0));
    assert_eq!(follow((2, 1), (0, 0)), (1, 1));
    assert!(parse_command("R4").is_err());
    assert!(parse_command("R x").is_err());
    assert!(simulate(&vec![('X', 1)], 2).is_err());
}

#[test]
fn rope_lines_are_trimmed_and_blank_ones_skipped() {
    let input = lines(&["  R 4", "", "U 4  ", "L 3", "   ", "D 1", "R 4", "D 1", "L 5", "R 2", ""]);
    assert_eq!(process_lines(&input, 2).ok().unwrap(), 13);
    assert_eq!(process_lines(&input, 10).ok().unwrap(), 1);
    assert_eq!(process_lines(&lines(&[]), 1).ok().unwrap(), 1);
}

#[test]
fn rope_first_failure_wins() {
    match process_lines(&lines(&["R 2", "X 1", "R x"]), 2) {
        Err(RopeError::InvalidDirection(c)) => assert_eq!(c, 'X'),
        _ => panic!("expected a direction error"),
    }
    match process_lines(&lines(&["R 2", "R x", "X 1"]), 2) {
        Err(RopeError::InvalidCommand(t)) => assert_eq!(t, "R x"),
        _ => panic!("expected a command error"),
    }
    assert_eq!(process_lines(&lines(&["X 0", "R 3"]), 1).ok().unwrap(), 4);
}

#[test]
fn rope_non_ascii_lines() {
    assert!(parse_command("R 5\u{e9}").is_err());
    assert!(parse_command("\u{e9} 5").is_err());
    assert!(parse_command("").is_err());
    assert_eq!(parse_command("U -3").ok().unwrap(), ('U', -3));
    assert_eq!(follow((i32::MAX, 0), (i32::MAX - 2, 0)), (i32::MAX - 1, 0));
}

#[test]
fn tube_small_program() {
    let mut t = Tube::new(false);
    assert_eq!(t.sum(), 0);
    t.cycle();
    assert_eq!(t.cycle, 1);
    let program = lines(&["noop", "addx 3", "addx -5"]);
    assert_eq!(run_program(&program, false).ok().unwrap(), 0);
    assert!(run_program(&lines(&["jump 3"]), false).is_err());
}

#[test]
fn monkeys_example() {
    assert_eq!(monkey_process(true, false), 10605);
    assert_eq!(monkey_process(true, true), 2713310158);
    let troop = test_monkeys();
    assert_eq!(troop.len(), 4);
    assert_eq!(troop[0].items, vec![79, 98]);
    assert_eq!(init_monkeys().len(), 8);
    let mut fresh = test_monkeys();
    fresh[1].inspected = 5;
    fresh[3].inspected = 7;
    assert_eq!(monkey_business(&fresh), 35);
}
