use advent::y2023::engine::{process, read_input, Board, NumLoc, PartLoc};

fn lines(v: &[&str]) -> Vec<String> {
    v.iter().map(|s| s.to_string()).collect()
}

fn example() -> Vec<String> {
    lines(&[
        "467..114..", "...*......", "..35..633.", "......#...", "617*......", ".....+.58.", "..592.....",
        "......755.", "...$.*....", ".664.598..",
    ])
}

#[test]
fn engine_example() {
    assert_eq!(process(&example()), 4361);
    let board = read_input(&example());
    assert_eq!(board.nums.len(), 10);
    assert_eq!(board.parts.len(), 6);
    assert_eq!(board.part1(), 4361);
}

#[test]
fn engine_line_scan() {
    let mut board = Board::new();
    assert!(board.add_nums_and_parts(3, "12.#..7").is_ok());
    assert_eq!(board.nums.len(), 2);
    assert_eq!((board.nums[0].row, board.nums[0].col_start, board.nums[0].col_end, board.nums[0].num), (3, 0, 2, 12));
    assert_eq!((board.nums[1].col_start, board.nums[1].col_end, board.nums[1].num), (6, 7, 7));
    assert_eq!((board.parts[0].row, board.parts[0].col), (3, 3));
    assert!(!board.is_num_near_part(&NumLoc { row: 3, col_start: 0, col_end: 2, num: 12 }));
    assert!(board.is_num_near_part(&NumLoc { row: 4, col_start: 4, col_end: 5, num: 1 }));
    let _ = PartLoc { row: 0, col: 0 };
}

#[test]
fn engine_columns_are_bytes() {
    assert_eq!(process(&lines(&["#1"])), 1);
    assert_eq!(process(&lines(&["\u{e9}1"])), 0);
    assert_eq!(process(&lines(&["  ..5", "", "...*  "])), 5);
}
