use advent::y2023::galaxies::{GalaxyError, Input};

fn lines(v: &[&str]) -> Vec<String> {
    v.iter().map(|s| s.to_string()).collect()
}

fn example() -> Vec<String> {
    lines(&[
        "...#......",
        ".......#..",
        "#.........",
        "..........",
        "......#...",
        ".#........",
        ".........#",
        "..........",
        ".......#..",
        "#...#.....",
    ])
}

#[test]
fn galaxies_example() {
    let input = Input::read(&example());
    assert_eq!(input.rows, 12);
    assert_eq!(input.columns, 13);
    assert_eq!(input.galaxies.len(), 9);
    assert_eq!(input.galaxies[0], (0, 4));
    assert_eq!(input.galaxies[8], (11, 5));
    assert_eq!(input.part1(), Ok(374));
    assert_eq!(input.part2(), 0);
    assert!(input.is_galaxy(0, 4));
    assert!(!input.is_galaxy(0, 3));
}

#[test]
fn galaxies_two_apart() {
    // One empty row and one empty column between them, each doubled.
    let input = Input::read(&lines(&["#..", "...", "..#"]));
    assert_eq!(input.galaxies, vec![(0, 0), (3, 3)]);
    assert_eq!(input.part1(), Ok(6));
}

#[test]
fn galaxies_none() {
    let input = Input::read(&lines(&["...", ""]));
    assert_eq!(input.rows, 2);
    assert_eq!(input.columns, 6);
    assert_eq!(input.part1(), Ok(0));
}

#[test]
fn galaxies_overflow() {
    let input = Input { rows: 1, columns: 1, galaxies: vec![(0, 0), (0, usize::MAX / 4), (usize::MAX / 4, 0), (usize::MAX / 4, usize::MAX / 4)] };
    assert_eq!(input.part1(), Err(GalaxyError::Overflow));
}
