use advent::y2023::mirrors::{all_fit_u64, find_mirror, find_mirror1, find_mirror2, fits_u64, read_input, split_patterns, total_notes, Grid, MirrorError};

fn lines(v: &[&str]) -> Vec<String> {
    v.iter().map(|s| s.to_string()).collect()
}

fn example() -> Vec<String> {
    lines(&[
        "#.##..##.",
        "..#.##.#.",
        "##......#",
        "##......#",
        "..#.##.#.",
        "..##..##.",
        "#.#.##.#.",
        "",
        "#...##..#",
        "#....#..#",
        "..##..###",
        "#####.##.",
        "#####.##.",
        "..##..###",
        "#....#..#",
    ])
}

#[test]
fn mirrors_example() {
    let ls = example();
    assert!(all_fit_u64(&ls));
    let grids = read_input(&ls).ok().unwrap();
    assert_eq!(grids.len(), 2);
    assert_eq!(grids[0].find_mirror(false), Ok(5));
    assert_eq!(grids[1].find_mirror(false), Ok(400));
    assert_eq!(grids[0].find_mirror(true), Ok(300));
    assert_eq!(grids[1].find_mirror(true), Ok(100));
    assert_eq!(total_notes(&grids, false), Ok(405));
    assert_eq!(total_notes(&grids, true), Ok(400));
}

#[test]
fn mirrors_encoding() {
    let g = Grid::from_text(&lines(&["#.", "##", "."])).ok().unwrap();
    assert_eq!(g.rows, vec![2, 3, 0]);
    assert_eq!(g.cols, vec![6, 1]);
    assert_eq!(Grid::from_text(&lines(&["#x"])).err(), Some(MirrorError::BadChar));
}

#[test]
fn mirrors_lines() {
    assert_eq!(find_mirror1(&vec![1, 2, 2, 1, 5]), Some(2));
    assert_eq!(find_mirror1(&vec![1, 2, 3]), None);
    assert_eq!(find_mirror1(&vec![7]), None);
    assert_eq!(find_mirror2(&vec![1, 3]), Some(1));
    assert_eq!(find_mirror2(&vec![1, 1]), None);
    assert_eq!(find_mirror(&vec![4, 4], false), Some(1));
}

#[test]
fn mirrors_none() {
    let grids = read_input(&lines(&["#.", ".#", "", "..#", "#.."])).ok().unwrap();
    assert_eq!(grids[0].find_mirror(false), Err(MirrorError::NoMirror));
    assert_eq!(total_notes(&grids, false), Err(MirrorError::NoMirror));
}

#[test]
fn mirrors_split_and_fit() {
    let groups = split_patterns(&lines(&["", "  #. ", "", "", ".#", ""]));
    assert_eq!(groups, vec![vec!["#.".to_string()], vec![".#".to_string()]]);
    let wide = vec!["#".repeat(65)];
    assert!(!fits_u64(&wide));
    let dotted = vec![format!(".{}", "#".repeat(64))];
    assert!(fits_u64(&dotted));
}
