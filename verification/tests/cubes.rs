use advent::y2023::cubes::{process, read_game, Error};

fn lines(v: &[&str]) -> Vec<String> {
    v.iter().map(|s| s.to_string()).collect()
}

fn example() -> Vec<String> {
    lines(&[
        "Game 1: 3 blue, 4 red; 1 red, 2 green, 6 blue; 2 green",
        "Game 2: 1 blue, 2 green; 3 green, 4 blue, 1 red; 1 green, 1 blue",
        "Game 3: 8 green, 6 blue, 20 red; 5 blue, 4 red, 13 green; 5 green, 1 red",
        "Game 4: 1 green, 3 red, 6 blue; 3 green, 6 red; 3 green, 15 blue, 14 red",
        "Game 5: 6 red, 1 blue, 3 green; 2 blue, 1 red, 2 green",
    ])
}

#[test]
fn cubes_example() {
    assert_eq!(process(&example()).ok().unwrap(), (8, 2286));
}

#[test]
fn cubes_game() {
    let g = read_game("Game 3: 8 green, 6 blue, 20 red; 5 blue, 4 red, 13 green; 5 green, 1 red").ok().unwrap();
    assert_eq!(g.number, 3);
    assert_eq!(g.draws.len(), 3);
    assert_eq!(g.power(), 1560);
    let totals = vec![("red".to_string(), 12), ("green".to_string(), 13), ("blue".to_string(), 14)];
    assert!(!g.is_possible(&totals));
    let twice = read_game("Game 9: 20 red, 2 red").ok().unwrap();
    assert!(twice.is_possible(&totals));
    assert_eq!(twice.power(), 2);
}

#[test]
fn cubes_errors() {
    match read_game("Gmae 1: 1 red") {
        Err(Error::InvalidLine(s)) => assert_eq!(s, "Gmae 1: 1 red"),
        _ => panic!("expected a bad line"),
    }
    match read_game("Game 1 1 red") {
        Err(Error::InvalidGame(s)) => assert_eq!(s, "1 1 red"),
        _ => panic!("expected a bad game"),
    }
    match read_game("Game x: 1 red") {
        Err(Error::InvalidNumber(s)) => assert_eq!(s, "x"),
        _ => panic!("expected a bad number"),
    }
    match read_game("Game 1: 1red") {
        Err(Error::InvalidCount(s)) => assert_eq!(s, "1red"),
        _ => panic!("expected a bad count"),
    }
    assert_eq!(process(&lines(&["", "  Game 7: 1 red  "])).ok().unwrap(), (7, 1));
}
