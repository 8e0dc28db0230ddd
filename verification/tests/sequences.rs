use advent::y2023::sequences::{extrapolate, next_value, Error};

fn lines(v: &[&str]) -> Vec<String> {
    v.iter().map(|s| s.to_string()).collect()
}

#[test]
fn sequences_example() {
    let input = lines(&["0 3 6 9 12 15", "1 3 6 10 15 21", "", "10 13 16 21 30 45"]);
    assert_eq!(extrapolate(&input, false).ok().unwrap(), 114);
    assert_eq!(extrapolate(&input, true).ok().unwrap(), 2);
}

#[test]
fn sequences_single_histories() {
    assert_eq!(next_value(&vec![10, 13, 16, 21, 30, 45], false).ok().unwrap(), 68);
    assert_eq!(next_value(&vec![10, 13, 16, 21, 30, 45], true).ok().unwrap(), 5);
    assert_eq!(next_value(&vec![0, 0, 0], false).ok().unwrap(), 0);
    assert!(matches!(next_value(&vec![], false), Err(Error::Empty)));
    assert!(matches!(next_value(&vec![1, 2, 4], false), Err(Error::Empty)));
}

#[test]
fn sequences_bad_number() {
    let input = lines(&["0 3 6", "1 x 3"]);
    match extrapolate(&input, false) {
        Err(Error::Parse { line }) => assert_eq!(line, "x"),
        _ => panic!("expected a parse error"),
    }
}
