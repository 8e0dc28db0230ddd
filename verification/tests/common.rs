use advent::common::{read_grid, Array2D, CommonError};

fn lines(v: &[&str]) -> Vec<String> {
    v.iter().map(|s| s.to_string()).collect()
}

fn digit(c: char) -> Result<u32, String> {
    match c.to_digit(10) {
        Some(d) => Ok(d),
        None => Err(format!("bad {}", c)),
    }
}

#[test]
fn read_grid_trims_and_skips_blank_lines() {
    let g: Array2D<u32> = read_grid(&lines(&["  12 ", "", "34\n", "   "]), digit).ok().unwrap();
    assert_eq!(*g.get(0, 0).unwrap(), 1);
    assert_eq!(*g.get(0, 1).unwrap(), 2);
    assert_eq!(*g.get(1, 0).unwrap(), 3);
    assert_eq!(*g.get(1, 1).unwrap(), 4);
    assert!(g.get(0, 2).is_none());
}

#[test]
fn read_grid_reports_first_bad_character() {
    match read_grid(&lines(&["12", "3x4y", "z"]), digit) {
        Err(CommonError::InnerError { message }) => assert_eq!(message, "bad x"),
        _ => panic!("expected a conversion error"),
    }
    match read_grid(&lines(&["12", "345"]), digit) {
        Err(CommonError::MismatchedRowsError { got, expected }) => {
            assert_eq!(got, 2);
            assert_eq!(expected, 3);
        },
        _ => panic!("expected a row length error"),
    }
}

#[test]
fn array_write_then_read() {
    let mut g: Array2D<u32> = read_grid(&lines(&["12", "34"]), digit).ok().unwrap();
    *g.get_mut(1, 0).unwrap() = 9;
    assert_eq!(*g.get(1, 0).unwrap(), 9);
    assert_eq!(*g.get(0, 0).unwrap(), 1);
    assert_eq!(*g.get(0, 1).unwrap(), 2);
    assert_eq!(*g.get(1, 1).unwrap(), 4);
    assert!(g.get_mut(0, 2).is_none());
}
