use advent::y2023::trebuchet::{process, read_number_part1, read_number_part2, CalibrationError};

fn lines(v: &[&str]) -> Vec<String> {
    v.iter().map(|s| s.to_string()).collect()
}

#[test]
fn trebuchet_part1_example() {
    let ls = lines(&["1abc2", "pqr3stu8vwx", "a1b2c3d4e5f", "treb7uchet"]);
    let (vals, total) = process(&ls, false).ok().unwrap();
    assert_eq!(vals, vec![12, 38, 15, 77]);
    assert_eq!(total, 142);
}

#[test]
fn trebuchet_part2_example() {
    let ls = lines(&[
        "two1nine",
        "eightwothree",
        "abcone2threexyz",
        "",
        "xtwone3four",
        "4nineeightseven2",
        "zoneight234",
        "7pqrstsixteen",
    ]);
    let (vals, total) = process(&ls, true).ok().unwrap();
    assert_eq!(vals, vec![29, 83, 13, 24, 42, 14, 76]);
    assert_eq!(total, 281);
}

#[test]
fn trebuchet_single_digit() {
    assert_eq!(read_number_part1("x7y"), Ok(77));
    assert_eq!(read_number_part2("oneight"), Ok(18));
    assert_eq!(read_number_part2("nine"), Ok(99));
}

#[test]
fn trebuchet_no_digit() {
    assert_eq!(read_number_part1("one"), Err(CalibrationError::NoDigit));
    assert_eq!(read_number_part2("abc"), Err(CalibrationError::NoDigit));
    assert_eq!(process(&lines(&["12", "none"]), false), Err(CalibrationError::NoDigit));
}
