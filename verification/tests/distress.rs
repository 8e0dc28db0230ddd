use advent::y2022::distress::{compare, read_input, read_packet, Error, Packet};
use std::cmp::Ordering;

fn example() -> Vec<String> {
    [
        "[1,1,3,1,1]", "[1,1,5,1,1]", "", "[[1],[2,3,4]]", "[[1],4]", "", "[9]", "[[8,7,6]]", "",
        "[[4,4],4,4]", "[[4,4],4,4,4]", "", "[7,7,7,7]", "[7,7,7]", "", "[]", "[3]", "", "[[[]]]", "[[]]", "",
        "[1,[2,[3,[4,[5,6,7]]]],8,9]", "[1,[2,[3,[4,[5,6,0]]]],8,9]",
    ]
    .iter()
    .map(|s| s.to_string())
    .collect()
}

#[test]
fn distress_example() {
    assert_eq!(read_input(&example()).ok().unwrap(), 13);
}

#[test]
fn distress_compare() {
    let p = |s: &str| read_packet(s).ok().unwrap();
    assert_eq!(compare(&p("[1,1,3,1,1]"), &p("[1,1,5,1,1]")), Ordering::Less);
    assert_eq!(compare(&p("[9]"), &p("[[8,7,6]]")), Ordering::Greater);
    assert_eq!(compare(&p("[[1],4]"), &p("[[1],[2,3,4]]")), Ordering::Greater);
    assert_eq!(compare(&p("[[4,4],4,4]"), &p("[[4,4],4,4]")), Ordering::Equal);
    assert_eq!(compare(&Packet::Number(3), &p("[3]")), Ordering::Equal);
    assert_eq!(compare(&p("[10]"), &p("[9]")), Ordering::Greater);
}

#[test]
fn distress_parse_errors() {
    assert!(matches!(read_packet("1,2"), Err(Error::BracketExpected)));
    assert!(matches!(read_packet("[1,2"), Err(Error::ListExpected)));
    assert!(matches!(read_packet("[1,x]"), Err(Error::DigitExpected(Some('x')))));
    assert!(matches!(read_packet("[12a]"), Err(Error::DigitExpected(Some('a')))));
    match read_packet("[[1],[2,3]]").ok().unwrap() {
        Packet::List(v) => assert_eq!(v.len(), 2),
        Packet::Number(_) => panic!("expected a list"),
    }
}
