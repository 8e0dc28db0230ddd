use advent::y2022::monkey_math::{parse_line, Op};

#[test]
fn test_parse() {
    assert!(
        matches!(Op::from_str("abcd + efgh").unwrap(), Op::Add(x1, x2) if x1 == "abcd" && x2 == "efgh")
    );
    assert!(
        matches!(Op::from_str("abcd - efgh").unwrap(), Op::Subtract(x1, x2) if x1 == "abcd" && x2 == "efgh")
    );
    assert!(
        matches!(Op::from_str("abcd * efgh").unwrap(), Op::Multiply(x1, x2) if x1 == "abcd" && x2 == "efgh")
    );
    assert!(
        matches!(Op::from_str("abcd / efgh").unwrap(), Op::Divide(x1, x2) if x1 == "abcd" && x2 == "efgh")
    );
    assert!(matches!(Op::from_str("123").unwrap(), Op::Number(x) if x == 123));

    let (monkey, op) = parse_line("abcd: efgh + ijkl").unwrap();
    assert_eq!(monkey, "abcd");
    assert!(matches!(op, Op::Add(x, y) if x == "efgh" && y == "ijkl"));
}
