use advent::y2023::scratchcards::{do_part2, read_input, score_cards, Card, CopyError, ErrorKind};

fn example() -> Vec<String> {
    [
        "Card 1: 41 48 83 86 17 | 83 86  6 31 17  9 48 53",
        "Card 2: 13 32 20 16 61 | 61 30 68 82 17 32 24 19",
        "Card 3:  1 21 53 59 44 | 69 82 63 72 16 21 14  1",
        "",
        "Card 4: 41 92 73 84 69 | 59 84 76 51 58  5 54 83",
        "Card 5: 87 83 26 28 32 | 88 30 70 12 93 22 82 36",
        "Card 6: 31 18 13 56 72 | 74 77 10 23 35 67 36 11",
    ]
    .iter()
    .map(|s| s.to_string())
    .collect()
}

#[test]
fn scratchcards_example() {
    let cards = read_input(&example()).ok().unwrap();
    assert_eq!(cards.len(), 6);
    assert_eq!(cards[0].count(), 4);
    assert_eq!(cards[0].score(), 8);
    assert_eq!(cards[1].score(), 2);
    assert_eq!(cards[4].score(), 0);
    assert_eq!(score_cards(&cards), 13);
    assert_eq!(do_part2(&cards).ok().unwrap(), 30);
}

#[test]
fn scratchcards_out_of_bounds() {
    let cards = read_input(&example()[..2].to_vec()).ok().unwrap();
    match do_part2(&cards) {
        Err(CopyError::OutOfBounds { card, target }) => {
            assert_eq!(card, 1);
            assert_eq!(target, 2);
        },
        Ok(_) => panic!("expected an error"),
    }
}

#[test]
fn scratchcards_errors() {
    assert_eq!(Card::from_str("Cart 1: 1 | 2").err().unwrap().kind, ErrorKind::InvalidLine);
    assert_eq!(Card::from_str("Card 1 1 | 2").err().unwrap().kind, ErrorKind::MissingColon);
    assert_eq!(Card::from_str("Card 1: 1 2").err().unwrap().kind, ErrorKind::MissingPipe);
    let e = Card::from_str("Card 1: 1 x | 2").err().unwrap();
    assert_eq!(e.kind, ErrorKind::InvalidNumber);
    assert_eq!(e.text, "x");
}
