use advent::y2022::calories::{elf_totals, top_three, total};
use advent::y2022::cleanup::{count_redundant, is_redundant_pair, parse_number, parse_pairs, parse_range};
use advent::y2022::heat::decode;
use advent::y2022::rochambeau::{parse_rounds, score};
use advent::y2022::rucksack::{line_priority, total_priority};
use advent::y2022::streams::find_marker;

fn lines(v: &[&str]) -> Vec<String> {
    v.iter().map(|s| s.to_string()).collect()
}

#[test]
fn calories_example() {
    let input = lines(&[
        "1000", "2000", "3000", "", "4000", "", "5000", "6000", "", "7000", "8000", "9000", "", "10000",
    ]);
    let totals = elf_totals(&input).ok().unwrap();
    assert_eq!(totals, vec![6000, 4000, 11000, 24000, 10000]);
    let top = top_three(&totals);
    assert_eq!(top, vec![24000, 11000, 10000]);
    assert_eq!(total(&top), 45000);
}

#[test]
fn calories_bad_line() {
    let input = lines(&["1000", "x"]);
    assert!(elf_totals(&input).is_err());
}

#[test]
fn rochambeau_example() {
    let input = lines(&["A Y", "B X", "C Z"]);
    let rounds = parse_rounds(&input).ok().unwrap();
    assert_eq!(score(&rounds, false).ok().unwrap(), 15);
    assert_eq!(score(&rounds, true).ok().unwrap(), 12);
}

#[test]
fn rucksack_example() {
    let input = lines(&[
        "vJrwpWtwJgWrhcsFMMfFFhFp",
        "jqHRNqRjqzjGDLGLrsFMfFZSrLrFZsSL",
        "PmmdzqPrVvPwwTWBwg",
        "wMqvLMZHhHMvwLHjbvcjnnSBnvTQFn",
        "ttgJtRGJQctTZtZT",
        "CrZsJsPPZsGzwwsLwLmpwMDw",
    ]);
    assert_eq!(line_priority("vJrwpWtwJgWrhcsFMMfFFhFp"), 16);
    assert_eq!(total_priority(&input), 157);
}

#[test]
fn cleanup_example() {
    let input = lines(&["2-4,6-8", "2-3,4-5", "5-7,7-9", "2-8,3-7", "6-6,4-6", "2-6,4-8"]);
    let pairs = parse_pairs(&input).ok().unwrap();
    assert_eq!(count_redundant(&pairs), 2);
    assert!(is_redundant_pair(&(2..=8, 3..=7)));
    assert!(!is_redundant_pair(&(2..=4, 6..=8)));
    assert_eq!(parse_number("17").ok().unwrap(), 17);
    assert!(parse_number("x").is_err());
    assert_eq!(parse_range("3-7").ok().unwrap(), 3..=7);
    assert!(parse_range("37").is_err());
}

#[test]
fn streams_example() {
    assert_eq!(find_marker("mjqjpqmgbljsphdztnvjfqwrcgsmlb").ok().unwrap(), 7);
    assert_eq!(find_marker("bvwbjplbgvbhsrlpgdmjqwftvncz").ok().unwrap(), 5);
    assert!(find_marker("aaaa").is_err());
}

#[test]
fn heat_decode() {
    assert_eq!(decode("1=-0-2").ok().unwrap(), 1747);
    assert_eq!(decode("2=-01").ok().unwrap(), 976);
    assert_eq!(decode("1121-1110-1=0").ok().unwrap(), 314159265);
    assert_eq!(decode("").ok().unwrap(), 0);
    assert!(decode("12x").is_err());
}

#[test]
fn cleanup_range_reads_back() {
    for (a, b) in [(0u32, 0u32), (12, 3), (u32::MAX, 5), (7, u32::MAX)] {
        assert_eq!(parse_range(&format!("{}-{}", a, b)).ok().unwrap(), a..=b);
    }
}
