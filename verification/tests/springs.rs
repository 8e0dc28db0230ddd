use advent::y2023::springs::{parse_dots, parse_num_list, parse_pounds, parse_tail, process_record, read_input, Record, SpringError};

fn lines(v: &[&str]) -> Vec<String> {
    v.iter().map(|s| s.to_string()).collect()
}

fn example() -> Vec<String> {
    lines(&[
        "???.### 1,1,3",
        ".??..??...?##. 1,1,3",
        "",
        "?#?#?#?#?#?#?#? 1,3,1,6",
        "????.#...#... 4,1,1",
        "????.######..#####. 1,6,5",
        "?###???????? 3,2,1",
    ])
}

#[test]
fn springs_example_part1() {
    let records = read_input(&example()).ok().unwrap();
    assert_eq!(records.len(), 6);
    let ways: Vec<usize> = records.iter().map(|r| process_record(r).unwrap()).collect();
    assert_eq!(ways, vec![1, 4, 1, 1, 4, 10]);
    assert_eq!(ways.iter().sum::<usize>(), 21);
}

#[test]
fn springs_example_part2() {
    let records = read_input(&example()).ok().unwrap();
    let expected = [1usize, 16384, 1, 16, 2500];
    for (r, e) in records.iter().zip(expected.iter()) {
        assert_eq!(process_record(&r.expand()).unwrap(), *e);
    }
}

#[test]
fn springs_expand() {
    let r = Record { text: ".#".to_string(), counts: vec![1] };
    let e = r.expand();
    assert_eq!(e.text, ".#?.#?.#?.#?.#");
    assert_eq!(e.counts, vec![1, 1, 1, 1, 1]);
}

#[test]
fn springs_pieces() {
    let line: Vec<char> = "#.#?".chars().collect();
    let nums = vec![1usize, 2];
    assert!(!parse_tail(&line, 0));
    assert!(parse_tail(&line, 3));
    assert_eq!(parse_pounds(&line, 0, &nums, 0), 1);
    assert_eq!(parse_pounds(&line, 1, &nums, 0), 0);
    assert_eq!(parse_pounds(&line, 2, &nums, 1), 1);
    assert_eq!(parse_dots(&line, 1, &nums, 1), 1);
    assert_eq!(parse_dots(&line, 0, &vec![1usize, 1], 0), 1);
}

#[test]
fn springs_errors() {
    assert_eq!(read_input(&lines(&["???"])).err(), Some(SpringError::NoSpace));
    assert_eq!(read_input(&lines(&["??? 1,x"])).err(), Some(SpringError::BadNumber));
    assert_eq!(parse_num_list(" 3 , 4").ok(), Some(vec![3usize, 4]));
    assert_eq!(parse_num_list("3,-4").err(), Some(SpringError::BadNumber));
    // A spring that is none of `.#?` stops the count where it is looked at.
    let bad = Record { text: "x#".to_string(), counts: vec![1] };
    assert_eq!(process_record(&bad), None);
    let empty = Record { text: "#".to_string(), counts: vec![] };
    assert_eq!(process_record(&empty), None);
}
