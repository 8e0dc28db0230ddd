use advent::y2023::beams::{process as beam_process, read_input as read_beams};
use advent::y2023::garden::{process as garden_process, read_garden};
use advent::y2023::workflows::{read_input as read_workflows, split_range, Constraints, Field, Op, Part, Rule, Consequent};

fn lines(v: &[&str]) -> Vec<String> {
    v.iter().map(|s| s.to_string()).collect()
}

fn example_workflows() -> Vec<String> {
    lines(&[
        "px{a<2006:qkq,m>2090:A,rfg}", "pv{a>1716:R,A}", "lnx{m>1548:A,A}", "rfg{s<537:gd,x>2440:R,A}",
        "qs{s>3448:A,lnx}", "qkq{x<1416:A,crn}", "crn{x>2662:A,R}", "in{s<1351:px,qqz}",
        "qqz{s>2770:qs,m<1801:hdj,R}", "gd{a>3333:R,R}", "hdj{m>838:A,pv}", "",
        "{x=787,m=2655,a=1222,s=2876}", "{x=1679,m=44,a=2067,s=496}", "{x=2036,m=264,a=79,s=2244}",
        "{x=2461,m=1339,a=466,s=291}", "{x=2127,m=1623,a=2188,s=1013}",
    ])
}

#[test]
fn workflows_example() {
    let (machine, parts) = read_workflows(&example_workflows()).ok().unwrap();
    assert_eq!(parts.len(), 5);
    assert_eq!(machine.apply_all(&parts).ok().unwrap(), 19114);
    assert_eq!(machine.count_possibilities(), 167409079868000);
}

#[test]
fn workflows_parse_errors() {
    assert!(Part::from_str("{x=1,m=2,a=3}").is_err());
    assert!(Part::from_str("{x=1,m=2,a=3,s=4}x").is_err());
    let p = Part::from_str("{x=1,m=2,a=3,s=4}").ok().unwrap();
    assert_eq!(p.score(), 10);
    assert!(Field::from_str("q").is_err());
    assert!(Consequent::from_str("a1").is_err());
    assert!(Rule::from_str("x<10").is_err());
}

#[test]
fn workflows_split() {
    let rule = Rule { condition_field: Field::X, condition_op: Op::LessThan, condition_amount: 10, consequent: Consequent::Accept };
    let (a, b) = split_range(&(1..=20), &rule);
    assert_eq!(a, Some(1..=9));
    assert_eq!(b, Some(10..=20));
    let rule = Rule { condition_field: Field::X, condition_op: Op::GreaterThan, condition_amount: 30, consequent: Consequent::Reject };
    let (a, b) = split_range(&(1..=20), &rule);
    assert_eq!(a, None);
    assert_eq!(b, Some(1..=20));
    assert_eq!(Constraints::new().count(), 256000000000000);
}

#[test]
fn workflows_split_counts_add_up() {
    let c = Constraints { x: 1..=10, m: 1..=10, a: 1..=10, s: 1..=10 };
    let rule = Rule { condition_field: Field::M, condition_op: Op::LessThan, condition_amount: 4, consequent: Consequent::Accept };
    let (c1, c2) = c.split(&rule);
    let (c1, c2) = (c1.unwrap(), c2.unwrap());
    assert_eq!(c1.m, 1..=3);
    assert_eq!(c2.m, 4..=10);
    assert_eq!(c1.x, 1..=10);
    assert_eq!(c1.count() + c2.count(), c.count());
    assert_eq!(c.count(), 10000);
    let wide = Constraints { x: 0..=99999, m: 0..=99999, a: 0..=99999, s: 0..=99 };
    assert_eq!(wide.count(), 10u64.pow(17));
}

#[test]
fn workflows_count_matches_brute_force() {
    let (machine, _) = read_workflows(&lines(&["in{x<3:aa,s>2:A,R}", "aa{m>1:R,a<4:A,R}", "", "{x=1,m=2,a=3,s=4}"])).ok().unwrap();
    let c = Constraints { x: 1..=4, m: 1..=4, a: 1..=4, s: 1..=4 };
    let counted = machine.count_possibilities_internal("in", c, 10);
    let mut brute = 0u64;
    for x in 1..=4i64 {
        for m in 1..=4i64 {
            for a in 1..=4i64 {
                for s in 1..=4i64 {
                    if machine.apply(&Part { x, m, a, s }).ok().unwrap() {
                        brute += 1;
                    }
                }
            }
        }
    }
    assert_eq!(counted, brute);
    assert_eq!(counted, 2 * 1 * 3 * 4 + 2 * 4 * 4 * 2);
}

#[test]
fn workflows_missing_state() {
    let (machine, parts) = read_workflows(&lines(&["in{x<10:zz,R}", "", "{x=1,m=2,a=3,s=4}"])).ok().unwrap();
    assert!(machine.apply_all(&parts).is_err());
}

#[test]
fn beams_example() {
    let input = lines(&[
        ".|...\\....", "|.-.\\.....", ".....|-...", "........|.", "..........", ".........\\", "..../.\\\\..",
        ".-.-/..|..", ".|....-|.\\", "..//.|....",
    ]);
    let mut grid = read_beams(&input);
    assert_eq!(grid.width, 10);
    assert_eq!(grid.height, 10);
    let (ans1, ans2) = beam_process(&mut grid);
    assert_eq!(ans1, 46);
    assert_eq!(ans2, 51);
}

#[test]
fn garden_open_field() {
    let row: String = std::iter::repeat('.').take(131).collect();
    let input: Vec<String> = (0..131).map(|_| row.clone()).collect();
    let g = read_garden(&input).ok().unwrap();
    assert_eq!(garden_process(&g).ok().unwrap(), 4225);
    assert!(read_garden(&lines(&["..x"])).is_err());
    assert!(read_garden(&lines(&["...", ".."])).is_err());
}
