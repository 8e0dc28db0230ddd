use advent::y2022::valves::{
    bfs_search1, bfs_search2, build_adj, compare, get_useful_valves, process, read_input, ErrorKind, Path, Valve,
};

fn example() -> Vec<String> {
    [
        "Valve AA has flow rate=0; tunnels lead to valves DD, II, BB",
        "Valve BB has flow rate=13; tunnels lead to valves CC, AA",
        "Valve CC has flow rate=2; tunnels lead to valves DD, BB",
        "Valve DD has flow rate=20; tunnels lead to valves CC, AA, EE",
        "Valve EE has flow rate=3; tunnels lead to valves FF, DD",
        "Valve FF has flow rate=0; tunnels lead to valves EE, GG",
        "Valve GG has flow rate=0; tunnels lead to valves FF, HH",
        "Valve HH has flow rate=22; tunnel leads to valve GG",
        "Valve II has flow rate=0; tunnels lead to valves AA, JJ",
        "Valve JJ has flow rate=21; tunnel leads to valve II",
    ]
    .iter()
    .map(|s| s.to_string())
    .collect()
}

fn id(name: &str) -> i64 {
    i64::from_str_radix(name, 36).unwrap()
}

#[test]
fn valves_parse_line() {
    let v = Valve::parse("Valve AA has flow rate=0; tunnels lead to valves DD, II, BB").ok().unwrap();
    assert_eq!(v.id, 370);
    assert_eq!(v.rate, 0);
    assert_eq!(v.tunnels, vec![id("DD"), id("II"), id("BB")]);
    let v = Valve::parse("Valve HH has flow rate=22; tunnel leads to valve GG").ok().unwrap();
    assert_eq!(v.id, id("HH"));
    assert_eq!(v.rate, 22);
    assert_eq!(v.tunnels, vec![id("GG")]);
}

#[test]
fn valves_parse_errors() {
    let kind = |s: &str| Valve::parse(s).err().unwrap().kind;
    assert_eq!(kind("Pipe AA has flow rate=0; tunnel leads to valve GG"), ErrorKind::MissingValve);
    assert_eq!(kind("Valve AA"), ErrorKind::MissingSpace);
    assert_eq!(kind("Valve AA flows; tunnel leads to valve GG"), ErrorKind::MissingRate);
    assert_eq!(kind("Valve AA has flow rate=0 tunnel leads to valve GG"), ErrorKind::MissingSemicolon);
    assert_eq!(kind("Valve AA has flow rate=0; pipes to GG"), ErrorKind::MissingTunnels);
    assert_eq!(kind("Valve AA has flow rate=x; tunnel leads to valve GG"), ErrorKind::InvalidNumber);
    assert_eq!(kind("Valve A! has flow rate=1; tunnel leads to valve GG"), ErrorKind::InvalidName);
    let e = Valve::parse("Valve AA has flow rate=1; tunnels lead to valves GG, H?").err().unwrap();
    assert_eq!(e.kind, ErrorKind::InvalidTunnel);
    assert_eq!(e.text, "H?");
}

#[test]
fn valves_read_replaces_duplicates() {
    let mut lines = example();
    lines.push("".to_string());
    lines.push("Valve BB has flow rate=7; tunnel leads to valve AA".to_string());
    let valves = read_input(&lines).ok().unwrap();
    assert_eq!(valves.len(), 10);
    assert_eq!(valves[1].id, id("BB"));
    assert_eq!(valves[1].rate, 7);
}

#[test]
fn valves_distances() {
    let valves = read_input(&example()).ok().unwrap();
    let adj = build_adj(&valves);
    assert_eq!(adj.get(id("AA"), id("AA")), Some(0));
    assert_eq!(adj.get(id("AA"), id("DD")), Some(1));
    assert_eq!(adj.get(id("AA"), id("CC")), Some(2));
    assert_eq!(adj.get(id("AA"), id("HH")), Some(5));
    assert_eq!(adj.get(id("JJ"), id("HH")), Some(7));
    assert_eq!(adj.get(id("AA"), id("ZZ")), None);
    let useful = get_useful_valves(&valves);
    let rates: Vec<i32> = useful.iter().map(|v| v.rate).collect();
    assert_eq!(rates, vec![13, 2, 20, 3, 22, 21]);
}

#[test]
fn valves_path_order() {
    let p = |v: Vec<i64>| Path { path: v };
    assert_eq!(compare(&p(vec![1, 2]), &p(vec![1, 3])), std::cmp::Ordering::Less);
    assert_eq!(compare(&p(vec![1, 2]), &p(vec![1, 2])), std::cmp::Ordering::Equal);
    assert_eq!(compare(&p(vec![1, 2, 0]), &p(vec![1, 2])), std::cmp::Ordering::Greater);
    assert_eq!(compare(&p(vec![1]), &p(vec![1, 0])), std::cmp::Ordering::Less);
}

#[test]
fn valves_example_alone() {
    let valves = read_input(&example()).ok().unwrap();
    let adj = build_adj(&valves);
    let useful = get_useful_valves(&valves);
    assert_eq!(bfs_search1(&useful, &adj, 30), 1651);
    assert_eq!(process(&example(), 30, false).ok().unwrap(), Some(1651));
}

#[test]
fn valves_example_with_elephant() {
    let valves = read_input(&example()).ok().unwrap();
    let adj = build_adj(&valves);
    let useful = get_useful_valves(&valves);
    assert_eq!(bfs_search2(&useful, &adj, 26), 1707);
}

#[test]
fn valves_out_of_time() {
    let valves = read_input(&example()).ok().unwrap();
    let adj = build_adj(&valves);
    let useful = get_useful_valves(&valves);
    assert_eq!(bfs_search1(&useful, &adj, 1), 0);
    assert_eq!(process(&example(), 3, false).ok().unwrap(), Some(20));
}

#[test]
fn valves_pruning_can_miss_the_best() {
    // Opening BB, then DD, then CC releases 35 by minute 8, but the search
    // drops the walk BB, DD because an earlier walk reached DD at the same
    // minute with more pressure, and finds 34.
    let ls: Vec<String> = vec![
        "Valve AA has flow rate=0; tunnels lead to valves BB, DD".to_string(),
        "Valve BB has flow rate=4; tunnel leads to valve AA".to_string(),
        "Valve CC has flow rate=5; tunnel leads to valve DD".to_string(),
        "Valve DD has flow rate=2; tunnels lead to valves AA, CC".to_string(),
    ];
    assert_eq!(process(&ls, 8, false).ok().unwrap(), Some(34));
}

#[test]
fn valves_shortest_distances() {
    let valves = read_input(&example()).ok().unwrap();
    let adj = build_adj(&valves);
    let n = valves.len();
    // AA to HH: AA, DD, EE, FF, GG, HH.
    let aa = valves.iter().position(|v| v.id == valves[0].id).unwrap();
    let hh = valves.iter().position(|v| v.id == i64::from_str_radix("HH", 36).unwrap()).unwrap();
    assert_eq!(adj.dist[aa * n + hh], Some(5));
    assert_eq!(adj.dist[aa * n + aa], Some(0));
}

#[test]
fn valves_large_rates_fit() {
    let ls: Vec<String> = vec![
        "Valve AA has flow rate=0; tunnel leads to valve BB".to_string(),
        "Valve BB has flow rate=10000000; tunnel leads to valve AA".to_string(),
    ];
    assert_eq!(process(&ls, 30, false).ok().unwrap(), Some(280000000));
    assert_eq!(process(&ls, 30, true).ok().unwrap(), Some(280000000));
    let big: Vec<String> = vec![
        "Valve AA has flow rate=0; tunnel leads to valve BB".to_string(),
        "Valve BB has flow rate=100000000; tunnel leads to valve AA".to_string(),
    ];
    assert_eq!(process(&big, 30, false).ok().unwrap(), None);
}

#[test]
fn valves_two_valve_plans_are_seen() {
    let ls: Vec<String> = vec![
        "Valve AA has flow rate=0; tunnel leads to valve BB".to_string(),
        "Valve BB has flow rate=10; tunnels lead to valves AA, CC".to_string(),
        "Valve CC has flow rate=20; tunnel leads to valve BB".to_string(),
    ];
    assert_eq!(process(&ls, 10, false).ok().unwrap(), Some(200));
    assert_eq!(process(&ls, 10, true).ok().unwrap(), Some(220));
}
