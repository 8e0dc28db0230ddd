use advent::y2023::pulses::{process, read_input, run, ErrorKind, Module, ModuleType};

fn lines(v: &[&str]) -> Vec<String> {
    v.iter().map(|s| s.to_string()).collect()
}

#[test]
fn pulses_first_example() {
    let input = lines(&["broadcaster -> a, b, c", "%a -> b", "%b -> c", "%c -> inv", "&inv -> a"]);
    assert_eq!(process(&input, u64::MAX).ok().unwrap(), Some(32000000));
}

#[test]
fn pulses_second_example() {
    let input = lines(&["broadcaster -> a", "%a -> inv, con", "&inv -> b", "%b -> con", "&con -> output"]);
    let mut net = read_input(&input).ok().unwrap();
    assert_eq!(net.modules.len(), 6);
    assert_eq!(run(&mut net, u64::MAX), Some(11687500));
}

#[test]
fn pulses_reading() {
    let m = Module::from_str("%a -> inv, con").ok().unwrap();
    assert_eq!(m.typ, ModuleType::FlipFlop);
    assert_eq!(m.name, "a");
    assert_eq!(m.outputs, vec!["inv", "con"]);
    let m = Module::from_str("&con -> output").ok().unwrap();
    assert_eq!(m.typ, ModuleType::Conjunction);
    assert_eq!(m.name, "con");
    let m = Module::from_str("broadcaster -> a").ok().unwrap();
    assert_eq!(m.typ, ModuleType::Broadcaster);
    assert_eq!(Module::from_str("broadcaster a").err().unwrap().kind, ErrorKind::MissingArrow);
    let input = lines(&["broadcaster -> a", "%a -> inv, con", "&inv -> b", "%b -> con", "&con -> output"]);
    let net = read_input(&input).ok().unwrap();
    let con = net.modules.iter().position(|m| m.name == "con").unwrap();
    assert_eq!(net.modules[con].inputs, vec!["a", "b"]);
    assert_eq!(net.memory[con].len(), 2);
    assert!(net.memory[con].iter().all(|e| !e.1));
    assert_eq!(net.broadcaster, Some(0));
}

#[test]
fn pulses_step_budget() {
    let input = lines(&["broadcaster -> a, b, c", "%a -> b", "%b -> c", "%c -> inv", "&inv -> a"]);
    assert_eq!(process(&input, 100).ok().unwrap(), None);
    let looping = lines(&["broadcaster -> x", "&x -> x"]);
    assert_eq!(process(&looping, 10_000).ok().unwrap(), None);
}
