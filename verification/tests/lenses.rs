use advent::y2023::lenses::{hash, part2, Drawer, ErrorKind, LensBox};

const EXAMPLE: &str = "rn=1,cm-,qp=3,cm=2,qp-,pc=4,ot=9,ab=5,pc-,pc=6,ot=7\n";

#[test]
fn lenses_hash() {
    assert_eq!(hash("HASH"), 52);
    assert_eq!(hash("rn=1"), 30);
    assert_eq!(hash("rn"), 0);
    assert_eq!(hash("qp"), 1);
    assert_eq!(hash(EXAMPLE), 1320);
    assert_eq!(hash(""), 0);
}

#[test]
fn lenses_example() {
    assert_eq!(part2(EXAMPLE).ok().unwrap(), 145);
}

#[test]
fn lenses_box_operations() {
    let mut b = LensBox::new();
    b.upsert("rn", 1);
    b.upsert("cm", 2);
    b.upsert("rn", 5);
    assert_eq!(b.lenses.len(), 2);
    assert_eq!(b.lenses[0].1, 5);
    assert_eq!(b.score(), 5 + 2 * 2);
    b.delete("rn");
    assert_eq!(b.lenses.len(), 1);
    assert_eq!(b.score(), 2);
}

#[test]
fn lenses_errors() {
    let mut d = Drawer::new();
    assert_eq!(d.apply("rn").err().unwrap().kind, ErrorKind::InvalidCommand);
    let e = d.apply("rn=x").err().unwrap();
    assert_eq!(e.kind, ErrorKind::InvalidNumber);
    assert_eq!(e.text, "x");
    assert!(d.apply("rn=1").is_ok());
    assert_eq!(d.score(), 1);
    assert!(part2("ab=1,cd").is_err());
}
