use advent::text::split_words;
use advent::y2023::almanac::{Input, MapRange, Mapping, Range};

fn mapping(triples: &[(i64, i64, i64)]) -> Mapping {
    let mut ranges: Vec<MapRange> = triples.iter().map(|t| MapRange::new(t.0, t.1, t.2)).collect();
    ranges.sort_by_key(|r| r.src.start);
    Mapping { ranges }
}

fn example() -> Input {
    Input {
        seeds: vec![79, 14, 55, 13],
        maps: vec![
            mapping(&[(50, 98, 2), (52, 50, 48)]),
            mapping(&[(0, 15, 37), (37, 52, 2), (39, 0, 15)]),
            mapping(&[(49, 53, 8), (0, 11, 42), (42, 0, 7), (57, 7, 4)]),
            mapping(&[(88, 18, 7), (18, 25, 70)]),
            mapping(&[(45, 77, 23), (81, 45, 19), (68, 64, 13)]),
            mapping(&[(0, 69, 1), (1, 0, 69)]),
            mapping(&[(60, 56, 37), (56, 93, 4)]),
        ],
    }
}

#[test]
fn almanac_seed_locations() {
    let input = example();
    assert_eq!(input.location_for_seed(79), 82);
    assert_eq!(input.location_for_seed(14), 43);
    assert_eq!(input.location_for_seed(55), 86);
    assert_eq!(input.location_for_seed(13), 35);
}

#[test]
fn almanac_example_parts() {
    let input = example();
    assert_eq!(input.part1(), 35);
    assert_eq!(input.part2(), 46);
}

#[test]
fn almanac_single_numbers() {
    let m = mapping(&[(50, 98, 2), (52, 50, 48)]);
    assert_eq!(m.map_single(98), 50);
    assert_eq!(m.map_single(99), 51);
    assert_eq!(m.map_single(100), 100);
    assert_eq!(m.map_single(53), 55);
    assert_eq!(m.map_single(10), 10);
    assert_eq!(m.map(79), 81);
}

#[test]
fn almanac_range_pieces() {
    let m = mapping(&[(50, 98, 2), (52, 50, 48)]);
    let pieces = m.map_range(&Range { start: 45, len: 60 });
    let got: Vec<(i64, i64)> = pieces.iter().map(|r| (r.start, r.len)).collect();
    assert_eq!(got, vec![(45, 5), (52, 48), (50, 2), (100, 5)]);
    assert!(m.map_range(&Range { start: 3, len: 0 }).is_empty());
    let inside = m.map_range(&Range { start: 60, len: 10 });
    let got: Vec<(i64, i64)> = inside.iter().map(|r| (r.start, r.len)).collect();
    assert_eq!(got, vec![(62, 10)]);
}

#[test]
fn words_split_on_whitespace() {
    assert_eq!(split_words("  50 98\t2 "), vec!["50", "98", "2"]);
    assert!(split_words("   ").is_empty());
    assert_eq!(split_words("seed"), vec!["seed"]);
}

#[test]
fn almanac_empty_map_empty_source() {
    let m = Mapping { ranges: Vec::new() };
    assert!(m.map_range(&Range { start: 7, len: 0 }).is_empty());
    assert_eq!(m.map_single(7), 7);
}
