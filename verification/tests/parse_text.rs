use network::parse_text::{parse_line, parse_pattern, PatternError};
use std::collections::HashMap;

const PATTERN: &str = "^(?P<from>[[:alnum:]]+).(?P<to>[[:alnum:]]+)\\s+(?P<cost>\\d+.\\d+).*$";

#[test]
fn test_pattern_match() {
    let pattern = "^(?P<from>[[:alnum:]]+).(?P<to>[[:alnum:]]+)\\s+(?P<cost>\\d+.\\d+).*$";
    let regex = parse_pattern(pattern).unwrap();
    let to_match = "nW0770230N0388068.nW0770230N0388073   000.0345 065 11 {DC}";
    let mut node_to_id: HashMap<String, u32> = HashMap::new();
    let mut next_node = 0;
    let parsed = parse_line(to_match, &regex, &mut node_to_id, &mut next_node);
    assert_eq!(2, node_to_id.len());
    assert!(parse_pattern(r"^([[:alnum:]]+)$").is_ok());
    let single = parse_pattern(r"^(?P<from>[[:alnum:]]+)$").unwrap();
    let mut names: HashMap<String, u32> = HashMap::new();
    let mut next = 0;
    parse_line("nW0770230N0388068", &single, &mut names, &mut next);
    assert_eq!(Some(&0), names.get("nW0770230N0388068"));
    assert_eq!(Some(&0), node_to_id.get("nW0770230N0388068"));
    assert_eq!(Some(&1), node_to_id.get("nW0770230N0388073"));
    assert_eq!(Some("000.0345".to_string()), parsed.cost);
    assert_eq!(0, parsed.from);
    assert_eq!(1, parsed.to);
    assert_eq!(2, next_node);
    assert_eq!(None, parsed.cap);
}

#[test]
fn a_pattern_that_is_none_is_refused() {
    assert_eq!(Some(PatternError::Invalid), parse_pattern("foo(bar").err());
    assert_eq!(Some(PatternError::Invalid), parse_pattern(r"(?P<from>a)(?P<from>b)").err());
    assert!(parse_pattern("").is_ok());
    assert!(parse_pattern(PATTERN).is_ok());
}

#[test]
fn names_keep_the_id_of_their_first_line() {
    let regex = parse_pattern(PATTERN).unwrap();
    let mut node_to_id: HashMap<String, u32> = HashMap::new();
    let mut next_node = 0;
    let lines = ["a.b 1.5", "b.c 2.25", "c.a 0.5 7", "d.d 3.0"];
    let mut ends = Vec::new();
    let mut costs = Vec::new();
    for line in lines {
        let parsed = parse_line(line, &regex, &mut node_to_id, &mut next_node);
        ends.push((parsed.from, parsed.to));
        costs.push(parsed.cost);
        assert_eq!(None, parsed.cap);
    }
    assert_eq!(vec![(0, 1), (1, 2), (2, 0), (3, 3)], ends);
    assert_eq!(
        vec![
            Some("1.5".to_string()),
            Some("2.25".to_string()),
            Some("0.5".to_string()),
            Some("3.0".to_string())
        ],
        costs
    );
    assert_eq!(4, next_node);
    assert_eq!(4, node_to_id.len());
    assert_eq!(Some(&3), node_to_id.get("d"));
}

#[test]
fn capacity_is_read_where_the_pattern_names_it() {
    let regex =
        parse_pattern(r"^(?P<from>\w+) (?P<to>\w+) (?P<cost>\d+)(?: (?P<cap>\d+))?$").unwrap();
    let mut node_to_id: HashMap<String, u32> = HashMap::new();
    let mut next_node = 5;
    let parsed = parse_line("x y 12 34", &regex, &mut node_to_id, &mut next_node);
    assert_eq!((5, 6), (parsed.from, parsed.to));
    assert_eq!(Some("12".to_string()), parsed.cost);
    assert_eq!(Some("34".to_string()), parsed.cap);
    let parsed = parse_line("y x 56", &regex, &mut node_to_id, &mut next_node);
    assert_eq!((6, 5), (parsed.from, parsed.to));
    assert_eq!(Some("56".to_string()), parsed.cost);
    assert_eq!(None, parsed.cap);
    assert_eq!(7, next_node);
}

#[test]
fn a_line_that_does_not_match_names_the_empty_node_twice() {
    let regex = parse_pattern(PATTERN).unwrap();
    let mut node_to_id: HashMap<String, u32> = HashMap::new();
    let mut next_node = 0;
    let parsed = parse_line("no edge here", &regex, &mut node_to_id, &mut next_node);
    assert_eq!((0, 0), (parsed.from, parsed.to));
    assert_eq!(None, parsed.cost);
    assert_eq!(None, parsed.cap);
    assert_eq!(1, next_node);
    assert_eq!(Some(&0), node_to_id.get(""));
    let parsed = parse_line("a.b 1.0", &regex, &mut node_to_id, &mut next_node);
    assert_eq!((1, 2), (parsed.from, parsed.to));
}
