use ipcheck::prefix::Prefix;
use ipcheck::prefix_set::PrefixSet;
use ipcheck::trie::{flatten, unflatten, Trie};

fn trie_to_range(trie: Trie, width: usize) -> PrefixSet {
    let mut range = PrefixSet::from_trie(&trie, width).unwrap();
    range.simplify();
    range
}

fn v4(s: &str) -> Prefix {
    Prefix::parse_v4(s).unwrap()
}

fn v6(s: &str) -> Prefix {
    Prefix::parse_v6(s).unwrap()
}

fn round_trip(range: &PrefixSet) -> PrefixSet {
    let trie = range.clone().into_trie().unwrap();
    let nodes = flatten(trie);
    let reconstructed_trie = unflatten(&nodes).unwrap();
    trie_to_range(reconstructed_trie, range.width())
}

#[test]
fn test_trie_conversion_roundtrip() {
    let mut original_range = PrefixSet::new_v4();
    original_range.add(v4("192.168.0.0/24"));
    original_range.add(v4("10.0.0.0/8"));
    let reconstructed_range = round_trip(&original_range);
    assert!(original_range.same_as(&reconstructed_range));
}

#[test]
fn test_single_ip() {
    let mut original_range = PrefixSet::new_v4();
    original_range.add(v4("192.168.1.1/32"));
    let reconstructed_range = round_trip(&original_range);
    assert!(original_range.same_as(&reconstructed_range));
    assert_eq!(reconstructed_range.prefixes(), vec![v4("192.168.1.1/32").bits]);
}

#[test]
fn test_multiple_ranges() {
    let mut original_range = PrefixSet::new_v4();
    original_range.add(v4("192.168.0.0/16"));
    original_range.add(v4("10.0.0.0/8"));
    original_range.add(v4("172.16.0.0/12"));
    let reconstructed_range = round_trip(&original_range);
    assert!(original_range.same_as(&reconstructed_range));
    assert_eq!(reconstructed_range.prefixes().len(), 3);
}

#[test]
fn test_ipv6_conversion() {
    let mut original_range = PrefixSet::new_v6();
    original_range.add(v6("2001:db8::/32"));
    original_range.add(v6("fe80::/10"));
    let reconstructed_range = round_trip(&original_range);
    assert!(original_range.same_as(&reconstructed_range));
}
