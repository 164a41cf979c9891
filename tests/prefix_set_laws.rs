use ipcheck::prefix::Prefix;
use ipcheck::prefix_set::PrefixSet;
use ipcheck::trie::{flatten, unflatten, Trie, TrieNode};

fn bits(s: &str) -> Vec<bool> {
    Prefix::parse_v4(s).unwrap().bits
}

#[test]
fn parse_keeps_leading_bits_only() {
    let p = Prefix::parse_v4("10.1.2.3/8").unwrap();
    assert_eq!(p.len(), 8);
    assert_eq!(p.bits, vec![false, false, false, false, true, false, true, false]);
    let q = Prefix::parse_v4("192.168.1.1/32").unwrap();
    assert_eq!(q.len(), 32);
    assert!(q.bits[0] && q.bits[1] && !q.bits[2]);
    assert!(q.bits[31] && !q.bits[30]);
}

#[test]
fn parse_v6_bits() {
    let p = Prefix::parse_v6("fe80::/10").unwrap();
    assert_eq!(p.bits, vec![true, true, true, true, true, true, true, false, true, false]);
    assert_eq!(Prefix::parse_v6("::/0").unwrap().len(), 0);
}

#[test]
fn parse_rejects_malformed() {
    assert!(Prefix::parse_v4("10.0.0.0").is_none());
    assert!(Prefix::parse_v4("10.0.0.0/33").is_none());
    assert!(Prefix::parse_v4("300.0.0.0/8").is_none());
    assert!(Prefix::parse_v4("2001:db8::/32").is_none());
    assert!(Prefix::parse_v6("2001:db8::/129").is_none());
    assert!(Prefix::parse_v6("10.0.0.0/8").is_none());
}

#[test]
fn sibling_merge() {
    let mut s = PrefixSet::new_v4();
    s.add(Prefix::parse_v4("10.0.0.0/9").unwrap());
    s.add(Prefix::parse_v4("10.128.0.0/9").unwrap());
    s.simplify();
    assert_eq!(s.prefixes(), vec![bits("10.0.0.0/8")]);
}

#[test]
fn sibling_merge_cascades() {
    let mut s = PrefixSet::new_v4();
    s.add(Prefix::parse_v4("10.0.0.0/10").unwrap());
    s.add(Prefix::parse_v4("10.64.0.0/10").unwrap());
    s.add(Prefix::parse_v4("10.128.0.0/9").unwrap());
    s.simplify();
    assert_eq!(s.prefixes(), vec![bits("10.0.0.0/8")]);
}

#[test]
fn containment_pruning() {
    let mut s = PrefixSet::new_v4();
    s.add(Prefix::parse_v4("10.0.0.0/8").unwrap());
    s.add(Prefix::parse_v4("10.1.2.3/32").unwrap());
    s.simplify();
    assert_eq!(s.prefixes(), vec![bits("10.0.0.0/8")]);
}

#[test]
fn duplicates_collapse() {
    let mut s = PrefixSet::new_v4();
    s.add(Prefix::parse_v4("10.0.0.0/8").unwrap());
    s.add(Prefix::parse_v4("10.0.0.0/8").unwrap());
    s.simplify();
    assert_eq!(s.prefixes(), vec![bits("10.0.0.0/8")]);
}

#[test]
fn disjoint_preserved() {
    let mut s = PrefixSet::new_v4();
    s.add(Prefix::parse_v4("192.168.0.0/16").unwrap());
    s.add(Prefix::parse_v4("10.0.0.0/8").unwrap());
    s.add(Prefix::parse_v4("172.16.0.0/12").unwrap());
    let before = s.prefixes();
    s.simplify();
    assert_eq!(s.prefixes(), before);
}

#[test]
fn simplify_is_idempotent() {
    let mut s = PrefixSet::new_v4();
    s.add(Prefix::parse_v4("10.0.0.0/9").unwrap());
    s.add(Prefix::parse_v4("10.128.0.0/9").unwrap());
    s.add(Prefix::parse_v4("10.1.0.0/16").unwrap());
    s.add(Prefix::parse_v4("192.168.1.0/24").unwrap());
    s.simplify();
    let once = s.prefixes();
    s.simplify();
    assert_eq!(s.prefixes(), once);
}

#[test]
fn order_does_not_matter() {
    let mut a = PrefixSet::new_v4();
    a.add(Prefix::parse_v4("10.0.0.0/9").unwrap());
    a.add(Prefix::parse_v4("10.128.0.0/9").unwrap());
    a.add(Prefix::parse_v4("1.2.3.0/24").unwrap());
    let mut b = PrefixSet::new_v4();
    b.add(Prefix::parse_v4("1.2.3.0/24").unwrap());
    b.add(Prefix::parse_v4("10.128.0.0/9").unwrap());
    b.add(Prefix::parse_v4("10.0.0.0/9").unwrap());
    b.add(Prefix::parse_v4("10.3.0.0/16").unwrap());
    assert!(a.same_as(&b));
    let mut c = PrefixSet::new_v4();
    c.add(Prefix::parse_v4("10.0.0.0/9").unwrap());
    assert!(!a.same_as(&c));
}

#[test]
fn empty_set_has_no_trie() {
    let s = PrefixSet::new_v4();
    assert!(s.into_trie().is_none());
}

#[test]
fn flat_array_structure() {
    let mut s = PrefixSet::new_v4();
    s.add(Prefix::parse_v4("128.0.0.0/2").unwrap());
    s.add(Prefix::parse_v4("0.0.0.0/1").unwrap());
    let nodes = flatten(s.into_trie().unwrap());
    // root, its two children, and the child of 1 on bit 0
    assert_eq!(nodes, vec![(2, 1), (3, 0), (0, 0), (0, 0)]);
    for (i, (l, r)) in nodes.iter().enumerate() {
        assert!(*l == 0 || *l > i);
        assert!(*r == 0 || *r > i);
    }
}

#[test]
fn flat_length_counts_nodes_v6() {
    let mut s = PrefixSet::new_v6();
    s.add(Prefix::parse_v6("2001:db8::/32").unwrap());
    s.add(Prefix::parse_v6("fe80::/10").unwrap());
    s.add(Prefix::parse_v6("::1/128").unwrap());
    let nodes = flatten(s.into_trie().unwrap());
    assert!(nodes.len() > 128);
    let back = unflatten(&nodes).unwrap();
    let mut r = PrefixSet::from_trie(&back, 128).unwrap();
    r.simplify();
    assert_eq!(r.prefixes().len(), 3);
}

#[test]
fn unflatten_rejects_backward_links() {
    assert!(unflatten(&vec![]).is_none());
    assert!(unflatten(&vec![(1, 0), (1, 0)]).is_none());
    assert!(unflatten(&vec![(0, 5)]).is_none());
    let t = unflatten(&vec![(0, 1), (0, 0)]).unwrap();
    assert_eq!(t.nodes, vec![TrieNode { left: None, right: Some(1) }, TrieNode { left: None, right: None }]);
}

#[test]
fn from_trie_checks_depth() {
    let mut t = Trie::new();
    t.nodes[0].left = Some(1);
    t.nodes.push(TrieNode { left: None, right: None });
    assert!(PrefixSet::from_trie(&t, 0).is_none());
    let s = PrefixSet::from_trie(&t, 1).unwrap();
    assert_eq!(s.prefixes(), vec![vec![false]]);
}

#[test]
fn unflatten_rejects_shared_children() {
    assert!(unflatten(&vec![(1, 1), (0, 0)]).is_none());
    assert!(unflatten(&vec![(1, 2), (0, 2), (0, 0)]).is_none());
    assert!(unflatten(&vec![(2, 1), (0, 0), (0, 0)]).is_some());
}

#[test]
fn round_trip_after_merge_and_prune() {
    let mut s = PrefixSet::new_v4();
    s.add(Prefix::parse_v4("10.0.0.0/9").unwrap());
    s.add(Prefix::parse_v4("10.128.0.0/9").unwrap());
    s.add(Prefix::parse_v4("10.1.2.3/32").unwrap());
    s.add(Prefix::parse_v4("0.0.0.0/32").unwrap());
    let flat = flatten(s.clone().into_trie().unwrap());
    let back = unflatten(&flat).unwrap();
    let mut r = PrefixSet::from_trie(&back, 32).unwrap();
    r.simplify();
    assert!(r.same_as(&s));
    let mut expect = r.prefixes();
    expect.sort();
    let mut want = vec![bits("10.0.0.0/8"), bits("0.0.0.0/32")];
    want.sort();
    assert_eq!(expect, want);
}

#[test]
fn whole_space_prefix() {
    let mut s = PrefixSet::new_v4();
    s.add(Prefix::parse_v4("0.0.0.0/0").unwrap());
    s.add(Prefix::parse_v4("10.0.0.0/8").unwrap());
    s.simplify();
    assert_eq!(s.prefixes(), vec![Vec::<bool>::new()]);
    let flat = flatten(s.into_trie().unwrap());
    assert_eq!(flat, vec![(0, 0)]);
}
