//! Compact lookup tables for IP-range membership: canonical prefix sets,
//! the binary trie built from them, and its flat array encoding.

pub mod prefix;
pub mod prefix_set;
pub mod trie;
