//! CIDR prefixes as bit sequences, parsed from text.

use vstd::prelude::*;

verus! {

/// What `Ipv4Net`'s parser makes of a string: the address bits as written
/// and the prefix length.
pub uninterp spec fn v4_net_of(s: Seq<char>) -> Option<(u32, u8)>;

/// What `Ipv6Net`'s parser makes of a string: the address bits as written
/// and the prefix length.
pub uninterp spec fn v6_net_of(s: Seq<char>) -> Option<(u128, u8)>;

/// Relies on ipnet's `FromStr for Ipv4Net`: `None` on a malformed string,
/// else the address and a prefix length of at most 32.
#[verifier::external_body]
fn parse_v4_net(s: &str) -> (r: Option<(u32, u8)>)
    ensures
        r == v4_net_of(s@),
        r matches Some(x) ==> x.1 <= 32,
{
    s.parse::<ipnet::Ipv4Net>().ok().map(|n| (u32::from(n.addr()), n.prefix_len()))
}

/// Relies on ipnet's `FromStr for Ipv6Net`: `None` on a malformed string,
/// else the address and a prefix length of at most 128.
#[verifier::external_body]
fn parse_v6_net(s: &str) -> (r: Option<(u128, u8)>)
    ensures
        r == v6_net_of(s@),
        r matches Some(x) ==> x.1 <= 128,
{
    s.parse::<ipnet::Ipv6Net>().ok().map(|n| (u128::from(n.addr()), n.prefix_len()))
}

/// The first `len` bits of a 32-bit address, most significant first.
pub open spec fn v4_bits(a: u32, len: nat) -> Seq<bool> {
    Seq::new(len, |i: int| (a >> ((31 - i) as u32)) & 1u32 == 1u32)
}

/// The first `len` bits of a 128-bit address, most significant first.
pub open spec fn v6_bits(a: u128, len: nat) -> Seq<bool> {
    Seq::new(len, |i: int| (a >> ((127 - i) as u128)) & 1u128 == 1u128)
}

/// A CIDR prefix, held as its leading address bits; the length of the bit
/// sequence is the prefix length.
#[derive(Clone, Debug, PartialEq, Eq)]
pub struct Prefix {
    pub bits: Vec<bool>,
}

impl View for Prefix {
    type V = Seq<bool>;

    open spec fn view(&self) -> Seq<bool> {
        self.bits@
    }
}

impl Prefix {
    /// The prefix of the first `len` bits of an IPv4 address.
    pub fn from_v4(addr: u32, len: u8) -> (r: Prefix)
        requires
            len <= 32,
        ensures
            r@ == v4_bits(addr, len as nat),
    {
        let mut bits: Vec<bool> = Vec::new();
        let mut i: u32 = 0;
        while i < len as u32
            invariant
                len <= 32,
                i <= len,
                bits@ == v4_bits(addr, i as nat),
            decreases len - i,
        {
            bits.push((addr >> (31 - i)) & 1 == 1);
            i = i + 1;
            assert(bits@ =~= v4_bits(addr, i as nat));
        }
        Prefix { bits }
    }

    /// The prefix of the first `len` bits of an IPv6 address.
    pub fn from_v6(addr: u128, len: u8) -> (r: Prefix)
        requires
            len <= 128,
        ensures
            r@ == v6_bits(addr, len as nat),
    {
        let mut bits: Vec<bool> = Vec::new();
        let mut i: u32 = 0;
        while i < len as u32
            invariant
                len <= 128,
                i <= len,
                bits@ == v6_bits(addr, i as nat),
            decreases len - i,
        {
            bits.push((addr >> (127 - i)) & 1 == 1);
            i = i + 1;
            assert(bits@ =~= v6_bits(addr, i as nat));
        }
        Prefix { bits }
    }

    /// Parses an IPv4 CIDR string such as `10.0.0.0/8`; host bits past the
    /// prefix length are dropped.
    pub fn parse_v4(s: &str) -> (r: Option<Prefix>)
        ensures
            match v4_net_of(s@) {
                Some(x) => r matches Some(p) && p@ == v4_bits(x.0, x.1 as nat),
                None => r is None,
            },
    {
        match parse_v4_net(s) {
            Some((a, l)) => Some(Prefix::from_v4(a, l)),
            None => None,
        }
    }

    /// Parses an IPv6 CIDR string such as `2001:db8::/32`; host bits past
    /// the prefix length are dropped.
    pub fn parse_v6(s: &str) -> (r: Option<Prefix>)
        ensures
            match v6_net_of(s@) {
                Some(x) => r matches Some(p) && p@ == v6_bits(x.0, x.1 as nat),
                None => r is None,
            },
    {
        match parse_v6_net(s) {
            Some((a, l)) => Some(Prefix::from_v6(a, l)),
            None => None,
        }
    }

    /// The prefix length.
    pub fn len(&self) -> (r: usize)
        ensures
            r == self@.len(),
    {
        self.bits.len()
    }
}

} // verus!
