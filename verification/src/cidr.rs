//! Longest-prefix-match set over the hosting provider's published IPv4
//! prefixes. The set is held in prefix_trie's `PrefixMap`, declared and
//! called through trusted items; everything stated about it speaks of the
//! abstract set of stored `(network, prefix_len)` pairs.

use vstd::prelude::*;

verus! {

#[verifier::external_type_specification]
#[verifier::external_body]
pub struct ExIpv4Net(ipnet::Ipv4Net);

#[verifier::external_type_specification]
#[verifier::external_body]
#[verifier::reject_recursive_types(P)]
#[verifier::reject_recursive_types(T)]
pub struct ExPrefixMap<P, T>(prefix_trie::map::PrefixMap<P, T>);

/// The set of `(network, prefix_len)` pairs stored in a prefix map.
pub uninterp spec fn trie_prefixes(t: prefix_trie::map::PrefixMap<ipnet::Ipv4Net, u8>) -> Set<
    (u32, u8),
>;

/// The IPv4 address with octets `a.b.c.d`, as one 32-bit value.
pub open spec fn ip_of(a: u8, b: u8, c: u8, d: u8) -> u32 {
    ((a as u32) * 0x1000000 + (b as u32) * 0x10000 + (c as u32) * 0x100 + (d as u32)) as u32
}

/// The stored prefix `net/len` covers the host address `ip`: the top
/// `len` bits agree.
pub open spec fn covers(net: u32, len: u8, ip: u32) -> bool {
    1 <= len <= 32 && (ip >> ((32 - len) as u32)) == (net >> ((32 - len) as u32))
}

/// `ip` with its host bits (below `len`) cleared.
pub open spec fn masked(ip: u32, len: u8) -> u32 {
    (ip >> ((32 - len) as u32)) << ((32 - len) as u32)
}

/// Some prefix of the set covers the host address `ip`.
pub open spec fn covered_by(s: Set<(u32, u8)>, ip: u32) -> bool {
    exists|p: (u32, u8)| s.contains(p) && covers(p.0, p.1, ip)
}

/// Relies on prefix_trie's `PrefixMap::new`: the new map is empty.
#[verifier::external_body]
fn trie_new() -> (t: prefix_trie::map::PrefixMap<ipnet::Ipv4Net, u8>)
    ensures
        trie_prefixes(t) == Set::<(u32, u8)>::empty(),
{
    prefix_trie::map::PrefixMap::new()
}

/// Relies on prefix_trie's `PrefixMap::insert` (key built by ipnet's
/// `Ipv4Net` parser): the map afterwards stores exactly the old prefixes
/// plus `a.b.c.d/len`. Host bits must already be zero, since matching
/// and reconstruction ignore them.
#[verifier::external_body]
fn trie_insert(
    t: &mut prefix_trie::map::PrefixMap<ipnet::Ipv4Net, u8>,
    a: u8,
    b: u8,
    c: u8,
    d: u8,
    len: u8,
)
    requires
        1 <= len <= 32,
        masked(ip_of(a, b, c, d), len) == ip_of(a, b, c, d),
    ensures
        trie_prefixes(*final(t)) == trie_prefixes(*old(t)).insert((ip_of(a, b, c, d), len)),
{
    let net: ipnet::Ipv4Net = format!("{}.{}.{}.{}/{}", a, b, c, d, len).parse().unwrap();
    t.insert(net, 1);
}

/// Relies on prefix_trie's `PrefixMap::get_lpm` (query key built by
/// ipnet's `Ipv4Net` parser): a longest-prefix match for the /32 of
/// `a.b.c.d` exists iff some stored prefix contains it; host bits of
/// stored keys are ignored for matching.
#[verifier::external_body]
fn trie_covers(
    t: &prefix_trie::map::PrefixMap<ipnet::Ipv4Net, u8>,
    a: u8,
    b: u8,
    c: u8,
    d: u8,
) -> (r: bool)
    ensures
        r == covered_by(trie_prefixes(*t), ip_of(a, b, c, d)),
{
    let q: ipnet::Ipv4Net = format!("{}.{}.{}.{}/32", a, b, c, d).parse().unwrap();
    t.get_lpm(&q).is_some()
}

/// Immutable longest-prefix-match set over IPv4 prefixes.
pub struct CidrTrie {
    map: prefix_trie::map::PrefixMap<ipnet::Ipv4Net, u8>,
}

impl CidrTrie {
    /// The stored `(network, prefix_len)` pairs.
    pub closed spec fn prefixes(&self) -> Set<(u32, u8)> {
        trie_prefixes(self.map)
    }

    /// Whether any stored prefix covers the address `a.b.c.d`.
    pub fn contains_v4(&self, ip: [u8; 4]) -> (r: bool)
        ensures
            r == covered_by(self.prefixes(), ip_of(ip[0], ip[1], ip[2], ip[3])),
    {
        trie_covers(&self.map, ip[0], ip[1], ip[2], ip[3])
    }
}

/// The hosting provider's published IPv4 prefixes.
pub open spec fn cf_prefixes() -> Set<(u32, u8)> {
    Set::empty()
        .insert((ip_of(103, 22, 200, 0), 22u8))
        .insert((ip_of(103, 31, 4, 0), 22u8))
        .insert((ip_of(104, 16, 0, 0), 13u8))
        .insert((ip_of(104, 24, 0, 0), 14u8))
        .insert((ip_of(108, 162, 192, 0), 18u8))
        .insert((ip_of(131, 0, 72, 0), 22u8))
        .insert((ip_of(141, 101, 64, 0), 18u8))
        .insert((ip_of(162, 158, 0, 0), 15u8))
        .insert((ip_of(172, 64, 0, 0), 13u8))
        .insert((ip_of(173, 245, 48, 0), 20u8))
        .insert((ip_of(188, 114, 96, 0), 20u8))
        .insert((ip_of(190, 93, 240, 0), 20u8))
        .insert((ip_of(197, 234, 240, 0), 22u8))
        .insert((ip_of(198, 41, 128, 0), 17u8))
}

/// Builds the provider trie from the static prefix list. Created once at
/// first classification and read-only afterwards.
pub fn get_cf_cidr_prefix() -> (t: CidrTrie)
    ensures
        t.prefixes() == cf_prefixes(),
{
    proof {
        assert((0x6716c800u32 >> 10) << 10 == 0x6716c800u32) by (bit_vector);
        assert((0x671f0400u32 >> 10) << 10 == 0x671f0400u32) by (bit_vector);
        assert((0x68100000u32 >> 19) << 19 == 0x68100000u32) by (bit_vector);
        assert((0x68180000u32 >> 18) << 18 == 0x68180000u32) by (bit_vector);
        assert((0x6ca2c000u32 >> 14) << 14 == 0x6ca2c000u32) by (bit_vector);
        assert((0x83004800u32 >> 10) << 10 == 0x83004800u32) by (bit_vector);
        assert((0x8d654000u32 >> 14) << 14 == 0x8d654000u32) by (bit_vector);
        assert((0xa29e0000u32 >> 17) << 17 == 0xa29e0000u32) by (bit_vector);
        assert((0xac400000u32 >> 19) << 19 == 0xac400000u32) by (bit_vector);
        assert((0xadf53000u32 >> 12) << 12 == 0xadf53000u32) by (bit_vector);
        assert((0xbc726000u32 >> 12) << 12 == 0xbc726000u32) by (bit_vector);
        assert((0xbe5df000u32 >> 12) << 12 == 0xbe5df000u32) by (bit_vector);
        assert((0xc5eaf000u32 >> 10) << 10 == 0xc5eaf000u32) by (bit_vector);
        assert((0xc6298000u32 >> 15) << 15 == 0xc6298000u32) by (bit_vector);
    }
    let mut m = trie_new();
    trie_insert(&mut m, 103, 22, 200, 0, 22);
    trie_insert(&mut m, 103, 31, 4, 0, 22);
    trie_insert(&mut m, 104, 16, 0, 0, 13);
    trie_insert(&mut m, 104, 24, 0, 0, 14);
    trie_insert(&mut m, 108, 162, 192, 0, 18);
    trie_insert(&mut m, 131, 0, 72, 0, 22);
    trie_insert(&mut m, 141, 101, 64, 0, 18);
    trie_insert(&mut m, 162, 158, 0, 0, 15);
    trie_insert(&mut m, 172, 64, 0, 0, 13);
    trie_insert(&mut m, 173, 245, 48, 0, 20);
    trie_insert(&mut m, 188, 114, 96, 0, 20);
    trie_insert(&mut m, 190, 93, 240, 0, 20);
    trie_insert(&mut m, 197, 234, 240, 0, 22);
    trie_insert(&mut m, 198, 41, 128, 0, 17);
    proof {
        assert(trie_prefixes(m) =~= cf_prefixes());
    }
    CidrTrie { map: m }
}

/// Every listed prefix lies between /8 and /32 and covers its own
/// network address, so a literal IPv4 equal to a listed network is
/// always classified as self-provider.
pub proof fn lemma_cf_list_self_covered()
    ensures
        forall|p: (u32, u8)| #[trigger]
            cf_prefixes().contains(p) ==> covered_by(cf_prefixes(), p.0),
        forall|p: (u32, u8)| #[trigger] cf_prefixes().contains(p) ==> 8 <= p.1 <= 32,
{
    assert forall|p: (u32, u8)| #[trigger] cf_prefixes().contains(p) implies covered_by(
        cf_prefixes(),
        p.0,
    ) by {
        assert(1 <= p.1 <= 32);
        assert(covers(p.0, p.1, p.0));
    }
}

} // verus!
