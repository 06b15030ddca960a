//! Prefix to origin-ASN tables held by prefix-trie's `PrefixMap`, with the
//! origin sets held by vec-collections' `VecSet`.
use ipnet::{Ipv4Net, Ipv6Net};
use prefix_trie::PrefixMap;
use vec_collections::VecSet;
use vstd::prelude::*;
use crate::net::{Family, in_block, network_of, valid_prefix};

verus! {

/// A prefix-trie `PrefixMap` from IPv4 prefixes to sets of origin ASNs.
#[verifier::external_body]
pub struct Ipv4Prefixes {
    inner: PrefixMap<Ipv4Net, VecSet<[u32; 4]>>,
}

/// A prefix-trie `PrefixMap` from IPv6 prefixes to sets of origin ASNs.
#[verifier::external_body]
pub struct Ipv6Prefixes {
    inner: PrefixMap<Ipv6Net, VecSet<[u32; 4]>>,
}

/// The map's entries: (network, length) to the origin ASNs.
pub uninterp spec fn ipv4_prefix_origins(m: Ipv4Prefixes) -> Map<(int, nat), Set<u32>>;

/// The map's entries: (network, length) to the origin ASNs.
pub uninterp spec fn ipv6_prefix_origins(m: Ipv6Prefixes) -> Map<(int, nat), Set<u32>>;

/// The key under which the trie stores `addr/len`: its network and length.
pub open spec fn prefix_key(f: Family, addr: int, len: nat) -> (int, nat) {
    (network_of(f, addr, len), len)
}

/// `m` with `origins` added to the set of key `k` (an entry is created when
/// there was none, also for an empty `origins`).
pub open spec fn with_origins(m: Map<(int, nat), Set<u32>>, k: (int, nat), origins: Set<u32>) -> Map<(int, nat), Set<u32>> {
    m.insert(k, if m.contains_key(k) { m[k].union(origins) } else { origins })
}

/// Key `k` of `m` holds address `a`.
pub open spec fn covering(f: Family, m: Map<(int, nat), Set<u32>>, a: int, k: (int, nat)) -> bool {
    m.contains_key(k) && in_block(f, k.0, k.1, a)
}

/// Key `k` of `m` holds `a`, and no longer key of `m` does.
pub open spec fn longest_covering(f: Family, m: Map<(int, nat), Set<u32>>, a: int, k: (int, nat)) -> bool {
    covering(f, m, a, k) && forall|k2: (int, nat)| #[trigger] covering(f, m, a, k2) ==> k2.1 <= k.1
}

/// What a longest-prefix match of `a` in `m` answers: nothing when no key
/// holds `a`, else the set of a longest key holding it.
pub open spec fn lpm_answer(f: Family, m: Map<(int, nat), Set<u32>>, a: int, r: Option<Set<u32>>) -> bool {
    match r {
        None => forall|k: (int, nat)| !#[trigger] covering(f, m, a, k),
        Some(s) => exists|k: (int, nat)| #[trigger] longest_covering(f, m, a, k) && m[k] == s,
    }
}

/// Every key of `m` is a valid prefix of `f`, written by its network.
pub open spec fn canonical_keys(f: Family, m: Map<(int, nat), Set<u32>>) -> bool {
    forall|k: (int, nat)| #[trigger] m.contains_key(k) ==> valid_prefix(f, k.0, k.1) && k.0 == network_of(f, k.0, k.1)
}

/// The origins of the longest key of `m` that holds `a`; `None` when no key
/// holds it.
pub open spec fn lpm(f: Family, m: Map<(int, nat), Set<u32>>, a: int) -> Option<Set<u32>> {
    if exists|k: (int, nat)| #[trigger] covering(f, m, a, k) {
        Some(m[choose|k: (int, nat)| #[trigger] longest_covering(f, m, a, k)])
    } else {
        None
    }
}

/// An address of a block given by its network has that network.
pub proof fn lemma_network_of_member(f: Family, x: int, len: nat, a: int)
    requires
        valid_prefix(f, x, len),
        x == network_of(f, x, len),
        in_block(f, x, len, a),
    ensures
        network_of(f, a, len) == x,
{
    crate::net::lemma_block_bounds(f, x, len);
    let s = crate::net::span(f, len);
    let q = x / s;
    vstd::arithmetic::div_mod::lemma_fundamental_div_mod(x, s);
    assert(x == s * q);
    vstd::arithmetic::div_mod::lemma_fundamental_div_mod_converse(a, s, q, a - x);
}

/// Among keys no longer than `d`, one that holds `a` gives a longest one.
proof fn lemma_longest_exists(f: Family, m: Map<(int, nat), Set<u32>>, a: int, d: nat)
    requires
        exists|k: (int, nat)| #[trigger] covering(f, m, a, k),
        forall|k: (int, nat)| #[trigger] covering(f, m, a, k) ==> k.1 <= d,
    ensures
        exists|k: (int, nat)| #[trigger] longest_covering(f, m, a, k),
    decreases d,
{
    if exists|k: (int, nat)| #[trigger] covering(f, m, a, k) && k.1 == d {
        let k = choose|k: (int, nat)| #[trigger] covering(f, m, a, k) && k.1 == d;
        assert(longest_covering(f, m, a, k));
    } else {
        let k0 = choose|k: (int, nat)| #[trigger] covering(f, m, a, k);
        assert(k0.1 < d);
        lemma_longest_exists(f, m, a, (d - 1) as nat);
    }
}

/// Two longest keys that hold the same address are the same key.
pub proof fn lemma_longest_unique(f: Family, m: Map<(int, nat), Set<u32>>, a: int, k1: (int, nat), k2: (int, nat))
    requires
        canonical_keys(f, m),
        longest_covering(f, m, a, k1),
        longest_covering(f, m, a, k2),
    ensures
        k1 == k2,
{
    assert(covering(f, m, a, k1) && covering(f, m, a, k2));
    assert(k1.1 == k2.1);
    lemma_network_of_member(f, k1.0, k1.1, a);
    lemma_network_of_member(f, k2.0, k2.1, a);
}

/// What a longest-prefix match answers is `lpm`.
pub proof fn lemma_lpm_answer(f: Family, m: Map<(int, nat), Set<u32>>, a: int, r: Option<Set<u32>>)
    requires
        canonical_keys(f, m),
        lpm_answer(f, m, a, r),
    ensures
        r == lpm(f, m, a),
{
    match r {
        None => {},
        Some(s) => {
            let k = choose|k: (int, nat)| #[trigger] longest_covering(f, m, a, k) && m[k] == s;
            assert(covering(f, m, a, k));
            let k2 = choose|k: (int, nat)| #[trigger] longest_covering(f, m, a, k);
            lemma_longest_unique(f, m, a, k, k2);
        },
    }
}

/// When some key holds `a`, `lpm` is the set of a longest key holding it.
pub proof fn lemma_lpm_some(f: Family, m: Map<(int, nat), Set<u32>>, a: int, k: (int, nat))
    requires
        canonical_keys(f, m),
        covering(f, m, a, k),
    ensures
        exists|l: (int, nat)| #[trigger] longest_covering(f, m, a, l) && lpm(f, m, a) == Some(m[l]),
{
    assert forall|k2: (int, nat)| #[trigger] covering(f, m, a, k2) implies k2.1 <= f.bits() by {
        assert(m.contains_key(k2));
    }
    lemma_longest_exists(f, m, a, f.bits());
    let l = choose|l: (int, nat)| #[trigger] longest_covering(f, m, a, l);
    assert(lpm(f, m, a) == Some(m[l]));
}

/// Each entry of a listing is an entry of `m`, and every key of `m` is listed.
pub open spec fn lists_entries(m: Map<(int, nat), Set<u32>>, r: Seq<(int, nat, Seq<u32>)>) -> bool {
    &&& forall|i: int| 0 <= i < r.len() ==> m.contains_key((#[trigger] r[i].0, r[i].1)) && m[(r[i].0, r[i].1)] == r[i].2.to_set()
    &&& forall|k: (int, nat)| #[trigger] m.contains_key(k) ==> exists|i: int| 0 <= i < r.len() && r[i].0 == k.0 && r[i].1 == k.1
}

impl Ipv4Prefixes {
    /// `PrefixMap::new`: no entry.
    #[verifier::external_body]
    pub(crate) fn new() -> (r: Ipv4Prefixes)
        ensures
            ipv4_prefix_origins(r).is_empty(),
    {
        Ipv4Prefixes { inner: PrefixMap::new() }
    }

    /// `entry(addr/len).or_insert_with(VecSet::empty).extend(origins)`.
    #[verifier::external_body]
    pub(crate) fn extend(&mut self, addr: u32, len: u8, origins: &[u32])
        requires
            len <= 32,
        ensures
            ipv4_prefix_origins(*final(self)) == with_origins(
                ipv4_prefix_origins(*old(self)),
                prefix_key(Family::V4, addr as int, len as nat),
                origins@.to_set(),
            ),
    {
        self.inner.entry(Ipv4Net::new(addr.into(), len).unwrap()).or_insert_with(VecSet::empty).extend(
            origins.iter().copied(),
        );
    }

    /// `get_lpm` of the host prefix `addr/32`: the origins of the longest
    /// prefix that holds `addr`.
    #[verifier::external_body]
    pub(crate) fn longest_match(&self, addr: u32) -> (r: Option<Vec<u32>>)
        ensures
            r is None ==> lpm_answer(Family::V4, ipv4_prefix_origins(*self), addr as int, None),
            r matches Some(v) ==> lpm_answer(Family::V4, ipv4_prefix_origins(*self), addr as int, Some(v@.to_set())),
    {
        match self.inner.get_lpm(&Ipv4Net::new(addr.into(), 32).unwrap()) {
            None => None,
            Some((_, origins)) => Some(origins.iter().copied().collect()),
        }
    }

    /// `PrefixMap::iter`: every entry as (network, length, origins).
    #[verifier::external_body]
    pub(crate) fn entries(&self) -> (r: Vec<(u32, u8, Vec<u32>)>)
        ensures
            lists_entries(ipv4_prefix_origins(*self), r@.map_values(|e: (u32, u8, Vec<u32>)| (e.0 as int, e.1 as nat, e.2@))),
    {
        let mut v = Vec::new();
        for (p, origins) in self.inner.iter() {
            v.push((u32::from(p.network()), p.prefix_len(), origins.iter().copied().collect()));
        }
        v
    }
}

impl Ipv6Prefixes {
    /// `PrefixMap::new`: no entry.
    #[verifier::external_body]
    pub(crate) fn new() -> (r: Ipv6Prefixes)
        ensures
            ipv6_prefix_origins(r).is_empty(),
    {
        Ipv6Prefixes { inner: PrefixMap::new() }
    }

    /// `entry(addr/len).or_insert_with(VecSet::empty).extend(origins)`.
    #[verifier::external_body]
    pub(crate) fn extend(&mut self, addr: u128, len: u8, origins: &[u32])
        requires
            len <= 128,
        ensures
            ipv6_prefix_origins(*final(self)) == with_origins(
                ipv6_prefix_origins(*old(self)),
                prefix_key(Family::V6, addr as int, len as nat),
                origins@.to_set(),
            ),
    {
        self.inner.entry(Ipv6Net::new(addr.into(), len).unwrap()).or_insert_with(VecSet::empty).extend(
            origins.iter().copied(),
        );
    }

    /// `get_lpm` of the host prefix `addr/128`: the origins of the longest
    /// prefix that holds `addr`.
    #[verifier::external_body]
    pub(crate) fn longest_match(&self, addr: u128) -> (r: Option<Vec<u32>>)
        ensures
            r is None ==> lpm_answer(Family::V6, ipv6_prefix_origins(*self), addr as int, None),
            r matches Some(v) ==> lpm_answer(Family::V6, ipv6_prefix_origins(*self), addr as int, Some(v@.to_set())),
    {
        match self.inner.get_lpm(&Ipv6Net::new(addr.into(), 128).unwrap()) {
            None => None,
            Some((_, origins)) => Some(origins.iter().copied().collect()),
        }
    }

    /// `PrefixMap::iter`: every entry as (network, length, origins).
    #[verifier::external_body]
    pub(crate) fn entries(&self) -> (r: Vec<(u128, u8, Vec<u32>)>)
        ensures
            lists_entries(ipv6_prefix_origins(*self), r@.map_values(|e: (u128, u8, Vec<u32>)| (e.0 as int, e.1 as nat, e.2@))),
    {
        let mut v = Vec::new();
        for (p, origins) in self.inner.iter() {
            v.push((u128::from(p.network()), p.prefix_len(), origins.iter().copied().collect()));
        }
        v
    }
}

/// A prefix to origin-ASN table of one family.
pub enum PrefixTable {
    V4(Ipv4Prefixes),
    V6(Ipv6Prefixes),
}

pub open spec fn entry_view128(r: Seq<(u128, u8, Vec<u32>)>) -> Seq<(int, nat, Seq<u32>)> {
    r.map_values(|e: (u128, u8, Vec<u32>)| (e.0 as int, e.1 as nat, e.2@))
}

impl PrefixTable {
    pub open spec fn family(&self) -> Family {
        match self {
            PrefixTable::V4(_) => Family::V4,
            PrefixTable::V6(_) => Family::V6,
        }
    }

    /// The entries: (network, length) to the origin ASNs.
    pub open spec fn origins(&self) -> Map<(int, nat), Set<u32>> {
        match self {
            PrefixTable::V4(m) => ipv4_prefix_origins(*m),
            PrefixTable::V6(m) => ipv6_prefix_origins(*m),
        }
    }

    /// An empty table of family `f`.
    pub fn new(f: Family) -> (r: PrefixTable)
        ensures
            r.family() == f,
            r.origins().is_empty(),
    {
        match f {
            Family::V4 => PrefixTable::V4(Ipv4Prefixes::new()),
            Family::V6 => PrefixTable::V6(Ipv6Prefixes::new()),
        }
    }

    /// Adds `origins` to the entry of `addr/len`, creating it if needed.
    pub fn extend(&mut self, addr: u128, len: u8, origins: &[u32])
        requires
            valid_prefix(old(self).family(), addr as int, len as nat),
        ensures
            final(self).family() == old(self).family(),
            final(self).origins() == with_origins(
                old(self).origins(),
                prefix_key(old(self).family(), addr as int, len as nat),
                origins@.to_set(),
            ),
    {
        proof {
            crate::net::lemma_space_values();
        }
        match self {
            PrefixTable::V4(m) => m.extend(addr as u32, len, origins),
            PrefixTable::V6(m) => m.extend(addr, len, origins),
        }
    }

    /// The origins of the longest entry that holds the address `addr`.
    pub fn longest_match(&self, addr: u128) -> (r: Option<Vec<u32>>)
        requires
            crate::net::in_space(self.family(), addr as int),
        ensures
            r is None ==> lpm_answer(self.family(), self.origins(), addr as int, None),
            r matches Some(v) ==> lpm_answer(self.family(), self.origins(), addr as int, Some(v@.to_set())),
    {
        proof {
            crate::net::lemma_space_values();
        }
        match self {
            PrefixTable::V4(m) => m.longest_match(addr as u32),
            PrefixTable::V6(m) => m.longest_match(addr),
        }
    }

    /// Every entry as (network, length, origins).
    pub fn entries(&self) -> (r: Vec<(u128, u8, Vec<u32>)>)
        ensures
            lists_entries(self.origins(), entry_view128(r@)),
    {
        match self {
            PrefixTable::V4(m) => {
                let v = m.entries();
                let ghost sv = v@.map_values(|e: (u32, u8, Vec<u32>)| (e.0 as int, e.1 as nat, e.2@));
                let mut r: Vec<(u128, u8, Vec<u32>)> = Vec::new();
                let mut i: usize = 0;
                while i < v.len()
                    invariant
                        i <= v.len(),
                        r@.len() == i,
                        sv == v@.map_values(|e: (u32, u8, Vec<u32>)| (e.0 as int, e.1 as nat, e.2@)),
                        entry_view128(r@) == sv.take(i as int),
                    decreases v.len() - i,
                {
                    let x = v[i].0;
                    let l = v[i].1;
                    let o = v[i].2.clone();
                    let ghost r0 = r@;
                    r.push((x as u128, l, o));
                    proof {
                        assert(sv[i as int] == (x as int, l as nat, o@));
                        assert forall|j: int| 0 <= j < i + 1 implies #[trigger] entry_view128(r@)[j] == sv.take(i + 1)[j] by {
                            if j < i {
                                assert(r@[j] == r0[j]);
                                assert(entry_view128(r0)[j] == sv.take(i as int)[j]);
                            }
                        }
                        assert(entry_view128(r@) =~= sv.take(i + 1));
                    }
                    i = i + 1;
                }
                proof {
                    assert(sv.take(i as int) =~= sv);
                }
                r
            },
            PrefixTable::V6(m) => {
                let v = m.entries();
                proof {
                    assert(entry_view128(v@) =~= v@.map_values(|e: (u128, u8, Vec<u32>)| (e.0 as int, e.1 as nat, e.2@)));
                }
                v
            },
        }
    }
}

} // verus!
