//! Both address families side by side: sets of addresses, per-ASN ranges,
//! and the tables that the classifier fills.
use std::collections::{HashMap, HashSet};
use vstd::prelude::*;
use vstd::std_specs::hash::group_hash_axioms;
use crate::net::{Cidr, Family, block};
use crate::path::AsPath;
use crate::ranges::{AddrSet, as_int_nets128, exact_cover, maximal_blocks};
use crate::subnets::{ipv4_cidr_text, ipv4_text, ipv6_cidr_text, ipv6_text, net_le, sort_nets};
use crate::table::{FamilyTable, assigned};

verus! {

broadcast use group_hash_axioms;

/// A prefix as text: `a.b.c.d/len` for IPv4, ipnet's form for IPv6.
pub open spec fn cidr_text(f: Family, addr: u128, len: u8) -> Seq<char> {
    match f {
        Family::V4 => ipv4_cidr_text(addr as u32, len),
        Family::V6 => ipv6_cidr_text(addr, len),
    }
}

/// `lines` are the stored networks `blocks` of a set of addresses, each
/// once, one per line, in increasing (address, length) order: aligned
/// disjoint blocks that hold exactly `addrs`, the largest possible ones when
/// the set was merged.
pub open spec fn prefix_lines(f: Family, addrs: Set<int>, merged: bool, blocks: Set<(int, nat)>, lines: Seq<Seq<char>>) -> bool {
    exists|nets: Seq<(u128, u8)>|
        {
            &&& as_int_nets128(nets).to_set() == blocks
            &&& exact_cover(f, as_int_nets128(nets), addrs)
            &&& merged ==> maximal_blocks(f, as_int_nets128(nets), addrs)
            &&& forall|i: int, j: int| 0 <= i < j < nets.len() ==> net_le(#[trigger] nets[i], #[trigger] nets[j])
            &&& lines.len() == nets.len()
            &&& forall|i: int| 0 <= i < nets.len() ==> #[trigger] lines[i] == cidr_text(f, nets[i].0, nets[i].1)
        }
}

pub open spec fn texts(v: Seq<String>) -> Seq<Seq<char>> {
    v.map_values(|s: String| s@)
}

/// The addresses of the prefixes of family `f` among `prefixes`.
pub open spec fn prefix_addresses(prefixes: Seq<Cidr>, f: Family) -> Set<int> {
    Set::new(|a: int| exists|i: int| 0 <= i < prefixes.len() && prefixes[i].family == f && #[trigger] prefixes[i].addresses().contains(a))
}

/// Every network of `nets` is a prefix of family `f`.
pub open spec fn nets_valid(f: Family, nets: Seq<(u128, u8)>) -> bool {
    forall|i: int| 0 <= i < nets.len() ==> crate::net::valid_prefix(f, #[trigger] nets[i].0 as int, nets[i].1 as nat)
}

/// The addresses of the networks `nets`.
pub open spec fn nets_addresses(f: Family, nets: Seq<(u128, u8)>) -> Set<int> {
    Set::new(|a: int| crate::subnets::covered_by(f, as_int_nets128(nets), a))
}

/// Whether every network of `nets` is a prefix of family `f`.
pub fn check_nets(f: Family, nets: &Vec<(u128, u8)>) -> (r: bool)
    ensures
        r == nets_valid(f, nets@),
{
    proof {
        crate::net::lemma_space_values();
    }
    let top: u128 = match f {
        Family::V4 => 0xffff_ffff,
        Family::V6 => u128::MAX,
    };
    let mut i: usize = 0;
    while i < nets.len()
        invariant
            i <= nets@.len(),
            top == crate::net::space(f) - 1,
            forall|k: int| 0 <= k < i ==> crate::net::valid_prefix(f, #[trigger] nets@[k].0 as int, nets@[k].1 as nat),
        decreases nets.len() - i,
    {
        let (addr, len) = nets[i];
        if addr > top || len > f.max_len() {
            return false;
        }
        i = i + 1;
    }
    true
}

/// The set of the addresses of `nets`.
pub fn set_of_nets(f: Family, nets: &Vec<(u128, u8)>) -> (r: AddrSet)
    requires
        nets_valid(f, nets@),
    ensures
        r.family() == f,
        r.addresses() == nets_addresses(f, nets@),
{
    let mut r = AddrSet::new(f);
    r.add_nets(nets);
    proof {
        assert(r.addresses() =~= nets_addresses(f, nets@));
    }
    r
}

/// The networks of `set` describe it.
proof fn lemma_nets_describe(set: AddrSet, nets: Seq<(u128, u8)>)
    requires
        exact_cover(set.family(), as_int_nets128(nets), set.addresses()),
    ensures
        nets_valid(set.family(), nets),
        nets_addresses(set.family(), nets) == set.addresses(),
{
    let sv = as_int_nets128(nets);
    assert forall|i: int| 0 <= i < nets.len() implies crate::net::valid_prefix(set.family(), #[trigger] nets[i].0 as int, nets[i].1 as nat) by {
        assert(sv[i] == (nets[i].0 as int, nets[i].1 as nat));
    }
    assert(nets_addresses(set.family(), nets) =~= set.addresses());
}

/// Every entry's networks are prefixes of family `f`.
pub open spec fn ranges_valid(f: Family, v: Seq<(u32, Vec<(u128, u8)>)>) -> bool {
    forall|i: int| 0 <= i < v.len() ==> nets_valid(f, (#[trigger] v[i]).1@)
}

/// Each ASN listed in `v` with the addresses of its entries' networks.
pub open spec fn ranges_of(f: Family, v: Seq<(u32, Vec<(u128, u8)>)>) -> Map<u32, Set<int>> {
    Map::new(
        |asn: u32| exists|i: int| 0 <= i < v.len() && #[trigger] v[i].0 == asn,
        |asn: u32| Set::new(|a: int| exists|i: int| 0 <= i < v.len() && v[i].0 == asn && #[trigger] nets_addresses(f, v[i].1@).contains(a)),
    )
}

/// The ranges of `m` as plain values.
fn map_parts(f: Family, m: &HashMap<u32, AddrSet>) -> (r: Vec<(u32, Vec<(u128, u8)>)>)
    requires
        forall|a: u32| #[trigger] m@.contains_key(a) ==> m@[a].family() == f,
    ensures
        ranges_valid(f, r@),
        ranges_of(f, r@) == family_given(m@),
{
    let mut r: Vec<(u32, Vec<(u128, u8)>)> = Vec::new();
    for kv in it: m.iter()
        invariant
            forall|a: u32| #[trigger] m@.contains_key(a) ==> m@[a].family() == f,
            forall|j: int| 0 <= j < it.seq().len() ==> m@.contains_key(*it.seq()[j].0) && m@[*it.seq()[j].0] == *it.seq()[j].1,
            forall|a: u32| #[trigger] m@.contains_key(a) ==> exists|j: int| 0 <= j < it.seq().len() && *it.seq()[j].0 == a,
            r@.len() == it.index(),
            forall|i: int| 0 <= i < r@.len() ==> r@[i].0 == *it.seq()[i].0,
            forall|i: int| 0 <= i < r@.len() ==> m@.contains_key((#[trigger] r@[i]).0) && nets_valid(f, r@[i].1@)
                && nets_addresses(f, r@[i].1@) == m@[r@[i].0].addresses(),
            it.index() == it.seq().len() ==> forall|a: u32| #[trigger] m@.contains_key(a) ==> exists|i: int| 0 <= i < r@.len() && r@[i].0 == a,
    {
        let (asn, set) = kv;
        let nets = set.nets();
        proof {
            lemma_nets_describe(*set, nets@);
        }
        let ghost r0 = r@;
        r.push((*asn, nets));
        proof {
            assert forall|i: int| 0 <= i < r@.len() implies m@.contains_key((#[trigger] r@[i]).0) && nets_valid(f, r@[i].1@)
                && nets_addresses(f, r@[i].1@) == m@[r@[i].0].addresses() by {
                if i < r0.len() {
                    assert(r@[i] == r0[i]);
                }
            }
            assert forall|i: int| 0 <= i < r@.len() implies r@[i].0 == *it.seq()[i].0 by {
                if i < r0.len() {
                    assert(r@[i] == r0[i]);
                }
            }
            assert forall|a: u32| it.index() + 1 == it.seq().len() && #[trigger] m@.contains_key(a) implies exists|i: int| 0 <= i < r@.len() && r@[i].0 == a by {
                let j = choose|j: int| 0 <= j < it.seq().len() && *it.seq()[j].0 == a;
                assert(r@[j].0 == a);
            }
        }
    }
    proof {
        let g = family_given(m@);
        let ro = ranges_of(f, r@);
        assert forall|a: u32| #[trigger] ro.contains_key(a) <==> g.contains_key(a) by {
            if ro.contains_key(a) {
                let i = choose|i: int| 0 <= i < r@.len() && #[trigger] r@[i].0 == a;
                assert(m@.contains_key(r@[i].0));
            }
            if g.contains_key(a) {
                let i = choose|i: int| 0 <= i < r@.len() && r@[i].0 == a;
                assert(ro.contains_key(a));
            }
        }
        assert forall|a: u32| #[trigger] ro.contains_key(a) implies ro[a] == g[a] by {
            let i0 = choose|i: int| 0 <= i < r@.len() && #[trigger] r@[i].0 == a;
            assert forall|x: int| ro[a].contains(x) <==> g[a].contains(x) by {
                if ro[a].contains(x) {
                    let i = choose|i: int| 0 <= i < r@.len() && r@[i].0 == a && #[trigger] nets_addresses(f, r@[i].1@).contains(x);
                    assert(m@.contains_key(r@[i].0));
                }
                if g[a].contains(x) {
                    assert(m@.contains_key(r@[i0].0));
                    assert(nets_addresses(f, r@[i0].1@).contains(x));
                }
            }
            assert(ro[a] =~= g[a]);
        }
        assert(ro =~= g);
        assert forall|i: int| 0 <= i < r@.len() implies nets_valid(f, (#[trigger] r@[i]).1@) by {}
    }
    r
}

/// The map of the ranges `v`; `None` when some network is not a prefix of
/// family `f`.
fn map_from_parts(f: Family, v: &Vec<(u32, Vec<(u128, u8)>)>) -> (r: Option<HashMap<u32, AddrSet>>)
    ensures
        r is Some <==> ranges_valid(f, v@),
        r matches Some(m) ==> family_given(m@) == ranges_of(f, v@) && forall|a: u32| #[trigger] m@.contains_key(a) ==> m@[a].family() == f,
{
    let mut k: usize = 0;
    while k < v.len()
        invariant
            k <= v@.len(),
            forall|i: int| 0 <= i < k ==> nets_valid(f, (#[trigger] v@[i]).1@),
        decreases v.len() - k,
    {
        if !check_nets(f, &v[k].1) {
            return None;
        }
        k = k + 1;
    }
    let mut m: HashMap<u32, AddrSet> = HashMap::new();
    let mut i: usize = 0;
    proof {
        assert(family_given(m@) =~= ranges_of(f, v@.take(0)));
    }
    while i < v.len()
        invariant
            i <= v@.len(),
            ranges_valid(f, v@),
            forall|a: u32| #[trigger] m@.contains_key(a) ==> m@[a].family() == f,
            family_given(m@) == ranges_of(f, v@.take(i as int)),
        decreases v.len() - i,
    {
        let asn = v[i].0;
        let ghost cur = family_given(m@);
        let ghost raw = m@;
        let mut set = match m.remove(&asn) {
            Some(s) => s,
            None => AddrSet::new(f),
        };
        let ghost prev = set.addresses();
        proof {
            assert(nets_valid(f, v@[i as int].1@));
        }
        set.add_nets(&v[i].1);
        m.insert(asn, set);
        proof {
            let t0 = v@.take(i as int);
            let t1 = v@.take(i + 1);
            let next = ranges_of(f, t1);
            let now = family_given(m@);
            assert(t1 =~= t0.push(v@[i as int]));
            assert(m@.dom() =~= raw.dom().insert(asn));
            assert forall|a: u32| #[trigger] now.contains_key(a) <==> next.contains_key(a) by {
                if a != asn {
                    if next.contains_key(a) {
                        let j = choose|j: int| 0 <= j < t1.len() && #[trigger] t1[j].0 == a;
                        assert(t0[j].0 == a);
                    }
                    if cur.contains_key(a) {
                        let j = choose|j: int| 0 <= j < t0.len() && #[trigger] t0[j].0 == a;
                        assert(t1[j].0 == a);
                    }
                } else {
                    assert(t1[i as int].0 == asn);
                }
            }
            assert forall|a: u32| #[trigger] now.contains_key(a) implies now[a] == next[a] by {
                assert forall|x: int| now[a].contains(x) <==> next[a].contains(x) by {
                    if a == asn {
                        assert(prev == if cur.contains_key(asn) { cur[asn] } else { Set::<int>::empty() });
                        if next[a].contains(x) {
                            let j = choose|j: int| 0 <= j < t1.len() && t1[j].0 == a && #[trigger] nets_addresses(f, t1[j].1@).contains(x);
                            if j < i {
                                assert(t0[j] == t1[j]);
                                assert(cur.contains_key(a));
                                assert(cur[a].contains(x));
                            } else {
                                assert(nets_addresses(f, v@[i as int].1@).contains(x));
                            }
                        }
                        if now[a].contains(x) {
                            if prev.contains(x) {
                                let j = choose|j: int| 0 <= j < t0.len() && t0[j].0 == a && #[trigger] nets_addresses(f, t0[j].1@).contains(x);
                                assert(t1[j] == t0[j]);
                            } else {
                                assert(nets_addresses(f, t1[i as int].1@).contains(x));
                            }
                        }
                    } else {
                        assert(now[a] == cur[a]);
                        if next[a].contains(x) {
                            let j = choose|j: int| 0 <= j < t1.len() && t1[j].0 == a && #[trigger] nets_addresses(f, t1[j].1@).contains(x);
                            assert(j < i);
                            assert(t0[j] == t1[j]);
                        }
                        if cur[a].contains(x) {
                            let j = choose|j: int| 0 <= j < t0.len() && t0[j].0 == a && #[trigger] nets_addresses(f, t0[j].1@).contains(x);
                            assert(t1[j] == t0[j]);
                        }
                    }
                }
                assert(now[a] =~= next[a]);
            }
            assert(now =~= next);
        }
        i = i + 1;
    }
    proof {
        assert(v@.take(v@.len() as int) =~= v@);
    }
    Some(m)
}

/// A set of IPv4 addresses and a set of IPv6 addresses.
pub struct IpRanges {
    v4: AddrSet,
    v6: AddrSet,
}

impl IpRanges {
    pub closed spec fn wf(&self) -> bool {
        self.v4.family() == Family::V4 && self.v6.family() == Family::V6
    }

    /// The addresses of family `f`.
    pub closed spec fn addresses(&self, f: Family) -> Set<int> {
        match f {
            Family::V4 => self.v4.addresses(),
            Family::V6 => self.v6.addresses(),
        }
    }

    /// The networks stored for family `f`, as (network, length).
    pub closed spec fn blocks(&self, f: Family) -> Set<(int, nat)> {
        match f {
            Family::V4 => self.v4.blocks(),
            Family::V6 => self.v6.blocks(),
        }
    }

    /// Whether the networks of family `f` were last merged.
    pub closed spec fn merged(&self, f: Family) -> bool {
        match f {
            Family::V4 => self.v4.simplified(),
            Family::V6 => self.v6.simplified(),
        }
    }

    /// No address.
    pub fn new() -> (r: IpRanges)
        ensures
            r.wf(),
            r.addresses(Family::V4).is_empty(),
            r.addresses(Family::V6).is_empty(),
            r.blocks(Family::V4).is_empty(),
            r.blocks(Family::V6).is_empty(),
    {
        IpRanges { v4: AddrSet::new(Family::V4), v6: AddrSet::new(Family::V6) }
    }

    pub(crate) fn of_sets(v4: AddrSet, v6: AddrSet) -> (r: IpRanges)
        requires
            v4.family() == Family::V4,
            v6.family() == Family::V6,
        ensures
            r.wf(),
            r.addresses(Family::V4) == v4.addresses(),
            r.addresses(Family::V6) == v6.addresses(),
            r.merged(Family::V4) == v4.simplified(),
            r.merged(Family::V6) == v6.simplified(),
    {
        IpRanges { v4, v6 }
    }

    /// The stored networks of each family, each once.
    pub fn to_parts(&self) -> (r: (Vec<(u128, u8)>, Vec<(u128, u8)>))
        requires
            self.wf(),
        ensures
            as_int_nets128(r.0@).to_set() == self.blocks(Family::V4),
            as_int_nets128(r.1@).to_set() == self.blocks(Family::V6),
            nets_valid(Family::V4, r.0@),
            nets_valid(Family::V6, r.1@),
            nets_addresses(Family::V4, r.0@) == self.addresses(Family::V4),
            nets_addresses(Family::V6, r.1@) == self.addresses(Family::V6),
    {
        let n4 = self.v4.nets();
        let n6 = self.v6.nets();
        proof {
            lemma_nets_describe(self.v4, n4@);
            lemma_nets_describe(self.v6, n6@);
        }
        (n4, n6)
    }

    /// The sets of the networks `v4` and `v6`; `None` when one of them is
    /// not a prefix of its family.
    pub fn from_parts(v4: &Vec<(u128, u8)>, v6: &Vec<(u128, u8)>) -> (r: Option<IpRanges>)
        ensures
            r is Some <==> nets_valid(Family::V4, v4@) && nets_valid(Family::V6, v6@),
            r matches Some(x) ==> x.wf() && x.addresses(Family::V4) == nets_addresses(Family::V4, v4@) && x.addresses(
                Family::V6,
            ) == nets_addresses(Family::V6, v6@),
    {
        if !check_nets(Family::V4, v4) || !check_nets(Family::V6, v6) {
            return None;
        }
        Some(IpRanges { v4: set_of_nets(Family::V4, v4), v6: set_of_nets(Family::V6, v6) })
    }

    /// Adds the addresses of `prefix`.
    pub fn add_prefix(&mut self, prefix: Cidr)
        requires
            old(self).wf(),
            prefix.wf(),
        ensures
            final(self).wf(),
            final(self).addresses(prefix.family) == old(self).addresses(prefix.family).union(prefix.addresses()),
            forall|g: Family| g != prefix.family ==> final(self).addresses(g) == old(self).addresses(g),
    {
        match prefix.family {
            Family::V4 => self.v4.add(prefix.addr, prefix.len),
            Family::V6 => self.v6.add(prefix.addr, prefix.len),
        }
    }

    /// The addresses of `prefixes`.
    pub fn from_prefixes(prefixes: &[Cidr]) -> (r: IpRanges)
        requires
            forall|i: int| 0 <= i < prefixes@.len() ==> (#[trigger] prefixes@[i]).wf(),
        ensures
            r.wf(),
            forall|f: Family| #[trigger] r.addresses(f) == prefix_addresses(prefixes@, f),
    {
        let mut fallback = IpRanges::new();
        let mut i: usize = 0;
        proof {
            assert forall|f: Family| #[trigger] fallback.addresses(f) == prefix_addresses(prefixes@.take(0), f) by {
                match f {
                    Family::V4 => {},
                    Family::V6 => {},
                }
                assert(fallback.addresses(f) =~= prefix_addresses(prefixes@.take(0), f));
            }
        }
        while i < prefixes.len()
            invariant
                i <= prefixes@.len(),
                fallback.wf(),
                forall|j: int| 0 <= j < prefixes@.len() ==> (#[trigger] prefixes@[j]).wf(),
                forall|f: Family| #[trigger] fallback.addresses(f) == prefix_addresses(prefixes@.take(i as int), f),
            decreases prefixes.len() - i,
        {
            let ghost before = fallback;
            fallback.add_prefix(prefixes[i]);
            proof {
                let t0 = prefixes@.take(i as int);
                let t1 = prefixes@.take(i + 1);
                assert forall|f: Family| #[trigger] fallback.addresses(f) == prefix_addresses(t1, f) by {
                    assert forall|a: int| prefix_addresses(t1, f).contains(a) <==> prefix_addresses(t0, f).contains(a)
                        || (prefixes@[i as int].family == f && prefixes@[i as int].addresses().contains(a)) by {
                        if prefix_addresses(t1, f).contains(a) {
                            let k = choose|k: int| 0 <= k < t1.len() && t1[k].family == f && #[trigger] t1[k].addresses().contains(a);
                            if k < i {
                                assert(t0[k] == t1[k]);
                            }
                        }
                        if prefix_addresses(t0, f).contains(a) {
                            let k = choose|k: int| 0 <= k < t0.len() && t0[k].family == f && #[trigger] t0[k].addresses().contains(a);
                            assert(t1[k] == t0[k]);
                        }
                        if prefixes@[i as int].family == f && prefixes@[i as int].addresses().contains(a) {
                            assert(t1[i as int] == prefixes@[i as int]);
                        }
                    }
                    assert(fallback.addresses(f) =~= prefix_addresses(t1, f));
                }
            }
            i = i + 1;
        }
        proof {
            assert(prefixes@.take(prefixes@.len() as int) =~= prefixes@);
        }
        fallback
    }

    /// Adds the addresses of `prefixes` that `announced` does not hold.
    pub fn add_unannounced(&mut self, announced: &IpRanges, prefixes: &[Cidr])
        requires
            old(self).wf(),
            announced.wf(),
            forall|i: int| 0 <= i < prefixes@.len() ==> (#[trigger] prefixes@[i]).wf(),
        ensures
            final(self).wf(),
            forall|f: Family| #[trigger] final(self).addresses(f) == old(self).addresses(f).union(
                prefix_addresses(prefixes@, f).difference(announced.addresses(f)),
            ),
    {
        let mut fallback = IpRanges::from_prefixes(prefixes);
        fallback.simplify();
        assert(fallback.addresses(Family::V4) == prefix_addresses(prefixes@, Family::V4));
        assert(fallback.addresses(Family::V6) == prefix_addresses(prefixes@, Family::V6));
        let rest4 = fallback.v4.exclude(&announced.v4);
        let rest6 = fallback.v6.exclude(&announced.v6);
        self.v4.add_all(&rest4);
        self.v6.add_all(&rest6);
        proof {
            assert forall|f: Family| #[trigger] self.addresses(f) == old(self).addresses(f).union(
                prefix_addresses(prefixes@, f).difference(announced.addresses(f)),
            ) by {
                match f {
                    Family::V4 => {},
                    Family::V6 => {},
                }
            }
        }
    }

    /// Merges the networks of both families, keeping the addresses.
    pub fn simplify(&mut self)
        requires
            old(self).wf(),
        ensures
            final(self).wf(),
            forall|f: Family| #[trigger] final(self).addresses(f) == old(self).addresses(f),
            forall|f: Family| #[trigger] final(self).merged(f),
    {
        self.v4.simplify();
        self.v6.simplify();
    }

    /// The stored networks as text: the IPv4 ones, then the IPv6 ones, each
    /// in increasing order.
    pub fn lines(&self) -> (r: Vec<String>)
        requires
            self.wf(),
        ensures
            exists|k: int| 0 <= k <= r@.len()
                && prefix_lines(Family::V4, self.addresses(Family::V4), self.merged(Family::V4), self.blocks(Family::V4), texts(r@).take(k))
                && prefix_lines(Family::V6, self.addresses(Family::V6), self.merged(Family::V6), self.blocks(Family::V6), texts(r@).skip(k)),
    {
        let mut r = family_lines(&self.v4);
        let ghost k = r@.len() as int;
        let ghost r4 = r@;
        let mut r6 = family_lines(&self.v6);
        let ghost r6v = r6@;
        r.append(&mut r6);
        proof {
            assert(texts(r@).take(k) =~= texts(r4));
            assert(texts(r@).skip(k) =~= texts(r6v));
        }
        r
    }
}

/// The addresses that each ASN was given, for each family.
pub struct AsnRanges {
    v4: HashMap<u32, AddrSet>,
    v6: HashMap<u32, AddrSet>,
}

pub open spec fn family_given(m: Map<u32, AddrSet>) -> Map<u32, Set<int>> {
    m.map_values(|s: AddrSet| s.addresses())
}

impl AsnRanges {
    pub closed spec fn wf(&self) -> bool {
        &&& forall|a: u32| #[trigger] self.v4@.contains_key(a) ==> self.v4@[a].family() == Family::V4
        &&& forall|a: u32| #[trigger] self.v6@.contains_key(a) ==> self.v6@[a].family() == Family::V6
    }

    /// For family `f`, each ASN that was given addresses, with them.
    pub closed spec fn given(&self, f: Family) -> Map<u32, Set<int>> {
        match f {
            Family::V4 => family_given(self.v4@),
            Family::V6 => family_given(self.v6@),
        }
    }

    pub(crate) fn of_maps(v4: HashMap<u32, AddrSet>, v6: HashMap<u32, AddrSet>) -> (r: AsnRanges)
        requires
            forall|a: u32| #[trigger] v4@.contains_key(a) ==> v4@[a].family() == Family::V4,
            forall|a: u32| #[trigger] v6@.contains_key(a) ==> v6@[a].family() == Family::V6,
        ensures
            r.wf(),
            r.given(Family::V4) == family_given(v4@),
            r.given(Family::V6) == family_given(v6@),
    {
        AsnRanges { v4, v6 }
    }

    /// The ranges of each family as plain values.
    pub fn to_parts(&self) -> (r: (Vec<(u32, Vec<(u128, u8)>)>, Vec<(u32, Vec<(u128, u8)>)>))
        requires
            self.wf(),
        ensures
            ranges_valid(Family::V4, r.0@),
            ranges_valid(Family::V6, r.1@),
            ranges_of(Family::V4, r.0@) == self.given(Family::V4),
            ranges_of(Family::V6, r.1@) == self.given(Family::V6),
    {
        (map_parts(Family::V4, &self.v4), map_parts(Family::V6, &self.v6))
    }

    /// The ranges `v4` and `v6`; `None` when some network is not a prefix
    /// of its family.
    pub fn from_parts(v4: &Vec<(u32, Vec<(u128, u8)>)>, v6: &Vec<(u32, Vec<(u128, u8)>)>) -> (r: Option<AsnRanges>)
        ensures
            r is Some <==> ranges_valid(Family::V4, v4@) && ranges_valid(Family::V6, v6@),
            r matches Some(x) ==> x.wf() && x.given(Family::V4) == ranges_of(Family::V4, v4@) && x.given(Family::V6) == ranges_of(
                Family::V6,
                v6@,
            ),
    {
        let m4 = match map_from_parts(Family::V4, v4) {
            Some(m) => m,
            None => {
                return None;
            },
        };
        let m6 = match map_from_parts(Family::V6, v6) {
            Some(m) => m,
            None => {
                return None;
            },
        };
        Some(AsnRanges { v4: m4, v6: m6 })
    }

    /// Whether `asn` was given addresses of either family.
    pub fn contains(&self, asn: u32) -> (r: bool)
        ensures
            r == (self.given(Family::V4).contains_key(asn) || self.given(Family::V6).contains_key(asn)),
    {
        self.v4.contains_key(&asn) || self.v6.contains_key(&asn)
    }

    /// The addresses given to the ASNs of `targets` that are not in
    /// `excluded`.
    pub fn select(&self, targets: &HashSet<u32>, excluded: &HashSet<u32>) -> (r: IpRanges)
        requires
            self.wf(),
        ensures
            r.wf(),
            forall|f: Family| #[trigger] r.addresses(f) == selected(self.given(f), targets@, excluded@),
    {
        let mut result = IpRanges::new();
        for t in it: targets.iter()
            invariant
                self.wf(),
                result.wf(),
                it.seq().unref().to_set() == targets@,
                forall|f: Family| #[trigger] result.addresses(f) == selected(self.given(f), it.seq().take(it.index() as int).unref().to_set(), excluded@),
                it.index() == it.seq().len() ==> forall|f: Family| #[trigger] result.addresses(f) == selected(self.given(f), targets@, excluded@),
        {
            let ghost before = result;
            let ghost t0 = it.seq().take(it.index() as int).unref();
            let ghost t1 = it.seq().take(it.index() + 1).unref();
            if !excluded.contains(t) {
                match self.v4.get(t) {
                    Some(range) => result.v4.add_all(range),
                    None => {},
                }
                match self.v6.get(t) {
                    Some(range) => result.v6.add_all(range),
                    None => {},
                }
            }
            proof {
                assert(t1 =~= t0.push(*t));
                assert forall|x: u32| t1.to_set().contains(x) <==> t0.to_set().contains(x) || x == *t by {
                    if t1.contains(x) {
                        let k = choose|k: int| 0 <= k < t1.len() && t1[k] == x;
                        if k < t0.len() {
                            assert(t0[k] == x);
                        }
                    }
                    if t0.contains(x) {
                        let k = choose|k: int| 0 <= k < t0.len() && t0[k] == x;
                        assert(t1[k] == x);
                    }
                    if x == *t {
                        assert(t1[t0.len() as int] == x);
                    }
                }
                assert forall|f: Family| #[trigger] result.addresses(f) == before.addresses(f).union(
                    added(self.given(f), *t, excluded@),
                ) by {
                    let g = self.given(f);
                    match f {
                        Family::V4 => {
                            if !excluded@.contains(*t) && self.v4@.contains_key(*t) {
                                assert(g[*t] == self.v4@[*t].addresses());
                            } else {
                                assert(result.addresses(f) =~= before.addresses(f).union(Set::<int>::empty()));
                            }
                        },
                        Family::V6 => {
                            if !excluded@.contains(*t) && self.v6@.contains_key(*t) {
                                assert(g[*t] == self.v6@[*t].addresses());
                            } else {
                                assert(result.addresses(f) =~= before.addresses(f).union(Set::<int>::empty()));
                            }
                        },
                    }
                }
                assert forall|f: Family| #[trigger] result.addresses(f) == selected(self.given(f), t1.to_set(), excluded@) by {
                    let g = self.given(f);
                    assert(result.addresses(f) == before.addresses(f).union(added(g, *t, excluded@)));
                    assert forall|a: int| selected(g, t1.to_set(), excluded@).contains(a) <==> selected(g, t0.to_set(), excluded@).contains(a)
                        || (!excluded@.contains(*t) && g.contains_key(*t) && g[*t].contains(a)) by {
                        if selected(g, t1.to_set(), excluded@).contains(a) {
                            let x = choose|x: u32| t1.to_set().contains(x) && !excluded@.contains(x) && #[trigger] g.contains_key(x) && g[x].contains(a);
                            if x != *t {
                                assert(t0.to_set().contains(x));
                            }
                        }
                        if selected(g, t0.to_set(), excluded@).contains(a) {
                            let x = choose|x: u32| t0.to_set().contains(x) && !excluded@.contains(x) && #[trigger] g.contains_key(x) && g[x].contains(a);
                            assert(t1.to_set().contains(x));
                        }
                    }
                    assert(result.addresses(f) =~= selected(g, t1.to_set(), excluded@));
                }
                assert(it.index() + 1 == it.seq().len() ==> it.seq().take(it.index() + 1) =~= it.seq());
            }
        }
        result
    }
}

spec fn added(given: Map<u32, Set<int>>, t: u32, excluded: Set<u32>) -> Set<int> {
    if !excluded.contains(t) && given.contains_key(t) {
        given[t]
    } else {
        Set::empty()
    }
}

/// The addresses given to an ASN of `targets` that is not in `excluded`.
pub open spec fn selected(given: Map<u32, Set<int>>, targets: Set<u32>, excluded: Set<u32>) -> Set<int> {
    Set::new(|a: int| exists|x: u32| targets.contains(x) && !excluded.contains(x) && #[trigger] given.contains_key(x) && given[x].contains(a))
}

/// The tables of both families.
pub struct MrtTables {
    v4: FamilyTable,
    v6: FamilyTable,
}

impl MrtTables {
    /// The table of family `f`.
    pub closed spec fn table(&self, f: Family) -> FamilyTable {
        match f {
            Family::V4 => self.v4,
            Family::V6 => self.v6,
        }
    }

    pub open spec fn wf(&self) -> bool {
        forall|f: Family| #![trigger self.table(f)] self.table(f).wf() && self.table(f).family() == f
    }

    /// Empty tables.
    pub fn new() -> (r: MrtTables)
        ensures
            r.wf(),
            forall|f: Family| #![trigger r.table(f)] r.table(f).origins().is_empty() && r.table(f).announced().is_empty()
                && r.table(f).suffixes().is_empty() && r.table(f).points().is_empty(),
    {
        let r = MrtTables { v4: FamilyTable::new(Family::V4), v6: FamilyTable::new(Family::V6) };
        proof {
            assert forall|f: Family| #![trigger r.table(f)] r.table(f).wf() && r.table(f).family() == f by {
                match f {
                    Family::V4 => {},
                    Family::V6 => {},
                }
            }
            assert forall|f: Family| #![trigger r.table(f)] r.table(f).origins().is_empty() && r.table(f).announced().is_empty()
                && r.table(f).suffixes().is_empty() && r.table(f).points().is_empty() by {
                match f {
                    Family::V4 => {},
                    Family::V6 => {},
                }
            }
        }
        r
    }

    /// Records an announcement of `prefix` in the table of its family.
    pub fn announce(&mut self, prefix: Cidr)
        requires
            old(self).wf(),
            prefix.wf(),
        ensures
            final(self).wf(),
            forall|g: Family| g != prefix.family ==> #[trigger] final(self).table(g) == old(self).table(g),
            final(self).table(prefix.family).origins() == old(self).table(prefix.family).origins(),
            final(self).table(prefix.family).suffixes() == old(self).table(prefix.family).suffixes(),
            final(self).table(prefix.family).points() == old(self).table(prefix.family).points(),
            final(self).table(prefix.family).announced() == if prefix.len > 0 {
                old(self).table(prefix.family).announced().union(prefix.addresses())
            } else {
                old(self).table(prefix.family).announced()
            },
    {
        proof {
            assert(self.table(prefix.family).wf() && self.table(prefix.family).family() == prefix.family);
        }
        match prefix.family {
            Family::V4 => self.v4.announce(prefix.addr, prefix.len),
            Family::V6 => self.v6.announce(prefix.addr, prefix.len),
        }
        proof {
            assert forall|f: Family| #![trigger self.table(f)] self.table(f).wf() && self.table(f).family() == f by {
                assert(old(self).table(f).wf() && old(self).table(f).family() == f);
            }
        }
    }

    /// Records in the table of its family that `prefix` is announced by
    /// `origins`, with the path `path` when one is given.
    pub fn classify(&mut self, prefix: Cidr, origins: &HashSet<u32>, path: Option<&AsPath>)
        requires
            old(self).wf(),
            prefix.wf(),
        ensures
            final(self).wf(),
            forall|g: Family| g != prefix.family ==> #[trigger] final(self).table(g) == old(self).table(g),
            final(self).table(prefix.family).announced() == old(self).table(prefix.family).announced(),
            final(self).table(prefix.family).origins() == crate::prefixes::with_origins(
                old(self).table(prefix.family).origins(),
                crate::prefixes::prefix_key(prefix.family, prefix.addr as int, prefix.len as nat),
                origins@,
            ),
            final(self).table(prefix.family).points() == old(self).table(prefix.family).points().union(
                crate::table::prefix_points(prefix.family, prefix.addr as int, prefix.len as nat),
            ),
            final(self).table(prefix.family).suffixes() == match path {
                None => old(self).table(prefix.family).suffixes(),
                Some(p) => crate::table::with_path(
                    old(self).table(prefix.family).suffixes(),
                    crate::table::path_keys(
                        crate::net::network_of(prefix.family, prefix.addr as int, prefix.len as nat) as u128,
                        prefix.len as nat,
                        origins@,
                    ),
                    crate::path::as_path_asns(*p),
                ),
            },
    {
        proof {
            assert(self.table(prefix.family).wf() && self.table(prefix.family).family() == prefix.family);
        }
        match prefix.family {
            Family::V4 => self.v4.classify(prefix.addr, prefix.len, origins, path),
            Family::V6 => self.v6.classify(prefix.addr, prefix.len, origins, path),
        }
        proof {
            assert forall|f: Family| #![trigger self.table(f)] self.table(f).wf() && self.table(f).family() == f by {
                assert(old(self).table(f).wf() && old(self).table(f).family() == f);
            }
        }
    }

    /// Adds `other`'s tables to these, family by family (see
    /// `FamilyTable::merge`).
    pub fn merge(&mut self, other: MrtTables, allowed: Option<&HashSet<u32>>)
        requires
            old(self).wf(),
            other.wf(),
        ensures
            final(self).wf(),
            forall|f: Family| #[trigger] final(self).table(f).announced() == old(self).table(f).announced().union(
                other.table(f).announced(),
            ),
            forall|f: Family| #[trigger] final(self).table(f).origins() == crate::table::merged_origins(
                old(self).table(f).origins(),
                other.table(f).origins(),
                crate::table::allowed_view(allowed),
            ),
            forall|f: Family| #[trigger] final(self).table(f).suffixes() == crate::table::merged_suffixes(
                old(self).table(f).suffixes(),
                other.table(f).suffixes(),
            ),
            forall|f: Family| #[trigger] final(self).table(f).points() == old(self).table(f).points().union(other.table(f).points()),
    {
        proof {
            assert(self.table(Family::V4).wf() && other.table(Family::V4).wf());
            assert(self.table(Family::V6).wf() && other.table(Family::V6).wf());
        }
        let MrtTables { v4, v6 } = other;
        self.v4.merge(v4, allowed);
        self.v6.merge(v6, allowed);
        proof {
            assert forall|f: Family| #![trigger self.table(f)] self.table(f).wf() && self.table(f).family() == f by {
                match f {
                    Family::V4 => {},
                    Family::V6 => {},
                }
            }
        }
    }

    /// Gives prefixes to the shared upstreams of their origins, in both
    /// families (see `FamilyTable::add_shared_upstreams`).
    pub fn add_shared_upstreams(&mut self, operators: &HashSet<u32>)
        requires
            old(self).wf(),
        ensures
            final(self).wf(),
            forall|f: Family| #[trigger] final(self).table(f).announced() == old(self).table(f).announced(),
            forall|f: Family| #[trigger] final(self).table(f).points() == old(self).table(f).points(),
            forall|f: Family| #[trigger] final(self).table(f).origins() == crate::table::with_upstreams(
                old(self).table(f).origins(),
                old(self).table(f).suffixes(),
                operators@,
            ),
            forall|f: Family| #[trigger] final(self).table(f).suffixes().is_empty(),
    {
        proof {
            assert(self.table(Family::V4).wf());
            assert(self.table(Family::V6).wf());
        }
        self.v4.add_shared_upstreams(operators);
        self.v6.add_shared_upstreams(operators);
        proof {
            assert forall|f: Family| #![trigger self.table(f)] self.table(f).wf() && self.table(f).family() == f by {
                match f {
                    Family::V4 => {},
                    Family::V6 => {},
                }
            }
        }
    }

    /// The addresses given to each ASN and the announced addresses merged,
    /// in both families (see `FamilyTable::into_ranges`).
    pub fn into_ranges(self) -> (r: (AsnRanges, IpRanges))
        requires
            self.wf(),
        ensures
            r.0.wf(),
            r.1.wf(),
            forall|f: Family| #[trigger] r.1.addresses(f) == self.table(f).announced() && r.1.merged(f),
            forall|f: Family, asn: u32| #[trigger] r.0.given(f).contains_key(asn) <==> exists|a: int|
                assigned(f, self.table(f).origins(), self.table(f).points(), asn, a),
            forall|f: Family, asn: u32| #[trigger] r.0.given(f).contains_key(asn) ==> r.0.given(f)[asn] == Set::new(
                |a: int| assigned(f, self.table(f).origins(), self.table(f).points(), asn, a),
            ),
    {
        proof {
            assert(self.table(Family::V4).wf() && self.table(Family::V4).family() == Family::V4);
            assert(self.table(Family::V6).wf() && self.table(Family::V6).family() == Family::V6);
        }
        let ghost t4 = self.v4;
        let ghost t6 = self.v6;
        let MrtTables { v4, v6 } = self;
        let (ranges4, announced4) = v4.into_ranges();
        let (ranges6, announced6) = v6.into_ranges();
        let asn_ranges = AsnRanges::of_maps(ranges4, ranges6);
        let ip_ranges = IpRanges::of_sets(announced4, announced6);
        proof {
            assert forall|f: Family| #[trigger] ip_ranges.addresses(f) == self.table(f).announced() && ip_ranges.merged(f) by {
                match f {
                    Family::V4 => {},
                    Family::V6 => {},
                }
            }
            assert forall|f: Family, asn: u32| #[trigger] asn_ranges.given(f).contains_key(asn) <==> exists|a: int|
                assigned(f, self.table(f).origins(), self.table(f).points(), asn, a) by {
                match f {
                    Family::V4 => {},
                    Family::V6 => {},
                }
            }
            assert forall|f: Family, asn: u32| #[trigger] asn_ranges.given(f).contains_key(asn) implies asn_ranges.given(f)[asn] == Set::new(
                |a: int| assigned(f, self.table(f).origins(), self.table(f).points(), asn, a),
            ) by {
                match f {
                    Family::V4 => {},
                    Family::V6 => {},
                }
            }
        }
        (asn_ranges, ip_ranges)
    }
}

/// The prefixes of `set`, as text, in increasing order.
fn family_lines(set: &AddrSet) -> (r: Vec<String>)
    ensures
        prefix_lines(set.family(), set.addresses(), set.simplified(), set.blocks(), texts(r@)),
{
    let mut nets = set.nets();
    let ghost before = nets@;
    sort_nets(&mut nets);
    proof {
        lemma_cover_permuted(set.family(), before, nets@, set.addresses(), set.simplified());
    }
    let mut r: Vec<String> = Vec::new();
    let mut i: usize = 0;
    while i < nets.len()
        invariant
            i <= nets.len(),
            r@.len() == i,
            forall|j: int| 0 <= j < i ==> #[trigger] texts(r@)[j] == cidr_text(set.family(), nets@[j].0, nets@[j].1),
            forall|j: int| 0 <= j < nets@.len() ==> crate::net::valid_prefix(set.family(), #[trigger] nets@[j].0 as int, nets@[j].1 as nat),
        decreases nets.len() - i,
    {
        let (addr, len) = nets[i];
        proof {
            crate::net::lemma_space_values();
            assert(crate::net::valid_prefix(set.family(), nets@[i as int].0 as int, nets@[i as int].1 as nat));
        }
        let text = match set {
            AddrSet::V4(_) => ipv4_text(addr as u32, len),
            AddrSet::V6(_) => ipv6_text(addr, len),
        };
        let ghost r0 = r@;
        r.push(text);
        proof {
            assert forall|j: int| 0 <= j < i + 1 implies #[trigger] texts(r@)[j] == cidr_text(set.family(), nets@[j].0, nets@[j].1) by {
                if j < i {
                    assert(texts(r@)[j] == texts(r0)[j]);
                }
            }
        }
        i = i + 1;
    }
    proof {
        assert(texts(r@).len() == nets@.len());
    }
    r
}

/// A reordering of an exact cover is an exact cover of the same addresses.
proof fn lemma_cover_permuted(f: Family, a: Seq<(u128, u8)>, b: Seq<(u128, u8)>, addrs: Set<int>, merged: bool)
    requires
        a.to_multiset() == b.to_multiset(),
        exact_cover(f, as_int_nets128(a), addrs),
        merged ==> maximal_blocks(f, as_int_nets128(a), addrs),
    ensures
        exact_cover(f, as_int_nets128(b), addrs),
        merged ==> maximal_blocks(f, as_int_nets128(b), addrs),
        forall|j: int| 0 <= j < b.len() ==> crate::net::valid_prefix(f, #[trigger] b[j].0 as int, b[j].1 as nat),
        as_int_nets128(b).to_set() == as_int_nets128(a).to_set(),
{
    broadcast use vstd::seq_lib::group_to_multiset_ensures;
    let sa = as_int_nets128(a);
    let sb = as_int_nets128(b);
    assert(a.len() == b.len()) by {
        assert(a.to_multiset().len() == a.len());
        assert(b.to_multiset().len() == b.len());
    }
    assert(a.no_duplicates()) by {
        assert forall|i: int, j: int| 0 <= i < a.len() && 0 <= j < a.len() && i != j implies a[i] != a[j] by {
            let (x, y) = if i < j { (i, j) } else { (j, i) };
            assert(block(f, sa[x].0, sa[x].1).disjoint(block(f, sa[y].0, sa[y].1)));
            assert(crate::net::valid_prefix(f, sa[x].0, sa[x].1));
            crate::net::lemma_block_bounds(f, sa[x].0, sa[x].1);
            assert(block(f, sa[x].0, sa[x].1).contains(sa[x].0));
            if a[i] == a[j] {
                assert(sa[x] == sa[y]);
            }
        }
    }
    a.lemma_multiset_has_no_duplicates();
    b.lemma_multiset_has_no_duplicates_conv();
    assert forall|j: int| 0 <= j < b.len() implies exists|i: int| 0 <= i < a.len() && a[i] == #[trigger] b[j] by {
        assert(b.contains(b[j]));
        assert(b.to_multiset().count(b[j]) > 0);
        assert(a.to_multiset().count(b[j]) > 0);
        assert(a.contains(b[j]));
    }
    assert forall|j: int| 0 <= j < b.len() implies crate::net::valid_prefix(f, #[trigger] b[j].0 as int, b[j].1 as nat) by {
        let i = choose|i: int| 0 <= i < a.len() && a[i] == b[j];
        assert(sa[i] == (a[i].0 as int, a[i].1 as nat));
    }
    assert forall|j: int| 0 <= j < sb.len() implies crate::net::valid_prefix(f, #[trigger] sb[j].0, sb[j].1)
        && sb[j].0 == crate::net::network_of(f, sb[j].0, sb[j].1) by {
        let i = choose|i: int| 0 <= i < a.len() && a[i] == b[j];
        assert(sa[i] == (a[i].0 as int, a[i].1 as nat));
        assert(sb[j] == sa[i]);
    }
    assert forall|x: int, y: int| 0 <= x < y < sb.len() implies #[trigger] block(f, sb[x].0, sb[x].1).disjoint(
        #[trigger] block(f, sb[y].0, sb[y].1),
    ) by {
        let i = choose|i: int| 0 <= i < a.len() && a[i] == b[x];
        let k = choose|k: int| 0 <= k < a.len() && a[k] == b[y];
        assert(sb[x] == sa[i]);
        assert(sb[y] == sa[k]);
        assert(b[x] != b[y]);
        if i < k {
            assert(block(f, sa[i].0, sa[i].1).disjoint(block(f, sa[k].0, sa[k].1)));
        } else {
            assert(block(f, sa[k].0, sa[k].1).disjoint(block(f, sa[i].0, sa[i].1)));
        }
    }
    assert forall|p: int| addrs.contains(p) <==> #[trigger] crate::subnets::covered_by(f, sb, p) by {
        if crate::subnets::covered_by(f, sa, p) {
            let i = choose|i: int| 0 <= i < sa.len() && #[trigger] crate::net::in_block(f, sa[i].0, sa[i].1, p);
            assert(a.contains(a[i]));
            assert(a.to_multiset().count(a[i]) > 0);
            assert(b.to_multiset().count(a[i]) > 0);
            assert(b.contains(a[i]));
            let j = choose|j: int| 0 <= j < b.len() && b[j] == a[i];
            assert(sb[j] == sa[i]);
        }
        if crate::subnets::covered_by(f, sb, p) {
            let j = choose|j: int| 0 <= j < sb.len() && #[trigger] crate::net::in_block(f, sb[j].0, sb[j].1, p);
            let i = choose|i: int| 0 <= i < a.len() && a[i] == b[j];
            assert(sb[j] == sa[i]);
        }
    }
    assert forall|x: (int, nat)| #[trigger] sb.to_set().contains(x) <==> sa.to_set().contains(x) by {
        if sb.contains(x) {
            let j = choose|j: int| 0 <= j < sb.len() && sb[j] == x;
            let i = choose|i: int| 0 <= i < a.len() && a[i] == b[j];
            assert(sa[i] == x);
        }
        if sa.contains(x) {
            let i = choose|i: int| 0 <= i < sa.len() && sa[i] == x;
            assert(a.contains(a[i]));
            assert(a.to_multiset().count(a[i]) > 0);
            assert(b.to_multiset().count(a[i]) > 0);
            assert(b.contains(a[i]));
            let j = choose|j: int| 0 <= j < b.len() && b[j] == a[i];
            assert(sb[j] == x);
        }
    }
    assert(sb.to_set() =~= sa.to_set());
    if merged {
        assert forall|j: int| 0 <= j < sb.len() implies #[trigger] sb[j].1 == 0 || !block(f, sb[j].0, (sb[j].1 - 1) as nat).subset_of(addrs) by {
            let i = choose|i: int| 0 <= i < a.len() && a[i] == b[j];
            assert(sb[j] == sa[i]);
        }
    }
}

} // verus!
