//! Sets of addresses held by iprange's `IpRange`, one per address family.
use ipnet::{Ipv4Net, Ipv6Net};
use iprange::IpRange;
use vstd::prelude::*;
use crate::net::{Family, block, in_block, network_of, valid_prefix};
use crate::subnets::{covered_by, covered_upto};

verus! {

/// An iprange `IpRange<Ipv4Net>`.
#[verifier::external_body]
pub struct Ipv4Range {
    inner: IpRange<Ipv4Net>,
}

/// An iprange `IpRange<Ipv6Net>`.
#[verifier::external_body]
pub struct Ipv6Range {
    inner: IpRange<Ipv6Net>,
}

/// The networks that an IPv4 range stores, as (network, length).
pub uninterp spec fn ipv4_range_blocks(r: Ipv4Range) -> Set<(int, nat)>;

/// The IPv4 addresses that a range holds: those of its stored networks.
#[verifier::opaque]
pub open spec fn ipv4_range_addresses(r: Ipv4Range) -> Set<int> {
    Set::new(|a: int| exists|n: (int, nat)| #[trigger] ipv4_range_blocks(r).contains(n) && in_block(Family::V4, n.0, n.1, a))
}

/// Whether the range's networks were last merged by `simplify`.
pub uninterp spec fn ipv4_range_simplified(r: Ipv4Range) -> bool;

/// The networks that an IPv6 range stores, as (network, length).
pub uninterp spec fn ipv6_range_blocks(r: Ipv6Range) -> Set<(int, nat)>;

/// The IPv6 addresses that a range holds: those of its stored networks.
#[verifier::opaque]
pub open spec fn ipv6_range_addresses(r: Ipv6Range) -> Set<int> {
    Set::new(|a: int| exists|n: (int, nat)| #[trigger] ipv6_range_blocks(r).contains(n) && in_block(Family::V6, n.0, n.1, a))
}

/// Whether the range's networks were last merged by `simplify`.
pub uninterp spec fn ipv6_range_simplified(r: Ipv6Range) -> bool;

/// The networks `nets` are aligned blocks of family `f`, pairwise disjoint,
/// that together hold exactly `addrs`.
pub open spec fn exact_cover(f: Family, nets: Seq<(int, nat)>, addrs: Set<int>) -> bool {
    &&& forall|i: int| 0 <= i < nets.len() ==> valid_prefix(f, #[trigger] nets[i].0, nets[i].1)
        && nets[i].0 == network_of(f, nets[i].0, nets[i].1)
    &&& forall|i: int, j: int| 0 <= i < j < nets.len() ==> #[trigger] block(f, nets[i].0, nets[i].1).disjoint(
        #[trigger] block(f, nets[j].0, nets[j].1),
    )
    &&& forall|a: int| addrs.contains(a) <==> #[trigger] covered_by(f, nets, a)
}

/// No network of `nets` can be widened by one bit and stay inside `addrs`.
pub open spec fn maximal_blocks(f: Family, nets: Seq<(int, nat)>, addrs: Set<int>) -> bool {
    forall|i: int| 0 <= i < nets.len() ==> #[trigger] nets[i].1 == 0 || !block(f, nets[i].0, (nets[i].1 - 1) as nat).subset_of(addrs)
}

impl Ipv4Range {
    /// `IpRange::new`: no address.
    #[verifier::external_body]
    pub(crate) fn new() -> (r: Ipv4Range)
        ensures
            ipv4_range_blocks(r) == Set::<(int, nat)>::empty(),
            ipv4_range_addresses(r) == Set::<int>::empty(),
    {
        Ipv4Range { inner: IpRange::new() }
    }

    /// `IpRange::add` of `addr/len`: adds the block's addresses.
    #[verifier::external_body]
    pub(crate) fn add(&mut self, addr: u32, len: u8)
        requires
            len <= 32,
        ensures
            ipv4_range_addresses(*final(self)) == ipv4_range_addresses(*old(self)).union(
                block(Family::V4, addr as int, len as nat),
            ),
    {
        self.inner.add(Ipv4Net::new(addr.into(), len).unwrap());
    }

    /// `IpRange::simplify`: merges networks, keeping the addresses.
    #[verifier::external_body]
    pub(crate) fn simplify(&mut self)
        ensures
            ipv4_range_addresses(*final(self)) == ipv4_range_addresses(*old(self)),
            ipv4_range_simplified(*final(self)),
    {
        self.inner.simplify();
    }

    /// `IpRange::exclude`: the addresses of `self` that are not in `other`.
    #[verifier::external_body]
    pub(crate) fn exclude(&self, other: &Ipv4Range) -> (r: Ipv4Range)
        ensures
            ipv4_range_addresses(r) == ipv4_range_addresses(*self).difference(ipv4_range_addresses(*other)),
    {
        Ipv4Range { inner: self.inner.exclude(&other.inner) }
    }

    /// `IpRange::iter`: the networks the range stores, each once, as
    /// (network, length).
    #[verifier::external_body]
    pub(crate) fn nets(&self) -> (r: Vec<(u32, u8)>)
        ensures
            r@.map_values(|n: (u32, u8)| (n.0 as int, n.1 as nat)).to_set() == ipv4_range_blocks(*self),
            exact_cover(Family::V4, r@.map_values(|n: (u32, u8)| (n.0 as int, n.1 as nat)), ipv4_range_addresses(*self)),
            ipv4_range_simplified(*self) ==> maximal_blocks(
                Family::V4,
                r@.map_values(|n: (u32, u8)| (n.0 as int, n.1 as nat)),
                ipv4_range_addresses(*self),
            ),
    {
        let mut v = Vec::new();
        for n in self.inner.iter() {
            v.push((u32::from(n.network()), n.prefix_len()));
        }
        v
    }
}

impl Ipv6Range {
    /// `IpRange::new`: no address.
    #[verifier::external_body]
    pub(crate) fn new() -> (r: Ipv6Range)
        ensures
            ipv6_range_blocks(r) == Set::<(int, nat)>::empty(),
            ipv6_range_addresses(r) == Set::<int>::empty(),
    {
        Ipv6Range { inner: IpRange::new() }
    }

    /// `IpRange::add` of `addr/len`: adds the block's addresses.
    #[verifier::external_body]
    pub(crate) fn add(&mut self, addr: u128, len: u8)
        requires
            len <= 128,
        ensures
            ipv6_range_addresses(*final(self)) == ipv6_range_addresses(*old(self)).union(
                block(Family::V6, addr as int, len as nat),
            ),
    {
        self.inner.add(Ipv6Net::new(addr.into(), len).unwrap());
    }

    /// `IpRange::simplify`: merges networks, keeping the addresses.
    #[verifier::external_body]
    pub(crate) fn simplify(&mut self)
        ensures
            ipv6_range_addresses(*final(self)) == ipv6_range_addresses(*old(self)),
            ipv6_range_simplified(*final(self)),
    {
        self.inner.simplify();
    }

    /// `IpRange::exclude`: the addresses of `self` that are not in `other`.
    #[verifier::external_body]
    pub(crate) fn exclude(&self, other: &Ipv6Range) -> (r: Ipv6Range)
        ensures
            ipv6_range_addresses(r) == ipv6_range_addresses(*self).difference(ipv6_range_addresses(*other)),
    {
        Ipv6Range { inner: self.inner.exclude(&other.inner) }
    }

    /// `IpRange::iter`: the networks the range stores, each once, as
    /// (network, length).
    #[verifier::external_body]
    pub(crate) fn nets(&self) -> (r: Vec<(u128, u8)>)
        ensures
            r@.map_values(|n: (u128, u8)| (n.0 as int, n.1 as nat)).to_set() == ipv6_range_blocks(*self),
            exact_cover(Family::V6, r@.map_values(|n: (u128, u8)| (n.0 as int, n.1 as nat)), ipv6_range_addresses(*self)),
            ipv6_range_simplified(*self) ==> maximal_blocks(
                Family::V6,
                r@.map_values(|n: (u128, u8)| (n.0 as int, n.1 as nat)),
                ipv6_range_addresses(*self),
            ),
    {
        let mut v = Vec::new();
        for n in self.inner.iter() {
            v.push((u128::from(n.network()), n.prefix_len()));
        }
        v
    }
}

/// A set of addresses of one family.
pub enum AddrSet {
    V4(Ipv4Range),
    V6(Ipv6Range),
}

pub open spec fn as_int_nets128(v: Seq<(u128, u8)>) -> Seq<(int, nat)> {
    v.map_values(|n: (u128, u8)| (n.0 as int, n.1 as nat))
}

impl AddrSet {
    pub open spec fn family(&self) -> Family {
        match self {
            AddrSet::V4(_) => Family::V4,
            AddrSet::V6(_) => Family::V6,
        }
    }

    /// The addresses held.
    pub open spec fn addresses(&self) -> Set<int> {
        match self {
            AddrSet::V4(r) => ipv4_range_addresses(*r),
            AddrSet::V6(r) => ipv6_range_addresses(*r),
        }
    }

    /// The networks stored, as (network, length).
    pub open spec fn blocks(&self) -> Set<(int, nat)> {
        match self {
            AddrSet::V4(r) => ipv4_range_blocks(*r),
            AddrSet::V6(r) => ipv6_range_blocks(*r),
        }
    }

    /// Whether the networks were last merged by `simplify`.
    pub open spec fn simplified(&self) -> bool {
        match self {
            AddrSet::V4(r) => ipv4_range_simplified(*r),
            AddrSet::V6(r) => ipv6_range_simplified(*r),
        }
    }

    /// An empty set of family `f`.
    pub fn new(f: Family) -> (r: AddrSet)
        ensures
            r.family() == f,
            r.addresses() == Set::<int>::empty(),
            r.blocks() == Set::<(int, nat)>::empty(),
    {
        match f {
            Family::V4 => AddrSet::V4(Ipv4Range::new()),
            Family::V6 => AddrSet::V6(Ipv6Range::new()),
        }
    }

    /// Adds the addresses of the block `addr/len`.
    pub fn add(&mut self, addr: u128, len: u8)
        requires
            valid_prefix(old(self).family(), addr as int, len as nat),
        ensures
            final(self).family() == old(self).family(),
            final(self).addresses() == old(self).addresses().union(block(old(self).family(), addr as int, len as nat)),
    {
        proof {
            crate::net::lemma_space_values();
        }
        match self {
            AddrSet::V4(r) => r.add(addr as u32, len),
            AddrSet::V6(r) => r.add(addr, len),
        }
    }

    /// Adds the addresses of each network of `nets`.
    pub fn add_nets(&mut self, nets: &Vec<(u128, u8)>)
        requires
            forall|i: int| 0 <= i < nets@.len() ==> valid_prefix(old(self).family(), #[trigger] nets@[i].0 as int, nets@[i].1 as nat),
        ensures
            final(self).family() == old(self).family(),
            final(self).addresses() == old(self).addresses().union(
                Set::new(|a: int| covered_by(old(self).family(), as_int_nets128(nets@), a)),
            ),
    {
        let ghost f = self.family();
        let ghost a0 = self.addresses();
        let ghost sv = as_int_nets128(nets@);
        let mut i: usize = 0;
        while i < nets.len()
            invariant
                i <= nets.len(),
                f == self.family(),
                sv == as_int_nets128(nets@),
                forall|j: int| 0 <= j < nets@.len() ==> valid_prefix(f, #[trigger] nets@[j].0 as int, nets@[j].1 as nat),
                self.addresses() == a0.union(Set::new(|a: int| covered_upto(f, sv, i as int, a))),
            decreases nets.len() - i,
        {
            let (addr, len) = nets[i];
            proof {
                assert(sv[i as int] == (addr as int, len as nat));
                assert(valid_prefix(f, nets@[i as int].0 as int, nets@[i as int].1 as nat));
            }
            self.add(addr, len);
            proof {
                assert forall|a: int| covered_upto(f, sv, i + 1, a) <==> (covered_upto(f, sv, i as int, a)
                    || block(f, addr as int, len as nat).contains(a)) by {
                    if covered_upto(f, sv, i + 1, a) {
                        let j = choose|j: int| 0 <= j < i + 1 && #[trigger] crate::net::in_block(f, sv[j].0, sv[j].1, a);
                        if j < i {
                            assert(covered_upto(f, sv, i as int, a));
                        }
                    }
                    if block(f, addr as int, len as nat).contains(a) {
                        assert(crate::net::in_block(f, sv[i as int].0, sv[i as int].1, a));
                    }
                }
                assert(self.addresses() =~= a0.union(Set::new(|a: int| covered_upto(f, sv, i + 1, a))));
            }
            i = i + 1;
        }
        proof {
            assert forall|a: int| covered_upto(f, sv, sv.len() as int, a) <==> covered_by(f, sv, a) by {}
            assert(self.addresses() =~= a0.union(Set::new(|a: int| covered_by(f, sv, a))));
        }
    }

    /// Adds every address of `other`, network by network.
    pub fn add_all(&mut self, other: &AddrSet)
        requires
            old(self).family() == other.family(),
        ensures
            final(self).family() == old(self).family(),
            final(self).addresses() == old(self).addresses().union(other.addresses()),
    {
        let ghost a0 = self.addresses();
        let nets = other.nets();
        proof {
            let sv = as_int_nets128(nets@);
            assert forall|i: int| 0 <= i < nets@.len() implies valid_prefix(self.family(), #[trigger] nets@[i].0 as int, nets@[i].1 as nat) by {
                assert(sv[i] == (nets@[i].0 as int, nets@[i].1 as nat));
            }
        }
        self.add_nets(&nets);
        proof {
            assert(Set::new(|a: int| covered_by(other.family(), as_int_nets128(nets@), a)) =~= other.addresses());
            assert(self.addresses() =~= a0.union(other.addresses()));
        }
    }

    /// Merges networks, keeping the addresses.
    pub fn simplify(&mut self)
        ensures
            final(self).family() == old(self).family(),
            final(self).addresses() == old(self).addresses(),
            final(self).simplified(),
    {
        match self {
            AddrSet::V4(r) => r.simplify(),
            AddrSet::V6(r) => r.simplify(),
        }
    }

    /// The addresses of `self` that are not in `other`.
    pub fn exclude(&self, other: &AddrSet) -> (r: AddrSet)
        requires
            self.family() == other.family(),
        ensures
            r.family() == self.family(),
            r.addresses() == self.addresses().difference(other.addresses()),
    {
        match (self, other) {
            (AddrSet::V4(a), AddrSet::V4(b)) => AddrSet::V4(a.exclude(b)),
            (AddrSet::V6(a), AddrSet::V6(b)) => AddrSet::V6(a.exclude(b)),
            (AddrSet::V4(_), AddrSet::V6(_)) => AddrSet::V4(Ipv4Range::new()),
            (AddrSet::V6(_), AddrSet::V4(_)) => AddrSet::V6(Ipv6Range::new()),
        }
    }

    /// The networks stored, each once, as (network, length).
    pub fn nets(&self) -> (r: Vec<(u128, u8)>)
        ensures
            as_int_nets128(r@).to_set() == self.blocks(),
            exact_cover(self.family(), as_int_nets128(r@), self.addresses()),
            self.simplified() ==> maximal_blocks(self.family(), as_int_nets128(r@), self.addresses()),
    {
        match self {
            AddrSet::V4(a) => {
                let v = a.nets();
                let ghost sv = v@.map_values(|n: (u32, u8)| (n.0 as int, n.1 as nat));
                let mut r: Vec<(u128, u8)> = Vec::new();
                let mut i: usize = 0;
                while i < v.len()
                    invariant
                        i <= v.len(),
                        r@.len() == i,
                        sv == v@.map_values(|n: (u32, u8)| (n.0 as int, n.1 as nat)),
                        as_int_nets128(r@) == sv.take(i as int),
                    decreases v.len() - i,
                {
                    let (x, l) = v[i];
                    let ghost r0 = r@;
                    r.push((x as u128, l));
                    proof {
                        assert(sv[i as int] == (x as int, l as nat));
                        assert(r@ == r0.push((x as u128, l)));
                        assert forall|j: int| 0 <= j < i + 1 implies #[trigger] as_int_nets128(r@)[j] == sv.take(i + 1)[j] by {
                            if j < i {
                                assert(r@[j] == r0[j]);
                                assert(as_int_nets128(r0)[j] == sv.take(i as int)[j]);
                            }
                        }
                        assert(as_int_nets128(r@) =~= sv.take(i + 1));
                    }
                    i = i + 1;
                }
                proof {
                    assert(sv.take(i as int) =~= sv);
                }
                r
            },
            AddrSet::V6(a) => {
                let v = a.nets();
                proof {
                    assert(as_int_nets128(v@) =~= v@.map_values(|n: (u128, u8)| (n.0 as int, n.1 as nat)));
                }
                v
            },
        }
    }
}

} // verus!
