//! ipnet's subnet enumeration and prefix text, and the ordering of networks.
use ipnet::{Ipv4Net, Ipv4Subnets, Ipv6Net, Ipv6Subnets};
use vstd::prelude::*;
use vstd::arithmetic::power2::pow2;
use crate::net::{Family, in_block, in_space, network_of, span, valid_prefix};

verus! {

/// `nets` are aligned blocks of family `f` that together hold exactly the
/// addresses `start..=end`.
pub open spec fn covers_interval(f: Family, nets: Seq<(int, nat)>, start: int, end: int) -> bool {
    &&& forall|i: int| 0 <= i < nets.len() ==> valid_prefix(f, #[trigger] nets[i].0, nets[i].1)
        && nets[i].0 == network_of(f, nets[i].0, nets[i].1)
    &&& forall|a: int| (start <= a <= end) <==> #[trigger] covered_by(f, nets, a)
}

/// Some network of `nets` holds `a`.
pub open spec fn covered_by(f: Family, nets: Seq<(int, nat)>, a: int) -> bool {
    exists|i: int| 0 <= i < nets.len() && #[trigger] in_block(f, nets[i].0, nets[i].1, a)
}

/// The block `(x, l)` is aligned and ends no later than `end`.
pub open spec fn fits(f: Family, x: int, l: nat, end: int) -> bool {
    valid_prefix(f, x, l) && x == network_of(f, x, l) && x + span(f, l) - 1 <= end
}

/// What ipnet's subnet iterator gives for `start..=end`: nothing when
/// `start > end`; otherwise blocks that start at `start`, each right after
/// the previous one, each the largest aligned block at its start that ends
/// no later than `end`, the last one ending at `end`.
pub open spec fn greedy_blocks(f: Family, nets: Seq<(int, nat)>, start: int, end: int) -> bool {
    &&& (nets.len() == 0 <==> start > end)
    &&& nets.len() > 0 ==> nets[0].0 == start && nets.last().0 + span(f, nets.last().1) == end + 1
    &&& forall|i: int| 0 <= i < nets.len() ==> fits(f, #[trigger] nets[i].0, nets[i].1, end) && (nets[i].1 == 0
        || !fits(f, nets[i].0, (nets[i].1 - 1) as nat, end))
    &&& forall|i: int| 0 <= i < nets.len() - 1 ==> #[trigger] nets[i + 1].0 == nets[i].0 + span(f, nets[i].1)
}

/// Blocks laid out one after another from `start` hold exactly the
/// addresses from `start` to the end of the last of them.
proof fn lemma_consecutive_cover(f: Family, nets: Seq<(int, nat)>, start: int, end: int, n: int)
    requires
        greedy_blocks(f, nets, start, end),
        0 <= n <= nets.len(),
    ensures
        n > 0 ==> start <= nets[n - 1].0,
        forall|a: int| covered_upto(f, nets, n, a) <==> start <= a < (if n == 0 {
            start
        } else {
            nets[n - 1].0 + span(f, nets[n - 1].1)
        }),
    decreases n,
{
    if n > 0 {
        lemma_consecutive_cover(f, nets, start, end, n - 1);
        let x = nets[n - 1].0;
        let l = nets[n - 1].1;
        assert(fits(f, nets[n - 1].0, l, end));
        crate::net::lemma_block_bounds(f, x, l);
        if n > 1 {
            assert(nets[(n - 2) + 1].0 == nets[n - 2].0 + span(f, nets[n - 2].1));
            assert(fits(f, nets[n - 2].0, nets[n - 2].1, end));
            crate::net::lemma_block_bounds(f, nets[n - 2].0, nets[n - 2].1);
        }
        assert forall|a: int| covered_upto(f, nets, n, a) <==> start <= a < x + span(f, l) by {
            if covered_upto(f, nets, n, a) {
                let j = choose|j: int| 0 <= j < n && #[trigger] in_block(f, nets[j].0, nets[j].1, a);
                if j < n - 1 {
                    assert(covered_upto(f, nets, n - 1, a));
                }
            }
            if start <= a < x + span(f, l) {
                if a < x {
                    assert(covered_upto(f, nets, n - 1, a));
                    let j = choose|j: int| 0 <= j < n - 1 && #[trigger] in_block(f, nets[j].0, nets[j].1, a);
                    assert(0 <= j < n);
                } else {
                    assert(in_block(f, nets[n - 1].0, nets[n - 1].1, a));
                }
            }
        }
    }
}

/// Some network of `nets` before position `n` holds `a`.
pub open spec fn covered_upto(f: Family, nets: Seq<(int, nat)>, n: int, a: int) -> bool {
    exists|j: int| 0 <= j < n && #[trigger] in_block(f, nets[j].0, nets[j].1, a)
}

/// The blocks of ipnet's subnet iterator hold exactly `start..=end`.
pub proof fn lemma_greedy_covers(f: Family, nets: Seq<(int, nat)>, start: int, end: int)
    requires
        greedy_blocks(f, nets, start, end),
    ensures
        covers_interval(f, nets, start, end),
{
    lemma_consecutive_cover(f, nets, start, end, nets.len() as int);
    assert forall|a: int| (start <= a <= end) <==> #[trigger] covered_by(f, nets, a) by {
        assert(covered_by(f, nets, a) <==> covered_upto(f, nets, nets.len() as int, a));
    }
    assert forall|i: int| 0 <= i < nets.len() implies valid_prefix(f, #[trigger] nets[i].0, nets[i].1)
        && nets[i].0 == network_of(f, nets[i].0, nets[i].1) by {
        assert(fits(f, nets[i].0, nets[i].1, end));
    }
}

/// ipnet's `Ipv4Subnets::new(start, end, 0)`, collected.
#[verifier::external_body]
fn ipv4_subnets(start: u32, end: u32) -> (r: Vec<(u32, u8)>)
    ensures
        greedy_blocks(Family::V4, r@.map_values(|n: (u32, u8)| (n.0 as int, n.1 as nat)), start as int, end as int),
{
    let mut v = Vec::new();
    for n in Ipv4Subnets::new(start.into(), end.into(), 0) {
        v.push((u32::from(n.network()), n.prefix_len()));
    }
    v
}

/// ipnet's `Ipv6Subnets::new(start, end, 0)`, collected.
#[verifier::external_body]
fn ipv6_subnets(start: u128, end: u128) -> (r: Vec<(u128, u8)>)
    ensures
        greedy_blocks(Family::V6, r@.map_values(|n: (u128, u8)| (n.0 as int, n.1 as nat)), start as int, end as int),
{
    let mut v = Vec::new();
    for n in Ipv6Subnets::new(start.into(), end.into(), 0) {
        v.push((u128::from(n.network()), n.prefix_len()));
    }
    v
}

/// The fewest CIDR blocks that make up the half-open interval
/// `[start, end)`, in address order; none when `start >= end`.
pub fn interval_to_cidrs(f: Family, start: u128, end: u128) -> (r: Vec<(u128, u8)>)
    requires
        in_space(f, start as int),
        in_space(f, end as int),
    ensures
        greedy_blocks(f, crate::ranges::as_int_nets128(r@), start as int, end - 1),
        covers_interval(f, crate::ranges::as_int_nets128(r@), start as int, end - 1),
{
    proof {
        crate::net::lemma_space_values();
    }
    if start >= end {
        let r: Vec<(u128, u8)> = Vec::new();
        proof {
            assert(crate::ranges::as_int_nets128(r@) =~= Seq::<(int, nat)>::empty());
            lemma_greedy_covers(f, crate::ranges::as_int_nets128(r@), start as int, end - 1);
        }
        return r;
    }
    match f {
        Family::V4 => {
            let v = ipv4_subnets(start as u32, (end - 1) as u32);
            let ghost sv = v@.map_values(|n: (u32, u8)| (n.0 as int, n.1 as nat));
            let mut r: Vec<(u128, u8)> = Vec::new();
            let mut i: usize = 0;
            while i < v.len()
                invariant
                    i <= v.len(),
                    r@.len() == i,
                    sv == v@.map_values(|n: (u32, u8)| (n.0 as int, n.1 as nat)),
                    crate::ranges::as_int_nets128(r@) == sv.take(i as int),
                decreases v.len() - i,
            {
                let (x, l) = v[i];
                let ghost r0 = r@;
                r.push((x as u128, l));
                proof {
                    assert(sv[i as int] == (x as int, l as nat));
                    assert forall|j: int| 0 <= j < i + 1 implies #[trigger] crate::ranges::as_int_nets128(r@)[j] == sv.take(i + 1)[j] by {
                        if j < i {
                            assert(r@[j] == r0[j]);
                            assert(crate::ranges::as_int_nets128(r0)[j] == sv.take(i as int)[j]);
                        }
                    }
                    assert(crate::ranges::as_int_nets128(r@) =~= sv.take(i + 1));
                }
                i = i + 1;
            }
            proof {
                assert(sv.take(i as int) =~= sv);
                lemma_greedy_covers(f, sv, start as int, end - 1);
            }
            r
        },
        Family::V6 => {
            let v = ipv6_subnets(start, end - 1);
            proof {
                assert(crate::ranges::as_int_nets128(v@) =~= v@.map_values(|n: (u128, u8)| (n.0 as int, n.1 as nat)));
                lemma_greedy_covers(f, crate::ranges::as_int_nets128(v@), start as int, end - 1);
            }
            v
        },
    }
}

/// Decimal digits of `n`, without leading zeros.
pub open spec fn decimal(n: nat) -> Seq<char>
    decreases n,
{
    if n < 10 {
        seq![(n + 48) as char]
    } else {
        decimal(n / 10).push(((n % 10) + 48) as char)
    }
}

/// An IPv4 prefix as `Display` writes it: the four bytes in decimal,
/// separated by dots, then `/` and the length.
pub open spec fn ipv4_cidr_text(addr: u32, len: u8) -> Seq<char> {
    decimal((addr as nat) / pow2(24)) + "."@ + decimal(((addr as nat) / pow2(16)) % 256) + "."@
        + decimal(((addr as nat) / pow2(8)) % 256) + "."@ + decimal((addr as nat) % 256) + "/"@
        + decimal(len as nat)
}

/// An IPv6 prefix as ipnet's `Display` writes it.
pub uninterp spec fn ipv6_cidr_text(addr: u128, len: u8) -> Seq<char>;

/// ipnet's `Display` for `Ipv4Net`: `addr/len`, the address dotted-decimal.
#[verifier::external_body]
pub(crate) fn ipv4_text(addr: u32, len: u8) -> (r: String)
    requires
        len <= 32,
    ensures
        r@ == ipv4_cidr_text(addr, len),
{
    Ipv4Net::new(addr.into(), len).unwrap().to_string()
}

/// ipnet's `Display` for `Ipv6Net`.
#[verifier::external_body]
pub(crate) fn ipv6_text(addr: u128, len: u8) -> (r: String)
    requires
        len <= 128,
    ensures
        r@ == ipv6_cidr_text(addr, len),
{
    Ipv6Net::new(addr.into(), len).unwrap().to_string()
}

/// Lexicographic order of (address, length) pairs.
pub open spec fn net_le(a: (u128, u8), b: (u128, u8)) -> bool {
    a.0 < b.0 || (a.0 == b.0 && a.1 <= b.1)
}

/// `slice::sort_unstable` on (address, length) pairs, whose order is the
/// lexicographic one of tuples.
#[verifier::external_body]
pub(crate) fn sort_nets(v: &mut Vec<(u128, u8)>)
    ensures
        final(v)@.to_multiset() == old(v)@.to_multiset(),
        forall|i: int, j: int| 0 <= i < j < final(v)@.len() ==> net_le(#[trigger] final(v)@[i], #[trigger] final(v)@[j]),
{
    v.sort_unstable();
}

} // verus!
