//! Address families and CIDR blocks, modelled over the integers.
use vstd::prelude::*;
use vstd::arithmetic::power2::{pow2, lemma_pow2_adds, lemma_pow2_pos, lemma_pow2_unfold, lemma2_to64};
use vstd::arithmetic::div_mod::lemma_fundamental_div_mod;

verus! {

/// IPv4 or IPv6.
#[derive(Clone, Copy, Debug, PartialEq, Eq, Structural)]
pub enum Family {
    V4,
    V6,
}

impl Family {
    /// Address width in bits.
    pub open spec fn bits(self) -> nat {
        match self {
            Family::V4 => 32,
            Family::V6 => 128,
        }
    }

    /// The longest prefix length of the family.
    pub fn max_len(self) -> (r: u8)
        ensures
            r == self.bits(),
    {
        match self {
            Family::V4 => 32,
            Family::V6 => 128,
        }
    }
}

/// Number of addresses of the family.
pub open spec fn space(f: Family) -> int {
    pow2(f.bits()) as int
}

/// Number of addresses of a block of prefix length `len`.
pub open spec fn span(f: Family, len: nat) -> int {
    pow2((f.bits() - len) as nat) as int
}

/// First address of the block of length `len` that holds `addr`.
pub open spec fn network_of(f: Family, addr: int, len: nat) -> int {
    addr - addr % span(f, len)
}

/// Whether `a` is in the block of length `len` that holds `addr`.
pub open spec fn in_block(f: Family, addr: int, len: nat, a: int) -> bool {
    network_of(f, addr, len) <= a < network_of(f, addr, len) + span(f, len)
}

/// The addresses of the block of length `len` that holds `addr`.
pub open spec fn block(f: Family, addr: int, len: nat) -> Set<int> {
    Set::new(|a: int| in_block(f, addr, len, a))
}

/// An address of the family and a prefix length it allows.
pub open spec fn valid_prefix(f: Family, addr: int, len: nat) -> bool {
    0 <= addr < space(f) && len <= f.bits()
}

/// An address of the family.
pub open spec fn in_space(f: Family, a: int) -> bool {
    0 <= a < space(f)
}

/// A CIDR prefix: an address of `family`, of which the first `len` bits
/// count.
#[derive(Clone, Copy, Debug, PartialEq, Eq, Structural)]
pub struct Cidr {
    pub family: Family,
    pub addr: u128,
    pub len: u8,
}

impl Cidr {
    pub open spec fn wf(self) -> bool {
        valid_prefix(self.family, self.addr as int, self.len as nat)
    }

    pub open spec fn addresses(self) -> Set<int> {
        block(self.family, self.addr as int, self.len as nat)
    }
}

pub proof fn lemma_space_values()
    ensures
        space(Family::V4) == 0x1_0000_0000,
        space(Family::V6) == u128::MAX + 1,
{
    lemma2_to64();
    lemma_pow2_adds(64, 64);
    lemma_pow2_adds(32, 32);
}

/// The block of a valid prefix lies in the address space, starts at a
/// multiple of its size, and holds `addr`.
pub proof fn lemma_block_bounds(f: Family, addr: int, len: nat)
    requires
        valid_prefix(f, addr, len),
    ensures
        span(f, len) > 0,
        space(f) == span(f, len) * pow2(len),
        0 <= network_of(f, addr, len) <= addr,
        addr < network_of(f, addr, len) + span(f, len) <= space(f),
        network_of(f, addr, len) % span(f, len) == 0,
        in_block(f, addr, len, addr),
{
    let s = span(f, len);
    let m = pow2(len) as int;
    lemma_pow2_pos((f.bits() - len) as nat);
    lemma_pow2_pos(len);
    lemma_pow2_adds((f.bits() - len) as nat, len);
    assert(((f.bits() - len) as nat) + len == f.bits());
    lemma_fundamental_div_mod(addr, s);
    let q = addr / s;
    let r = addr % s;
    assert(0 <= r < s);
    assert(network_of(f, addr, len) == s * q);
    assert(q >= 0) by (nonlinear_arith)
        requires
            addr == s * q + r,
            0 <= r < s,
            addr >= 0,
    ;
    assert(q < m) by (nonlinear_arith)
        requires
            addr == s * q + r,
            0 <= r,
            addr < s * m,
            s > 0,
    ;
    assert(s * q + s <= s * m) by (nonlinear_arith)
        requires
            q < m,
            s > 0,
    ;
    assert((s * q) % s == 0) by (nonlinear_arith)
        requires
            s > 0,
    ;
}

/// `pow2(e)` for `e < 128`.
fn pow2_u128(e: u8) -> (r: u128)
    requires
        e < 128,
    ensures
        r == pow2(e as nat),
{
    let mut p: u128 = 1;
    let mut i: u8 = 0;
    proof {
        lemma_space_values();
        vstd::arithmetic::power2::lemma_pow2(0);
        vstd::arithmetic::power::lemma_pow0(2);
    }
    while i < e
        invariant
            i <= e < 128,
            p == pow2(i as nat),
            pow2(128) == u128::MAX + 1,
        decreases e - i,
    {
        proof {
            lemma_pow2_unfold((i + 1) as nat);
            vstd::arithmetic::power2::lemma_pow2_strictly_increases((i + 1) as nat, 128);
        }
        p = p * 2;
        i = i + 1;
    }
    p
}

/// Size of a block of length `len`, less one.
pub fn span_minus_one(f: Family, len: u8) -> (r: u128)
    requires
        len <= f.bits(),
    ensures
        r == span(f, len as nat) - 1,
{
    let e = f.max_len() - len;
    if e == 128 {
        proof {
            lemma_space_values();
            assert((f.bits() - len) as nat == 128);
        }
        u128::MAX
    } else {
        proof {
            lemma_pow2_pos(e as nat);
        }
        pow2_u128(e) - 1
    }
}

/// First address of the block of length `len` that holds `addr`.
pub fn network(f: Family, addr: u128, len: u8) -> (r: u128)
    requires
        valid_prefix(f, addr as int, len as nat),
    ensures
        r == network_of(f, addr as int, len as nat),
{
    proof {
        lemma_block_bounds(f, addr as int, len as nat);
        lemma_space_values();
    }
    let m = span_minus_one(f, len);
    if m == u128::MAX {
        proof {
            assert(span(f, len as nat) == u128::MAX + 1);
            vstd::arithmetic::div_mod::lemma_small_mod(addr as nat, span(f, len as nat) as nat);
        }
        0
    } else {
        addr - addr % (m + 1)
    }
}

/// The address after the block of length `len` that holds `addr`, or
/// `None` when that block ends the address space (what ipnet's
/// `broadcast()` and `checked_add(1)` give).
pub fn next_after(f: Family, addr: u128, len: u8) -> (r: Option<u128>)
    requires
        valid_prefix(f, addr as int, len as nat),
    ensures
        r == if network_of(f, addr as int, len as nat) + span(f, len as nat) == space(f) {
            None::<u128>
        } else {
            Some((network_of(f, addr as int, len as nat) + span(f, len as nat)) as u128)
        },
{
    proof {
        lemma_block_bounds(f, addr as int, len as nat);
        lemma_space_values();
    }
    let net = network(f, addr, len);
    let m = span_minus_one(f, len);
    let last = net + m;
    let top: u128 = match f {
        Family::V4 => 0xffff_ffff,
        Family::V6 => u128::MAX,
    };
    if last == top {
        None
    } else {
        Some(last + 1)
    }
}

} // verus!
