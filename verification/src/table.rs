//! What the classifier gathers for one address family: prefixes and their
//! origins, every announced prefix, the common AS-path suffix of each
//! prefix and origin, and the split points that delimit intervals.
use std::collections::{BTreeSet, HashMap, HashSet};
use vstd::prelude::*;
use vstd::std_specs::hash::group_hash_axioms;
use crate::net::{Family, block, in_space, network, network_of, next_after, space, span, valid_prefix};
use crate::path::{AsPath, as_path_asns, attributed, common_suffix, common_suffix_of, lemma_common_suffix_ends_both, lemma_common_suffix_longest};
use crate::points::{insert_point, insert_points, ordered_points, strictly_increasing_points};
use crate::subnets::interval_to_cidrs;
use crate::prefixes::{PrefixTable, canonical_keys, lpm, prefix_key, with_origins};
use crate::ranges::AddrSet;

verus! {

broadcast use group_hash_axioms;

/// The key under which the suffix of a prefix of length `len` and of an
/// origin is kept, beside the prefix's network.
pub open spec fn suffix_code(len: nat, origin: u32) -> int {
    len * 0x1_0000_0000 + origin
}

/// The prefix length of a suffix key.
pub open spec fn code_len(code: u64) -> nat {
    (code / 0x1_0000_0000) as nat
}

/// The suffix a key holds after a path `p` is observed for it: the common
/// suffix with what it held, or `p` for a new key.
pub open spec fn combined(s: Map<(u128, u64), Seq<u32>>, k: (u128, u64), p: Seq<u32>) -> Seq<u32> {
    if s.contains_key(k) {
        common_suffix(s[k], p)
    } else {
        p
    }
}

/// The suffix keys of the prefix with network `net` and length `len` for
/// each of `origins`.
pub open spec fn path_keys(net: u128, len: nat, origins: Set<u32>) -> Set<(u128, u64)> {
    Set::new(|k: (u128, u64)| k.0 == net && exists|o: u32| origins.contains(o) && k.1 == suffix_code(len, o))
}

/// `s` after the path `p` is observed under every key of `keys`.
pub open spec fn with_path(s: Map<(u128, u64), Seq<u32>>, keys: Set<(u128, u64)>, p: Seq<u32>) -> Map<(u128, u64), Seq<u32>> {
    Map::new(
        |k: (u128, u64)| s.contains_key(k) || keys.contains(k),
        |k: (u128, u64)| if keys.contains(k) { combined(s, k, p) } else { s[k] },
    )
}

/// The points a prefix adds: its network, and the address after it unless
/// it ends the address space.
pub open spec fn prefix_points(f: Family, addr: int, len: nat) -> Set<int> {
    let net = network_of(f, addr, len);
    let end = net + span(f, len);
    if end == space(f) {
        set![net]
    } else {
        set![net, end]
    }
}

/// The invariant of a table, over its parts: prefixes are keyed by their
/// networks, each prefix's first address and the address after it (unless
/// it ends the address space) are split points, split points are addresses,
/// and every kept suffix belongs to a prefix of the table.
pub open spec fn table_wf(
    f: Family,
    origins: Map<(int, nat), Set<u32>>,
    points: Set<int>,
    suffixes: Map<(u128, u64), Seq<u32>>,
) -> bool {
    &&& canonical_keys(f, origins)
    &&& forall|k: (int, nat)| #[trigger] origins.contains_key(k) ==> points.contains(k.0) && (k.0 + span(f, k.1)
        == space(f) || points.contains(k.0 + span(f, k.1)))
    &&& forall|p: int| #[trigger] points.contains(p) ==> in_space(f, p)
    &&& forall|k: (u128, u64)| #[trigger] suffixes.contains_key(k) ==> code_len(k.1) <= f.bits()
        && origins.contains_key((k.0 as int, code_len(k.1)))
}

/// The table of one address family.
pub struct FamilyTable {
    family: Family,
    prefixes: PrefixTable,
    announced: AddrSet,
    suffix_map: HashMap<u128, HashMap<u64, AsPath>>,
    split_points: BTreeSet<u128>,
}

impl FamilyTable {
    pub closed spec fn family(&self) -> Family {
        self.family
    }

    /// Each prefix, as (network, length), with its origin ASNs.
    pub closed spec fn origins(&self) -> Map<(int, nat), Set<u32>> {
        self.prefixes.origins()
    }

    /// Every address of an announced prefix longer than /0.
    pub closed spec fn announced(&self) -> Set<int> {
        self.announced.addresses()
    }

    /// The common suffix of the paths observed for each prefix and origin,
    /// keyed by the prefix's network and by `suffix_code(len, origin)`.
    pub closed spec fn suffixes(&self) -> Map<(u128, u64), Seq<u32>> {
        Map::new(
            |k: (u128, u64)| self.suffix_map@.contains_key(k.0) && self.suffix_map@[k.0]@.contains_key(k.1),
            |k: (u128, u64)| as_path_asns(self.suffix_map@[k.0]@[k.1]),
        )
    }

    /// The split points.
    pub closed spec fn points(&self) -> Set<int> {
        Set::new(|p: int| 0 <= p <= u128::MAX && self.split_points@.contains(p as u128))
    }

    pub closed spec fn parts_agree(&self) -> bool {
        self.prefixes.family() == self.family && self.announced.family() == self.family
    }

    pub open spec fn wf(&self) -> bool {
        &&& self.parts_agree()
        &&& table_wf(self.family(), self.origins(), self.points(), self.suffixes())
    }

    /// An empty table of family `f`.
    pub fn new(f: Family) -> (r: FamilyTable)
        ensures
            r.wf(),
            r.family() == f,
            r.origins().is_empty(),
            r.announced().is_empty(),
            r.suffixes().is_empty(),
            r.points().is_empty(),
    {
        let r = FamilyTable {
            family: f,
            prefixes: PrefixTable::new(f),
            announced: AddrSet::new(f),
            suffix_map: HashMap::new(),
            split_points: BTreeSet::new(),
        };
        proof {
            assert(r.suffixes() =~= Map::<(u128, u64), Seq<u32>>::empty());
            assert(r.points() =~= Set::<int>::empty());
        }
        r
    }

    /// Records an announcement of `addr/len`; the default route (/0)
    /// announces nothing.
    pub fn announce(&mut self, addr: u128, len: u8)
        requires
            old(self).wf(),
            valid_prefix(old(self).family(), addr as int, len as nat),
        ensures
            final(self).wf(),
            final(self).family() == old(self).family(),
            final(self).origins() == old(self).origins(),
            final(self).suffixes() == old(self).suffixes(),
            final(self).points() == old(self).points(),
            final(self).announced() == if len > 0 {
                old(self).announced().union(block(old(self).family(), addr as int, len as nat))
            } else {
                old(self).announced()
            },
    {
        if len > 0 {
            self.announced.add(addr, len);
        }
    }

    /// Records that `addr/len` is announced by each of `origins`, and, when
    /// a path is given, observes it for the prefix and each origin.
    pub fn classify(&mut self, addr: u128, len: u8, origins: &HashSet<u32>, path: Option<&AsPath>)
        requires
            old(self).wf(),
            valid_prefix(old(self).family(), addr as int, len as nat),
        ensures
            final(self).wf(),
            final(self).family() == old(self).family(),
            final(self).announced() == old(self).announced(),
            final(self).origins() == with_origins(
                old(self).origins(),
                prefix_key(old(self).family(), addr as int, len as nat),
                origins@,
            ),
            final(self).points() == old(self).points().union(prefix_points(old(self).family(), addr as int, len as nat)),
            final(self).suffixes() == match path {
                None => old(self).suffixes(),
                Some(p) => with_path(
                    old(self).suffixes(),
                    path_keys(network_of(old(self).family(), addr as int, len as nat) as u128, len as nat, origins@),
                    as_path_asns(*p),
                ),
            },
    {
        let ghost f = self.family;
        let ghost s0 = self.suffixes();
        let ghost p0 = self.points();
        let ghost o0 = self.origins();
        proof {
            crate::net::lemma_block_bounds(f, addr as int, len as nat);
            crate::net::lemma_space_values();
        }
        let list = set_items(origins);
        self.prefixes.extend(addr, len, list.as_slice());
        let net = network(self.family, addr, len);
        proof {
            crate::net::lemma_block_bounds(f, net as int, len as nat);
            assert(network_of(f, net as int, len as nat) == net as int);
        }
        insert_point(&mut self.split_points, net);
        match next_after(self.family, addr, len) {
            Some(end) => {
                insert_point(&mut self.split_points, end);
            },
            None => {},
        }
        proof {
            assert(self.points() =~= p0.union(prefix_points(f, addr as int, len as nat)));
            assert(list@.to_set() =~= origins@);
        }
        match path {
            None => {},
            Some(p) => {
                let ghost ap = as_path_asns(*p);
                let mut i: usize = 0;
                proof {
                    assert(path_keys(net, len as nat, list@.take(0).to_set()) =~= Set::<(u128, u64)>::empty());
                    assert(with_path(s0, Set::<(u128, u64)>::empty(), ap) =~= s0);
                }
                while i < list.len()
                    invariant
                        i <= list.len(),
                        ap == as_path_asns(*p),
                        self.family == f,
                        self.prefixes.family() == f,
                        self.announced.family() == f,
                        self.origins() == with_origins(o0, prefix_key(f, addr as int, len as nat), origins@),
                        self.points() == p0.union(prefix_points(f, addr as int, len as nat)),
                        self.announced() == old(self).announced(),
                        self.suffixes() == with_path(s0, path_keys(net, len as nat, list@.take(i as int).to_set()), ap),
                    decreases list.len() - i,
                {
                    let o = list[i];
                    let code: u64 = (len as u64) * 0x1_0000_0000 + (o as u64);
                    let ghost keys0 = path_keys(net, len as nat, list@.take(i as int).to_set());
                    let ghost cur = self.suffixes();
                    self.put_suffix(net, code, p);
                    proof {
                        let t0 = list@.take(i as int);
                        let t1 = list@.take(i + 1);
                        assert(t1 =~= t0.push(o));
                        let keys1 = path_keys(net, len as nat, t1.to_set());
                        assert(code as int == suffix_code(len as nat, o));
                        assert forall|k: (u128, u64)| keys1.contains(k) <==> keys0.insert((net, code)).contains(k) by {
                            if keys1.contains(k) {
                                let w = choose|w: u32| t1.to_set().contains(w) && k.1 == suffix_code(len as nat, w);
                                if w != o {
                                    let j = choose|j: int| 0 <= j < t1.len() && t1[j] == w;
                                    assert(t0[j] == w);
                                    assert(t0.to_set().contains(w));
                                }
                            }
                            if keys0.contains(k) {
                                let w = choose|w: u32| t0.to_set().contains(w) && k.1 == suffix_code(len as nat, w);
                                let j = choose|j: int| 0 <= j < t0.len() && t0[j] == w;
                                assert(t1[j] == w);
                                assert(t1.to_set().contains(w));
                            }
                            if k == (net, code) {
                                assert(t1[i as int] == o);
                                assert(t1.to_set().contains(o));
                            }
                        }
                        assert(keys1 =~= keys0.insert((net, code)));
                        lemma_combined_idempotent(s0, (net, code), ap);
                        assert(self.suffixes() =~= with_path(s0, keys1, ap));
                    }
                    i = i + 1;
                }
                proof {
                    assert(list@.take(list@.len() as int) =~= list@);
                }
            },
        }
        proof {
            let o1 = self.origins();
            let key = prefix_key(f, addr as int, len as nat);
            assert(key == (net as int, len as nat));
            assert forall|k: (u128, u64)| #[trigger] self.suffixes().contains_key(k) implies code_len(k.1) <= f.bits()
                && o1.contains_key((k.0 as int, code_len(k.1))) by {
                if !s0.contains_key(k) {
                    let w = choose|w: u32| origins@.contains(w) && k.1 == suffix_code(len as nat, w);
                    vstd::arithmetic::div_mod::lemma_fundamental_div_mod_converse(
                        k.1 as int,
                        0x1_0000_0000,
                        len as int,
                        w as int,
                    );
                    assert(code_len(k.1) == len);
                }
            }
        }
    }

    /// Adds `other` to this table: its announcements, its prefixes with the
    /// origins that `allowed` keeps (all of them when it is `None`), its
    /// suffixes, each combined with this table's suffix of the same key by
    /// taking their common suffix, and its split points.
    pub fn merge(&mut self, other: FamilyTable, allowed: Option<&HashSet<u32>>)
        requires
            old(self).wf(),
            other.wf(),
            other.family() == old(self).family(),
        ensures
            final(self).wf(),
            final(self).family() == old(self).family(),
            final(self).announced() == old(self).announced().union(other.announced()),
            final(self).origins() == merged_origins(old(self).origins(), other.origins(), allowed_view(allowed)),
            final(self).suffixes() == merged_suffixes(old(self).suffixes(), other.suffixes()),
            final(self).points() == old(self).points().union(other.points()),
    {
        let ghost f = self.family;
        let ghost o0 = self.origins();
        let ghost s0 = self.suffixes();
        let ghost p0 = self.points();
        let ghost al = allowed_view(allowed);
        let ghost ob = other.origins();
        let ghost sb = other.suffixes();
        self.announced.add_all(&other.announced);
        insert_points(&mut self.split_points, &other.split_points);
        proof {
            assert(self.points() =~= p0.union(other.points()));
        }
        let entries = other.prefixes.entries();
        let ghost ev = crate::prefixes::entry_view128(entries@);
        let mut i: usize = 0;
        proof {
            assert forall|k: (int, nat)| o0.contains_key(k) implies #[trigger] origins_upto(o0, ob, al, ev, 0)[k] == o0[k] by {
                assert(origins_upto(o0, ob, al, ev, 0)[k] =~= o0[k]);
            }
            assert(origins_upto(o0, ob, al, ev, 0) =~= o0);
        }
        while i < entries.len()
            invariant
                i <= entries.len(),
                ev == crate::prefixes::entry_view128(entries@),
                crate::prefixes::lists_entries(ob, ev),
                canonical_keys(f, ob),
                al == allowed_view(allowed),
                self.family == f,
                self.prefixes.family() == f,
                self.announced.family() == f,
                self.announced() == old(self).announced().union(other.announced()),
                self.points() == p0.union(other.points()),
                self.suffixes() == s0,
                self.origins() == origins_upto(o0, ob, al, ev, i as int),
            decreases entries.len() - i,
        {
            let addr = entries[i].0;
            let len = entries[i].1;
            let kept_origins = keep_allowed(&entries[i].2, allowed);
            let ghost cur = self.origins();
            proof {
                assert(ev[i as int] == (addr as int, len as nat, entries@[i as int].2@));
                assert(ev[i as int].0 == addr as int && ev[i as int].1 == len as nat);
                assert(ob.contains_key((addr as int, len as nat)));
                assert(ob[(addr as int, len as nat)] == entries@[i as int].2@.to_set());
                crate::net::lemma_block_bounds(f, addr as int, len as nat);
            }
            self.prefixes.extend(addr, len, kept_origins.as_slice());
            proof {
                let k = (addr as int, len as nat);
                assert(prefix_key(f, addr as int, len as nat) == k);
                assert forall|x: (int, nat)| #[trigger] done_upto(ev, i + 1, x) <==> done_upto(ev, i as int, x) || x == k by {
                    if done_upto(ev, i + 1, x) {
                        let j = choose|j: int| 0 <= j < i + 1 && ev[j].0 == x.0 && ev[j].1 == x.1;
                        if j < i {
                            assert(done_upto(ev, i as int, x));
                        }
                    }
                    if done_upto(ev, i as int, x) {
                        let j = choose|j: int| 0 <= j < i && ev[j].0 == x.0 && ev[j].1 == x.1;
                        assert(0 <= j < i + 1);
                    }
                    if x == k {
                        assert(ev[i as int].0 == x.0 && ev[i as int].1 == x.1);
                    }
                }
                let nxt = origins_upto(o0, ob, al, ev, i + 1);
                assert forall|x: (int, nat)| #[trigger] self.origins().contains_key(x) implies self.origins()[x] == nxt[x] by {
                    assert(self.origins()[x] =~= nxt[x]);
                }
                assert(self.origins() =~= nxt);
            }
            i = i + 1;
        }
        proof {
            assert forall|x: (int, nat)| #[trigger] done_upto(ev, ev.len() as int, x) <==> ob.contains_key(x) by {
                if ob.contains_key(x) {
                    let j = choose|j: int| 0 <= j < ev.len() && ev[j].0 == x.0 && ev[j].1 == x.1;
                }
            }
            let mo = merged_origins(o0, ob, al);
            let fin = origins_upto(o0, ob, al, ev, ev.len() as int);
            assert forall|x: (int, nat)| #[trigger] fin.contains_key(x) implies fin[x] == mo[x] by {
                assert(fin[x] =~= mo[x]);
            }
            assert(self.origins() =~= merged_origins(o0, ob, al));
        }
        let list = other.suffix_list();
        let mut j: usize = 0;
        proof {
            assert(suffixes_upto(s0, sb, list@, 0) =~= s0);
        }
        while j < list.len()
            invariant
                j <= list.len(),
                lists_suffixes(sb, list@),
                self.family == f,
                self.prefixes.family() == f,
                self.announced.family() == f,
                self.origins() == merged_origins(o0, ob, al),
                self.announced() == old(self).announced().union(other.announced()),
                self.points() == p0.union(other.points()),
                self.suffixes() == suffixes_upto(s0, sb, list@, j as int),
            decreases list.len() - j,
        {
            let ghost cur = self.suffixes();
            let n = list[j].0;
            let c = list[j].1;
            self.put_suffix(n, c, &list[j].2);
            proof {
                let k = (n, c);
                assert(sb.contains_key(k) && sb[k] == as_path_asns(list@[j as int].2));
                assert(!suffix_done(list@, j as int, k)) by {
                    if suffix_done(list@, j as int, k) {
                        let m = choose|m: int| 0 <= m < j && list@[m].0 == k.0 && list@[m].1 == k.1;
                        assert((list@[m].0, list@[m].1) != (list@[j as int].0, list@[j as int].1));
                    }
                }
                assert forall|x: (u128, u64)| #[trigger] suffix_done(list@, j + 1, x) <==> suffix_done(list@, j as int, x) || x == k by {
                    if suffix_done(list@, j + 1, x) {
                        let m = choose|m: int| 0 <= m < j + 1 && list@[m].0 == x.0 && list@[m].1 == x.1;
                        if m < j {
                            assert(suffix_done(list@, j as int, x));
                        }
                    }
                    if suffix_done(list@, j as int, x) {
                        let m = choose|m: int| 0 <= m < j && list@[m].0 == x.0 && list@[m].1 == x.1;
                        assert(0 <= m < j + 1);
                    }
                    if x == k {
                        assert(list@[j as int].0 == x.0 && list@[j as int].1 == x.1);
                    }
                }
                assert(self.suffixes() =~= suffixes_upto(s0, sb, list@, j + 1));
            }
            j = j + 1;
        }
        proof {
            assert forall|x: (u128, u64)| #[trigger] suffix_done(list@, list@.len() as int, x) <==> sb.contains_key(x) by {
                if sb.contains_key(x) {
                    assert(listed(list@, x));
                }
                if suffix_done(list@, list@.len() as int, x) {
                    let m = choose|m: int| 0 <= m < list@.len() && list@[m].0 == x.0 && list@[m].1 == x.1;
                    assert(sb.contains_key((list@[m].0, list@[m].1)));
                }
            }
            assert(self.suffixes() =~= merged_suffixes(s0, sb));
            let o1 = self.origins();
            assert forall|k: (int, nat)| #[trigger] o1.contains_key(k) implies self.points().contains(k.0) && (k.0 + span(f, k.1)
                == space(f) || self.points().contains(k.0 + span(f, k.1))) by {
                if o0.contains_key(k) {
                } else {
                    assert(ob.contains_key(k));
                }
            }
        }
    }

    /// Gives each prefix, for every origin observed with a path, the ASNs of
    /// the common suffix from the origin up to and including the first ASN of
    /// `operators`; the suffixes are used up.
    pub fn add_shared_upstreams(&mut self, operators: &HashSet<u32>)
        requires
            old(self).wf(),
        ensures
            final(self).wf(),
            final(self).family() == old(self).family(),
            final(self).announced() == old(self).announced(),
            final(self).points() == old(self).points(),
            final(self).origins() == with_upstreams(old(self).origins(), old(self).suffixes(), operators@),
            final(self).suffixes().is_empty(),
    {
        let ghost f = self.family;
        let ghost o0 = self.origins();
        let ghost s0 = self.suffixes();
        let ghost ops = operators@;
        let list = self.suffix_list();
        let mut i: usize = 0;
        proof {
            assert forall|k: (int, nat)| o0.contains_key(k) implies #[trigger] upstreams_upto(o0, list@, 0, ops)[k] == o0[k] by {
                assert(upstreams_upto(o0, list@, 0, ops)[k] =~= o0[k]);
            }
            assert(upstreams_upto(o0, list@, 0, ops) =~= o0);
        }
        while i < list.len()
            invariant
                i <= list.len(),
                ops == operators@,
                lists_suffixes(s0, list@),
                table_wf(f, o0, old(self).points(), s0),
                self.family == f,
                self.prefixes.family() == f,
                self.announced.family() == f,
                self.announced() == old(self).announced(),
                self.points() == old(self).points(),
                self.origins() == upstreams_upto(o0, list@, i as int, ops),
            decreases list.len() - i,
        {
            let n = list[i].0;
            let c = list[i].1;
            let ups = crate::path::shared_upstreams(&list[i].2, operators);
            let ghost key = (n as int, code_len(c));
            proof {
                assert(s0.contains_key((n, c)));
                assert(o0.contains_key(key));
                vstd::arithmetic::div_mod::lemma_div_is_ordered(c as int, 0xffff_ffff_ffff_ffff, 0x1_0000_0000);
            }
            let len = (c / 0x1_0000_0000) as u8;
            proof {
                assert(len as nat == code_len(c));
                assert(prefix_key(f, n as int, len as nat) == key);
            }
            self.prefixes.extend(n, len, ups.as_slice());
            proof {
                let nxt = upstreams_upto(o0, list@, i + 1, ops);
                let cur = upstreams_upto(o0, list@, i as int, ops);
                assert forall|k: (int, nat), x: u32| #[trigger] upstream_done(list@, i + 1, k, ops, x) <==> upstream_done(list@, i as int, k, ops, x)
                    || (k == key && attributed(as_path_asns(list@[i as int].2), ops).contains(x)) by {
                    if upstream_done(list@, i + 1, k, ops, x) {
                        let j = choose|j: int| 0 <= j < i + 1 && list@[j].0 as int == k.0 && code_len(list@[j].1) == k.1
                            && attributed(as_path_asns(list@[j].2), ops).contains(x);
                        if j < i {
                            assert(upstream_done(list@, i as int, k, ops, x));
                        }
                    }
                    if upstream_done(list@, i as int, k, ops, x) {
                        let j = choose|j: int| 0 <= j < i && list@[j].0 as int == k.0 && code_len(list@[j].1) == k.1
                            && attributed(as_path_asns(list@[j].2), ops).contains(x);
                        assert(0 <= j < i + 1);
                    }
                }
                assert forall|k: (int, nat)| #[trigger] self.origins().contains_key(k) implies self.origins()[k] == nxt[k] by {
                    assert(self.origins()[k] =~= nxt[k]);
                }
                assert(self.origins() =~= nxt);
            }
            i = i + 1;
        }
        self.suffix_map = HashMap::new();
        proof {
            let fin = upstreams_upto(o0, list@, list@.len() as int, ops);
            let w = with_upstreams(o0, s0, ops);
            assert forall|k: (int, nat), x: u32| o0.contains_key(k) implies #[trigger] upstream_done(list@, list@.len() as int, k, ops, x) == shares(
                s0,
                k,
                ops,
                x,
            ) by {
                if upstream_done(list@, list@.len() as int, k, ops, x) {
                    let j = choose|j: int| 0 <= j < list@.len() && list@[j].0 as int == k.0 && code_len(list@[j].1) == k.1
                        && attributed(as_path_asns(list@[j].2), ops).contains(x);
                    assert(s0.contains_key((list@[j].0, list@[j].1)));
                    assert(list@[j].0 == k.0 as u128);
                }
                if shares(s0, k, ops, x) {
                    let c = choose|c: u64| s0.contains_key((k.0 as u128, c)) && code_len(c) == k.1 && attributed(s0[(k.0 as u128, c)], ops).contains(x);
                    assert(listed(list@, (k.0 as u128, c)));
                    let j = choose|j: int| 0 <= j < list@.len() && list@[j].0 == k.0 as u128 && list@[j].1 == c;
                    assert(crate::net::in_space(f, k.0));
                    crate::net::lemma_space_values();
                    assert(list@[j].0 as int == k.0);
                }
            }
            assert forall|k: (int, nat)| #[trigger] fin.contains_key(k) implies fin[k] == w[k] by {
                assert(fin[k] =~= w[k]);
            }
            assert(self.origins() =~= w);
            assert(self.suffixes() =~= Map::<(u128, u64), Seq<u32>>::empty());
        }
    }

    /// The addresses given to each ASN, and the announced addresses merged.
    /// Consecutive split points delimit intervals; an interval goes to every
    /// origin of the longest prefix that holds its first address.
    pub fn into_ranges(self) -> (r: (HashMap<u32, AddrSet>, AddrSet))
        requires
            self.wf(),
        ensures
            r.1.family() == self.family(),
            r.1.addresses() == self.announced(),
            r.1.simplified(),
            forall|asn: u32| #[trigger] r.0@.contains_key(asn) <==> exists|a: int| assigned(self.family(), self.origins(), self.points(), asn, a),
            forall|asn: u32| #[trigger] r.0@.contains_key(asn) ==> r.0@[asn].family() == self.family()
                && r.0@[asn].addresses() == Set::new(|a: int| assigned(self.family(), self.origins(), self.points(), asn, a)),
    {
        let ghost f = self.family;
        let ghost m = self.origins();
        let ghost points = self.points();
        let ghost ann = self.announced();
        let FamilyTable { family, prefixes, announced, suffix_map: _, split_points } = self;
        let pts = ordered_points(&split_points);
        proof {
            crate::net::lemma_space_values();
            assert forall|i: int| 0 <= i < pts@.len() implies points.contains(#[trigger] pts@[i] as int) by {
                assert(pts@.to_set().contains(pts@[i]));
            }
            assert forall|p: int| #[trigger] points.contains(p) implies exists|i: int| 0 <= i < pts@.len() && pts@[i] as int == p by {
                assert(pts@.to_set().contains(p as u128));
            }
        }
        let mut ranges: HashMap<u32, AddrSet> = HashMap::new();
        let mut i: usize = 0;
        let count = pts.len();
        while i + 1 < count
            invariant
                count == pts@.len(),
                i < pts@.len() || (i == 0 && pts@.len() == 0),
                prefixes.family() == f,
                prefixes.origins() == m,
                family == f,
                table_wf(f, m, points, Map::empty()),
                strictly_increasing_points(pts@),
                forall|j: int| 0 <= j < pts@.len() ==> points.contains(#[trigger] pts@[j] as int),
                forall|asn: u32| #[trigger] ranges@.contains_key(asn) <==> exists|j: int| 0 <= j < i && #[trigger] window_gives(f, m, pts@, j, asn),
                forall|asn: u32| #[trigger] ranges@.contains_key(asn) ==> ranges@[asn].family() == f && ranges@[asn].addresses()
                    == Set::new(|a: int| given_upto(f, m, pts@, i as int, asn, a)),
            decreases count - i,
        {
            let start = pts[i];
            let end = pts[i + 1];
            proof {
                assert(points.contains(pts@[i as int] as int));
                assert(points.contains(pts@[i + 1] as int));
            }
            let found = prefixes.longest_match(start);
            proof {
                crate::prefixes::lemma_lpm_answer(f, m, start as int, origin_set(found));
            }
            match found {
                None => {
                    proof {
                        assert forall|asn: u32| !#[trigger] window_gives(f, m, pts@, i as int, asn) by {}
                        lemma_given_step(f, m, pts@, i as int);
                        assert forall|asn: u32| #[trigger] ranges@.contains_key(asn) <==> exists|j: int| 0 <= j < i + 1 && #[trigger] window_gives(f, m, pts@, j, asn) by {
                            if exists|j: int| 0 <= j < i + 1 && #[trigger] window_gives(f, m, pts@, j, asn) {
                                let j = choose|j: int| 0 <= j < i + 1 && #[trigger] window_gives(f, m, pts@, j, asn);
                                assert(j < i);
                            }
                        }
                        assert forall|asn: u32| #[trigger] ranges@.contains_key(asn) implies ranges@[asn].addresses()
                            == Set::new(|a: int| given_upto(f, m, pts@, i + 1, asn, a)) by {
                            assert(Set::new(|a: int| given_upto(f, m, pts@, i as int, asn, a)) =~= Set::new(|a: int| given_upto(f, m, pts@, i + 1, asn, a)));
                        }
                    }
                },
                Some(origins) => {
                    let cidrs = interval_to_cidrs(family, start, end);
                    let ghost window = Set::new(|a: int| start as int <= a < end as int);
                    proof {
                        let sv = crate::ranges::as_int_nets128(cidrs@);
                        assert forall|k: int| 0 <= k < cidrs@.len() implies valid_prefix(f, #[trigger] cidrs@[k].0 as int, cidrs@[k].1 as nat) by {
                            assert(sv[k] == (cidrs@[k].0 as int, cidrs@[k].1 as nat));
                        }
                        assert(Set::new(|a: int| crate::subnets::covered_by(f, sv, a)) =~= window);
                        lemma_given_step(f, m, pts@, i as int);
                    }
                    let ghost r0 = ranges@;
                    let mut j: usize = 0;
                    while j < origins.len()
                        invariant
                            j <= origins@.len(),
                            window == Set::new(|a: int| start as int <= a < end as int),
                            Set::new(|a: int| crate::subnets::covered_by(f, crate::ranges::as_int_nets128(cidrs@), a)) == window,
                            forall|k: int| 0 <= k < cidrs@.len() ==> valid_prefix(f, #[trigger] cidrs@[k].0 as int, cidrs@[k].1 as nat),
                            family == f,
                            forall|asn: u32| #[trigger] ranges@.contains_key(asn) <==> r0.contains_key(asn) || origins@.take(j as int).contains(asn),
                            forall|asn: u32| #[trigger] ranges@.contains_key(asn) ==> ranges@[asn].family() == f && ranges@[asn].addresses()
                                == (if r0.contains_key(asn) { r0[asn].addresses() } else { Set::<int>::empty() }).union(
                                    if origins@.take(j as int).contains(asn) { window } else { Set::<int>::empty() }),
                        decreases origins.len() - j,
                    {
                        let o = origins[j];
                        let ghost cur = ranges@;
                        let mut set = match ranges.remove(&o) {
                            Some(s) => s,
                            None => AddrSet::new(family),
                        };
                        set.add_nets(&cidrs);
                        ranges.insert(o, set);
                        proof {
                            let t0 = origins@.take(j as int);
                            let t1 = origins@.take(j + 1);
                            assert(t1 =~= t0.push(o));
                            assert forall|x: u32| t1.contains(x) <==> t0.contains(x) || x == o by {
                                if t1.contains(x) {
                                    let k = choose|k: int| 0 <= k < t1.len() && t1[k] == x;
                                    if k < t0.len() {
                                        assert(t0[k] == x);
                                    }
                                }
                                if t0.contains(x) {
                                    let k = choose|k: int| 0 <= k < t0.len() && t0[k] == x;
                                    assert(t1[k] == x);
                                }
                                if x == o {
                                    assert(t1[t0.len() as int] == x);
                                }
                            }
                            assert forall|asn: u32| #[trigger] ranges@.contains_key(asn) implies ranges@[asn].family() == f
                                && ranges@[asn].addresses() == (if r0.contains_key(asn) { r0[asn].addresses() } else { Set::<int>::empty() }).union(
                                    if t1.contains(asn) { window } else { Set::<int>::empty() }) by {
                                if asn == o {
                                    let base = if r0.contains_key(asn) { r0[asn].addresses() } else { Set::<int>::empty() };
                                    if t0.contains(asn) {
                                        assert(ranges@[asn].addresses() =~= base.union(window).union(window));
                                        assert(base.union(window).union(window) =~= base.union(window));
                                    } else if cur.contains_key(asn) {
                                        assert(ranges@[asn].addresses() =~= base.union(window));
                                    } else {
                                        assert(!r0.contains_key(asn));
                                        assert(ranges@[asn].addresses() =~= Set::<int>::empty().union(window));
                                        assert(base.union(window) =~= Set::<int>::empty().union(window));
                                    }
                                } else {
                                    assert(ranges@[asn] == cur[asn]);
                                }
                            }
                        }
                        j = j + 1;
                    }
                    proof {
                        assert(origins@.take(origins@.len() as int) =~= origins@);
                        assert forall|asn: u32| window_gives(f, m, pts@, i as int, asn) <==> origins@.contains(asn) by {
                            assert(origins@.to_set().contains(asn) <==> origins@.contains(asn));
                        }
                        assert forall|asn: u32| #[trigger] ranges@.contains_key(asn) <==> exists|k: int| 0 <= k < i + 1 && #[trigger] window_gives(f, m, pts@, k, asn) by {
                            if exists|k: int| 0 <= k < i + 1 && #[trigger] window_gives(f, m, pts@, k, asn) {
                                let k = choose|k: int| 0 <= k < i + 1 && #[trigger] window_gives(f, m, pts@, k, asn);
                                if k < i {
                                    assert(r0.contains_key(asn));
                                }
                            }
                            if r0.contains_key(asn) {
                                let k = choose|k: int| 0 <= k < i && #[trigger] window_gives(f, m, pts@, k, asn);
                                assert(0 <= k < i + 1);
                            }
                            if origins@.contains(asn) {
                                assert(window_gives(f, m, pts@, i as int, asn));
                            }
                        }
                        assert forall|asn: u32| #[trigger] ranges@.contains_key(asn) implies ranges@[asn].addresses()
                            == Set::new(|a: int| given_upto(f, m, pts@, i + 1, asn, a)) by {
                            let base = if r0.contains_key(asn) { r0[asn].addresses() } else { Set::<int>::empty() };
                            if !r0.contains_key(asn) {
                                assert forall|a: int| !given_upto(f, m, pts@, i as int, asn, a) by {
                                    if given_upto(f, m, pts@, i as int, asn, a) {
                                        let k = choose|k: int| 0 <= k < i && in_window(pts@, k, a) && #[trigger] window_gives(f, m, pts@, k, asn);
                                    }
                                }
                                assert(base =~= Set::new(|a: int| given_upto(f, m, pts@, i as int, asn, a)));
                            }
                            assert(ranges@[asn].addresses() =~= Set::new(|a: int| given_upto(f, m, pts@, i + 1, asn, a)));
                        }
                    }
                },
            }
            i = i + 1;
        }
        let mut announced = announced;
        announced.simplify();
        proof {
            let n = if pts@.len() == 0 { 0 } else { pts@.len() - 1 };
            assert(i == n);
            assert forall|asn: u32, a: int| given_upto(f, m, pts@, n, asn, a) <==> #[trigger] assigned(f, m, points, asn, a) by {
                lemma_given_assigned(f, m, points, pts@, asn, a);
            }
            assert forall|asn: u32| #[trigger] ranges@.contains_key(asn) <==> exists|a: int| assigned(f, m, points, asn, a) by {
                if ranges@.contains_key(asn) {
                    let k = choose|k: int| 0 <= k < n && #[trigger] window_gives(f, m, pts@, k, asn);
                    assert(in_window(pts@, k, pts@[k] as int));
                    assert(given_upto(f, m, pts@, n, asn, pts@[k] as int));
                    assert(assigned(f, m, points, asn, pts@[k] as int));
                }
                if exists|a: int| assigned(f, m, points, asn, a) {
                    let a = choose|a: int| assigned(f, m, points, asn, a);
                    assert(given_upto(f, m, pts@, n, asn, a));
                    let k = choose|k: int| 0 <= k < n && in_window(pts@, k, a) && #[trigger] window_gives(f, m, pts@, k, asn);
                }
            }
            assert forall|asn: u32| #[trigger] ranges@.contains_key(asn) implies ranges@[asn].addresses()
                == Set::new(|a: int| assigned(f, m, points, asn, a)) by {
                assert(Set::new(|a: int| given_upto(f, m, pts@, n, asn, a)) =~= Set::new(|a: int| assigned(f, m, points, asn, a)));
            }
        }
        (ranges, announced)
    }

    /// Every kept suffix with its key, each key once.
    fn suffix_list(&self) -> (r: Vec<(u128, u64, AsPath)>)
        ensures
            lists_suffixes(self.suffixes(), r@),
    {
        let ghost sv = self.suffixes();
        let mut r: Vec<(u128, u64, AsPath)> = Vec::new();
        for entry in it: self.suffix_map.iter()
            invariant
                sv == self.suffixes(),
                it.seq().no_duplicates(),
                forall|j: int| 0 <= j < it.seq().len() ==> self.suffix_map@.contains_key(*it.seq()[j].0)
                    && self.suffix_map@[*it.seq()[j].0] == *it.seq()[j].1,
                forall|x: u128| #[trigger] self.suffix_map@.contains_key(x) ==> exists|j: int| 0 <= j < it.seq().len() && *it.seq()[j].0 == x,
                forall|i: int| 0 <= i < r@.len() ==> sv.contains_key((#[trigger] r@[i].0, r@[i].1))
                    && sv[(r@[i].0, r@[i].1)] == as_path_asns(r@[i].2)
                    && net_done(it.seq(), it.index() as int, r@[i].0),
                forall|k: (u128, u64)| #[trigger] sv.contains_key(k) && net_done(it.seq(), it.index() as int, k.0) ==> listed(r@, k),
                forall|i: int, j: int| #![trigger r@[i], r@[j]] 0 <= i < j < r@.len() ==> (r@[i].0, r@[i].1) != (r@[j].0, r@[j].1),
                it.index() == it.seq().len() ==> lists_suffixes(sv, r@),
        {
            let (n, inner) = entry;
            let ghost r0 = r@;
            let ghost idx = it.index() as int;
            proof {
                assert(*it.seq()[idx].0 == *n);
                assert forall|i: int| 0 <= i < r0.len() implies r0[i].0 != *n by {
                    let j = choose|j: int| 0 <= j < idx && *it.seq()[j].0 == r0[i].0;
                    if r0[i].0 == *n {
                        assert(*it.seq()[j].1 == self.suffix_map@[*n]);
                        assert(it.seq()[j] == it.seq()[idx]);
                    }
                }
            }
            for e2 in it2: inner.iter()
                invariant
                    sv == self.suffixes(),
                    idx == it.index(),
                    0 <= idx < it.seq().len(),
                    *it.seq()[idx].0 == *n,
                    self.suffix_map@.contains_key(*n),
                    self.suffix_map@[*n] == *inner,
                    r0.len() <= r@.len(),
                    forall|i: int| 0 <= i < r0.len() ==> r@[i] == r0[i],
                    forall|i: int| 0 <= i < r0.len() ==> r0[i].0 != *n,
                    it2.seq().no_duplicates(),
                    forall|j: int| 0 <= j < it2.seq().len() ==> inner@.contains_key(*it2.seq()[j].0)
                        && inner@[*it2.seq()[j].0] == *it2.seq()[j].1,
                    forall|c: u64| #[trigger] inner@.contains_key(c) ==> exists|j: int| 0 <= j < it2.seq().len() && *it2.seq()[j].0 == c,
                    forall|i: int| r0.len() <= i < r@.len() ==> (#[trigger] r@[i]).0 == *n && code_done(it2.seq(), it2.index() as int, r@[i].1),
                    forall|i: int| 0 <= i < r@.len() ==> sv.contains_key((#[trigger] r@[i].0, r@[i].1))
                        && sv[(r@[i].0, r@[i].1)] == as_path_asns(r@[i].2),
                    forall|k: (u128, u64)| #[trigger] sv.contains_key(k) && net_done(it.seq(), idx, k.0) ==> listed(r@, k),
                    forall|c: u64| #[trigger] inner@.contains_key(c) && code_done(it2.seq(), it2.index() as int, c) ==> listed(r@, (*n, c)),
                    forall|i: int, j: int| #![trigger r@[i], r@[j]] 0 <= i < j < r@.len() ==> (r@[i].0, r@[i].1) != (r@[j].0, r@[j].1),
                    it2.index() == it2.seq().len() ==> forall|c: u64| #[trigger] inner@.contains_key(c) ==> listed(r@, (*n, c)),
            {
                let (c, p) = e2;
                let ghost r1 = r@;
                let ghost idx2 = it2.index() as int;
                proof {
                    assert(*it2.seq()[idx2].0 == *c);
                    assert forall|i: int| r0.len() <= i < r1.len() implies r1[i].1 != *c by {
                        assert(code_done(it2.seq(), idx2, r1[i].1));
                        let j = choose|j: int| 0 <= j < idx2 && *it2.seq()[j].0 == r1[i].1;
                        if r1[i].1 == *c {
                            assert(*it2.seq()[j].1 == inner@[*c]);
                            assert(it2.seq()[j] == it2.seq()[idx2]);
                        }
                    }
                }
                r.push((*n, *c, p.copy()));
                proof {
                    let last = r@.len() - 1;
                    assert(r@[last].0 == *n && r@[last].1 == *c);
                    assert forall|i: int| r0.len() <= i < r@.len() implies (#[trigger] r@[i]).0 == *n && code_done(it2.seq(), idx2 + 1, r@[i].1) by {
                        if i < last {
                            assert(r@[i] == r1[i]);
                            let j = choose|j: int| 0 <= j < idx2 && *it2.seq()[j].0 == r1[i].1;
                            assert(0 <= j < idx2 + 1 && *it2.seq()[j].0 == r@[i].1);
                        } else {
                            assert(0 <= idx2 < idx2 + 1 && *it2.seq()[idx2].0 == r@[i].1);
                        }
                    }
                    assert forall|i: int| 0 <= i < r@.len() implies sv.contains_key((#[trigger] r@[i].0, r@[i].1))
                        && sv[(r@[i].0, r@[i].1)] == as_path_asns(r@[i].2) by {
                        if i < last {
                            assert(r@[i] == r1[i]);
                        } else {
                            assert(inner@.contains_key(*c) && inner@[*c] == *p);
                            assert(sv.contains_key((*n, *c)));
                        }
                    }
                    assert forall|k: (u128, u64)| #[trigger] sv.contains_key(k) && net_done(it.seq(), idx, k.0) implies listed(r@, k) by {
                        assert(listed(r1, k));
                        let i = choose|i: int| 0 <= i < r1.len() && r1[i].0 == k.0 && r1[i].1 == k.1;
                        assert(r@[i] == r1[i]);
                    }
                    assert forall|c2: u64| #[trigger] inner@.contains_key(c2) && code_done(it2.seq(), idx2 + 1, c2) implies listed(r@, (*n, c2)) by {
                        if c2 == *c {
                            assert(r@[last].0 == *n && r@[last].1 == c2);
                        } else {
                            let j = choose|j: int| 0 <= j < idx2 + 1 && *it2.seq()[j].0 == c2;
                            assert(code_done(it2.seq(), idx2, c2));
                            assert(listed(r1, (*n, c2)));
                            let i = choose|i: int| 0 <= i < r1.len() && r1[i].0 == *n && r1[i].1 == c2;
                            assert(r@[i] == r1[i]);
                        }
                    }
                    if idx2 + 1 == it2.seq().len() {
                        assert forall|c2: u64| #[trigger] inner@.contains_key(c2) implies listed(r@, (*n, c2)) by {
                            let j = choose|j: int| 0 <= j < it2.seq().len() && *it2.seq()[j].0 == c2;
                            assert(code_done(it2.seq(), idx2 + 1, c2));
                        }
                    }
                    assert forall|i: int, j: int| #![trigger r@[i], r@[j]] 0 <= i < j < r@.len() implies (r@[i].0, r@[i].1) != (r@[j].0, r@[j].1) by {
                        if j == last {
                            if i < r0.len() {
                                assert(r@[i] == r0[i]);
                            } else {
                                assert(r@[i] == r1[i]);
                            }
                        } else {
                            assert(r@[i] == r1[i]);
                            assert(r@[j] == r1[j]);
                        }
                    }
                }
            }
            proof {
                assert forall|k: (u128, u64)| #[trigger] sv.contains_key(k) && net_done(it.seq(), idx + 1, k.0) implies listed(r@, k) by {
                    if k.0 == *n {
                        assert(inner@.contains_key(k.1));
                    } else {
                        let j = choose|j: int| 0 <= j < idx + 1 && *it.seq()[j].0 == k.0;
                        assert(net_done(it.seq(), idx, k.0));
                    }
                }
                assert forall|i: int| 0 <= i < r@.len() implies net_done(it.seq(), idx + 1, #[trigger] r@[i].0) by {
                    if i < r0.len() {
                        assert(r@[i] == r0[i]);
                        let j = choose|j: int| 0 <= j < idx && *it.seq()[j].0 == r0[i].0;
                        assert(0 <= j < idx + 1);
                    } else {
                        assert(r@[i].0 == *n);
                        assert(0 <= idx < idx + 1 && *it.seq()[idx].0 == r@[i].0);
                    }
                }
                assert forall|k: (u128, u64)| #[trigger] sv.contains_key(k) && idx + 1 == it.seq().len() implies listed(r@, k) by {
                    assert(self.suffix_map@.contains_key(k.0));
                    assert(net_done(it.seq(), idx + 1, k.0));
                }
            }
        }
        r
    }

    /// Observes the path `p` under the key `(net, code)`.
    fn put_suffix(&mut self, net: u128, code: u64, p: &AsPath)
        ensures
            final(self).family == old(self).family,
            final(self).prefixes == old(self).prefixes,
            final(self).announced == old(self).announced,
            final(self).split_points == old(self).split_points,
            final(self).suffixes() == old(self).suffixes().insert(
                (net, code),
                combined(old(self).suffixes(), (net, code), as_path_asns(*p)),
            ),
    {
        let ghost before = self.suffixes();
        let mut inner = match self.suffix_map.remove(&net) {
            Some(m) => m,
            None => HashMap::new(),
        };
        let merged = match inner.get(&code) {
            Some(q) => common_suffix_of(q, p),
            None => p.copy(),
        };
        inner.insert(code, merged);
        self.suffix_map.insert(net, inner);
        proof {
            assert(self.suffixes() =~= before.insert((net, code), combined(before, (net, code), as_path_asns(*p))));
        }
    }
}

/// `s` with the origins that `allowed` keeps: all of them when it is `None`.
pub open spec fn kept(s: Set<u32>, allowed: Option<Set<u32>>) -> Set<u32> {
    match allowed {
        None => s,
        Some(a) => s.intersect(a),
    }
}

pub open spec fn allowed_view(allowed: Option<&HashSet<u32>>) -> Option<Set<u32>> {
    match allowed {
        None => None,
        Some(a) => Some(a@),
    }
}

pub open spec fn origins_or_empty(m: Map<(int, nat), Set<u32>>, k: (int, nat)) -> Set<u32> {
    if m.contains_key(k) {
        m[k]
    } else {
        Set::empty()
    }
}

/// The prefixes of two tables merged: every prefix of either, with its
/// origins in `a` and those of its origins in `b` that `allowed` keeps.
pub open spec fn merged_origins(
    a: Map<(int, nat), Set<u32>>,
    b: Map<(int, nat), Set<u32>>,
    allowed: Option<Set<u32>>,
) -> Map<(int, nat), Set<u32>> {
    Map::new(
        |k: (int, nat)| a.contains_key(k) || b.contains_key(k),
        |k: (int, nat)| origins_or_empty(a, k).union(kept(origins_or_empty(b, k), allowed)),
    )
}

/// The suffixes of two tables merged: a key of both holds the common
/// suffix of its two suffixes.
pub open spec fn merged_suffixes(a: Map<(u128, u64), Seq<u32>>, b: Map<(u128, u64), Seq<u32>>) -> Map<(u128, u64), Seq<u32>> {
    Map::new(
        |k: (u128, u64)| a.contains_key(k) || b.contains_key(k),
        |k: (u128, u64)| if b.contains_key(k) { combined(a, k, b[k]) } else { a[k] },
    )
}

spec fn done_upto(ev: Seq<(int, nat, Seq<u32>)>, n: int, k: (int, nat)) -> bool {
    exists|j: int| 0 <= j < n && ev[j].0 == k.0 && ev[j].1 == k.1
}

spec fn origins_upto(
    a: Map<(int, nat), Set<u32>>,
    b: Map<(int, nat), Set<u32>>,
    allowed: Option<Set<u32>>,
    ev: Seq<(int, nat, Seq<u32>)>,
    n: int,
) -> Map<(int, nat), Set<u32>> {
    Map::new(
        |k: (int, nat)| a.contains_key(k) || done_upto(ev, n, k),
        |k: (int, nat)| origins_or_empty(a, k).union(if done_upto(ev, n, k) { kept(b[k], allowed) } else { Set::empty() }),
    )
}

spec fn suffix_done(r: Seq<(u128, u64, AsPath)>, n: int, k: (u128, u64)) -> bool {
    exists|j: int| 0 <= j < n && r[j].0 == k.0 && r[j].1 == k.1
}

spec fn suffixes_upto(
    a: Map<(u128, u64), Seq<u32>>,
    b: Map<(u128, u64), Seq<u32>>,
    r: Seq<(u128, u64, AsPath)>,
    n: int,
) -> Map<(u128, u64), Seq<u32>> {
    Map::new(
        |k: (u128, u64)| a.contains_key(k) || suffix_done(r, n, k),
        |k: (u128, u64)| if suffix_done(r, n, k) { combined(a, k, b[k]) } else { a[k] },
    )
}

/// The origins of `origins` that `allowed` keeps.
fn keep_allowed(origins: &Vec<u32>, allowed: Option<&HashSet<u32>>) -> (r: Vec<u32>)
    ensures
        r@.to_set() == kept(origins@.to_set(), allowed_view(allowed)),
{
    let mut r: Vec<u32> = Vec::new();
    let mut i: usize = 0;
    while i < origins.len()
        invariant
            i <= origins.len(),
            r@.to_set() == kept(origins@.take(i as int).to_set(), allowed_view(allowed)),
        decreases origins.len() - i,
    {
        let o = origins[i];
        let keep = match allowed {
            None => true,
            Some(a) => a.contains(&o),
        };
        let ghost r0 = r@;
        if keep {
            r.push(o);
        }
        proof {
            let t0 = origins@.take(i as int);
            let t1 = origins@.take(i + 1);
            assert(t1 =~= t0.push(o));
            assert(t1.to_set() =~= t0.to_set().insert(o)) by {
                assert forall|x: u32| t1.contains(x) <==> t0.contains(x) || x == o by {
                    if t1.contains(x) {
                        let k = choose|k: int| 0 <= k < t1.len() && t1[k] == x;
                        if k < t0.len() {
                            assert(t0[k] == x);
                        }
                    }
                    if t0.contains(x) {
                        let k = choose|k: int| 0 <= k < t0.len() && t0[k] == x;
                        assert(t1[k] == x);
                    }
                    if x == o {
                        assert(t1[t0.len() as int] == x);
                    }
                }
            }
            assert forall|x: u32| r@.contains(x) <==> r0.contains(x) || (keep && x == o) by {
                if r@.contains(x) {
                    let k = choose|k: int| 0 <= k < r@.len() && r@[k] == x;
                    if k < r0.len() {
                        assert(r0[k] == x);
                    }
                }
                if r0.contains(x) {
                    let k = choose|k: int| 0 <= k < r0.len() && r0[k] == x;
                    assert(r@[k] == x);
                }
                if keep && x == o {
                    assert(r@[r0.len() as int] == x);
                }
            }
            assert(keep == (allowed_view(allowed) is None || allowed_view(allowed)->0.contains(o)));
            assert forall|x: u32| r@.to_set().contains(x) <==> kept(t1.to_set(), allowed_view(allowed)).contains(x) by {
                assert(r0.to_set().contains(x) == kept(t0.to_set(), allowed_view(allowed)).contains(x));
            }
            assert(r@.to_set() =~= kept(t1.to_set(), allowed_view(allowed)));
        }
        i = i + 1;
    }
    proof {
        assert(origins@.take(origins@.len() as int) =~= origins@);
    }
    r
}

spec fn origin_set(found: Option<Vec<u32>>) -> Option<Set<u32>> {
    match found {
        None => None,
        Some(v) => Some(v@.to_set()),
    }
}

/// Some split point is at or below `a`, and some is above it.
pub open spec fn in_span(points: Set<int>, a: int) -> bool {
    &&& exists|p: int| #[trigger] points.contains(p) && p <= a
    &&& exists|q: int| #[trigger] points.contains(q) && a < q
}

/// The table gives the address `a` to `asn`: `a` lies between split points,
/// and the longest prefix that holds it lists `asn`.
pub open spec fn assigned(f: Family, origins: Map<(int, nat), Set<u32>>, points: Set<int>, asn: u32, a: int) -> bool {
    &&& in_span(points, a)
    &&& lpm(f, origins, a) matches Some(s) && s.contains(asn)
}

/// `a` lies in the interval from the `j`-th point to the next.
pub open spec fn in_window(pts: Seq<u128>, j: int, a: int) -> bool {
    0 <= j && j + 1 < pts.len() && pts[j] <= a < pts[j + 1]
}

/// The interval from the `j`-th point goes to `asn`.
pub open spec fn window_gives(f: Family, m: Map<(int, nat), Set<u32>>, pts: Seq<u128>, j: int, asn: u32) -> bool {
    &&& 0 <= j && j + 1 < pts.len()
    &&& lpm(f, m, pts[j] as int) matches Some(s) && s.contains(asn)
}

/// One of the first `n` intervals holds `a` and goes to `asn`.
pub open spec fn given_upto(f: Family, m: Map<(int, nat), Set<u32>>, pts: Seq<u128>, n: int, asn: u32, a: int) -> bool {
    exists|j: int| 0 <= j < n && in_window(pts, j, a) && #[trigger] window_gives(f, m, pts, j, asn)
}

/// Adding interval `i` to the first `i` intervals.
proof fn lemma_given_step(f: Family, m: Map<(int, nat), Set<u32>>, pts: Seq<u128>, i: int)
    requires
        0 <= i,
    ensures
        forall|asn: u32, a: int| #[trigger] given_upto(f, m, pts, i + 1, asn, a) <==> given_upto(f, m, pts, i, asn, a)
            || (in_window(pts, i, a) && window_gives(f, m, pts, i, asn)),
{
    assert forall|asn: u32, a: int| #[trigger] given_upto(f, m, pts, i + 1, asn, a) <==> given_upto(f, m, pts, i, asn, a)
        || (in_window(pts, i, a) && window_gives(f, m, pts, i, asn)) by {
        if given_upto(f, m, pts, i + 1, asn, a) {
            let j = choose|j: int| 0 <= j < i + 1 && in_window(pts, j, a) && #[trigger] window_gives(f, m, pts, j, asn);
            if j < i {
                assert(given_upto(f, m, pts, i, asn, a));
            }
        }
        if given_upto(f, m, pts, i, asn, a) {
            let j = choose|j: int| 0 <= j < i && in_window(pts, j, a) && #[trigger] window_gives(f, m, pts, j, asn);
            assert(0 <= j < i + 1);
        }
        if in_window(pts, i, a) && window_gives(f, m, pts, i, asn) {
            assert(0 <= i < i + 1);
        }
    }
}

/// Between two points that hold `a` on either side, some pair of
/// neighbouring points holds it.
proof fn lemma_window_of(pts: Seq<u128>, lo: int, hi: int, a: int)
    requires
        strictly_increasing_points(pts),
        0 <= lo < hi < pts.len(),
        pts[lo] <= a < pts[hi],
    ensures
        exists|j: int| lo <= j < hi && #[trigger] in_window(pts, j, a),
    decreases hi - lo,
{
    if hi == lo + 1 {
        assert(in_window(pts, lo, a));
    } else if pts[lo + 1] <= a {
        lemma_window_of(pts, lo + 1, hi, a);
        let j = choose|j: int| lo + 1 <= j < hi && #[trigger] in_window(pts, j, a);
    } else {
        assert(in_window(pts, lo, a));
    }
}

/// Inside one interval, the longest prefix match does not change: every
/// prefix starts and ends at split points.
proof fn lemma_lpm_constant(f: Family, m: Map<(int, nat), Set<u32>>, points: Set<int>, pts: Seq<u128>, j: int, a: int)
    requires
        table_wf(f, m, points, Map::empty()),
        strictly_increasing_points(pts),
        forall|i: int| 0 <= i < pts.len() ==> points.contains(#[trigger] pts[i] as int),
        forall|p: int| #[trigger] points.contains(p) ==> exists|i: int| 0 <= i < pts.len() && pts[i] as int == p,
        in_window(pts, j, a),
    ensures
        lpm(f, m, a) == lpm(f, m, pts[j] as int),
{
    let s = pts[j] as int;
    let e = pts[j + 1] as int;
    assert(points.contains(e));
    assert(in_space(f, e));
    assert forall|p: int| #[trigger] points.contains(p) implies !(s < p < e) by {
        let i = choose|i: int| 0 <= i < pts.len() && pts[i] as int == p;
        if i <= j {
            if i < j {
                assert(pts[i] < pts[j]);
            }
        } else {
            if i > j + 1 {
                assert(pts[j + 1] < pts[i]);
            }
        }
    }
    assert forall|k: (int, nat)| #[trigger] crate::prefixes::covering(f, m, a, k) <==> crate::prefixes::covering(f, m, s, k) by {
        if m.contains_key(k) {
            assert(valid_prefix(f, k.0, k.1) && k.0 == network_of(f, k.0, k.1));
            assert(points.contains(k.0));
            if k.0 + span(f, k.1) != space(f) {
                assert(points.contains(k.0 + span(f, k.1)));
            }
        }
    }
    assert forall|k: (int, nat)| #[trigger] crate::prefixes::longest_covering(f, m, a, k) <==> crate::prefixes::longest_covering(f, m, s, k) by {
        if crate::prefixes::longest_covering(f, m, a, k) {
            assert forall|k2: (int, nat)| #[trigger] crate::prefixes::covering(f, m, s, k2) implies k2.1 <= k.1 by {
                assert(crate::prefixes::covering(f, m, a, k2));
            }
        }
        if crate::prefixes::longest_covering(f, m, s, k) {
            assert forall|k2: (int, nat)| #[trigger] crate::prefixes::covering(f, m, a, k2) implies k2.1 <= k.1 by {
                assert(crate::prefixes::covering(f, m, s, k2));
            }
        }
    }
    if exists|k: (int, nat)| #[trigger] crate::prefixes::covering(f, m, a, k) {
        let k = choose|k: (int, nat)| #[trigger] crate::prefixes::covering(f, m, a, k);
        crate::prefixes::lemma_lpm_some(f, m, a, k);
        crate::prefixes::lemma_lpm_some(f, m, s, k);
        let l1 = choose|l: (int, nat)| #[trigger] crate::prefixes::longest_covering(f, m, a, l) && lpm(f, m, a) == Some(m[l]);
        let l2 = choose|l: (int, nat)| #[trigger] crate::prefixes::longest_covering(f, m, s, l) && lpm(f, m, s) == Some(m[l]);
        assert(crate::prefixes::longest_covering(f, m, s, l1));
        crate::prefixes::lemma_longest_unique(f, m, s, l1, l2);
    } else {
        assert forall|k: (int, nat)| !#[trigger] crate::prefixes::covering(f, m, s, k) by {
            if crate::prefixes::covering(f, m, s, k) {
                assert(crate::prefixes::covering(f, m, a, k));
            }
        }
    }
}

/// The intervals given to `asn` hold exactly the addresses the table gives
/// to `asn`.
proof fn lemma_given_assigned(f: Family, m: Map<(int, nat), Set<u32>>, points: Set<int>, pts: Seq<u128>, asn: u32, a: int)
    requires
        table_wf(f, m, points, Map::empty()),
        strictly_increasing_points(pts),
        forall|i: int| 0 <= i < pts.len() ==> points.contains(#[trigger] pts[i] as int),
        forall|p: int| #[trigger] points.contains(p) ==> exists|i: int| 0 <= i < pts.len() && pts[i] as int == p,
    ensures
        given_upto(f, m, pts, if pts.len() == 0 { 0 } else { pts.len() - 1 }, asn, a) <==> assigned(f, m, points, asn, a),
{
    let n = if pts.len() == 0 { 0 } else { pts.len() - 1 };
    if given_upto(f, m, pts, n, asn, a) {
        let j = choose|j: int| 0 <= j < n && in_window(pts, j, a) && #[trigger] window_gives(f, m, pts, j, asn);
        lemma_lpm_constant(f, m, points, pts, j, a);
        assert(points.contains(pts[j] as int));
        assert(points.contains(pts[j + 1] as int));
    }
    if assigned(f, m, points, asn, a) {
        let p = choose|p: int| #[trigger] points.contains(p) && p <= a;
        let q = choose|q: int| #[trigger] points.contains(q) && a < q;
        let lo = choose|i: int| 0 <= i < pts.len() && pts[i] as int == p;
        let hi = choose|i: int| 0 <= i < pts.len() && pts[i] as int == q;
        if hi <= lo {
            if hi < lo {
                assert(pts[hi] < pts[lo]);
            }
        }
        lemma_window_of(pts, lo, hi, a);
        let j = choose|j: int| lo <= j < hi && #[trigger] in_window(pts, j, a);
        lemma_lpm_constant(f, m, points, pts, j, a);
        assert(window_gives(f, m, pts, j, asn));
    }
}

/// The prefix `k` is attributed to `x` through one of its suffixes in `s`.
pub open spec fn shares(s: Map<(u128, u64), Seq<u32>>, k: (int, nat), operators: Set<u32>, x: u32) -> bool {
    exists|c: u64| s.contains_key((k.0 as u128, c)) && code_len(c) == k.1 && attributed(s[(k.0 as u128, c)], operators).contains(x)
}

/// The prefixes with, for each, the ASNs that its suffixes attribute it to.
pub open spec fn with_upstreams(
    origins: Map<(int, nat), Set<u32>>,
    s: Map<(u128, u64), Seq<u32>>,
    operators: Set<u32>,
) -> Map<(int, nat), Set<u32>> {
    Map::new(
        |k: (int, nat)| origins.contains_key(k),
        |k: (int, nat)| origins[k].union(Set::new(|x: u32| shares(s, k, operators, x))),
    )
}

spec fn upstream_done(r: Seq<(u128, u64, AsPath)>, n: int, k: (int, nat), operators: Set<u32>, x: u32) -> bool {
    exists|j: int| 0 <= j < n && r[j].0 as int == k.0 && code_len(r[j].1) == k.1 && attributed(as_path_asns(r[j].2), operators).contains(x)
}

spec fn upstreams_upto(
    origins: Map<(int, nat), Set<u32>>,
    r: Seq<(u128, u64, AsPath)>,
    n: int,
    operators: Set<u32>,
) -> Map<(int, nat), Set<u32>> {
    Map::new(
        |k: (int, nat)| origins.contains_key(k),
        |k: (int, nat)| origins[k].union(Set::new(|x: u32| upstream_done(r, n, k, operators, x))),
    )
}

/// Some item before position `n` of an iteration over the outer map has
/// network `x`.
spec fn net_done(s: Seq<(&u128, &HashMap<u64, AsPath>)>, n: int, x: u128) -> bool {
    exists|j: int| 0 <= j < n && *s[j].0 == x
}

/// Some item before position `n` of an iteration over an inner map has
/// key `c`.
spec fn code_done(s: Seq<(&u64, &AsPath)>, n: int, c: u64) -> bool {
    exists|j: int| 0 <= j < n && *s[j].0 == c
}

/// Some entry of `r` has key `k`.
pub open spec fn listed(r: Seq<(u128, u64, AsPath)>, k: (u128, u64)) -> bool {
    exists|i: int| 0 <= i < r.len() && r[i].0 == k.0 && r[i].1 == k.1
}

/// `r` lists the suffixes of `s`, each key once.
pub open spec fn lists_suffixes(s: Map<(u128, u64), Seq<u32>>, r: Seq<(u128, u64, AsPath)>) -> bool {
    &&& forall|i: int| 0 <= i < r.len() ==> s.contains_key((#[trigger] r[i].0, r[i].1)) && s[(r[i].0, r[i].1)]
        == as_path_asns(r[i].2)
    &&& forall|k: (u128, u64)| #[trigger] s.contains_key(k) ==> listed(r, k)
    &&& forall|i: int, j: int| #![trigger r[i], r[j]] 0 <= i < j < r.len() ==> (r[i].0, r[i].1) != (r[j].0, r[j].1)
}

/// The items of a set, in some order.
fn set_items(s: &HashSet<u32>) -> (r: Vec<u32>)
    ensures
        r@.to_set() == s@,
{
    let mut r: Vec<u32> = Vec::new();
    for a in it: s.iter()
        invariant
            r@ == it.seq().take(it.index() as int).unref(),
            it.seq().unref().to_set() == s@,
            it.index() == it.seq().len() ==> r@.to_set() == s@,
    {
        r.push(*a);
        assert(r@ =~= it.seq().take(it.index() + 1).unref());
        assert(it.index() + 1 == it.seq().len() ==> it.seq().take(it.index() + 1) =~= it.seq());
        assert(it.index() + 1 == it.seq().len() ==> r@.to_set() =~= it.seq().unref().to_set());
    }
    r
}

/// Merging the suffixes of two tables does not depend on which is merged
/// into which.
pub proof fn law_merged_suffixes_commute(a: Map<(u128, u64), Seq<u32>>, b: Map<(u128, u64), Seq<u32>>)
    ensures
        merged_suffixes(a, b) == merged_suffixes(b, a),
{
    let x = merged_suffixes(a, b);
    let y = merged_suffixes(b, a);
    assert forall|k: (u128, u64)| #[trigger] x.contains_key(k) implies x[k] == y[k] by {
        if a.contains_key(k) && b.contains_key(k) {
            crate::path::law_common_suffix_commutes(a[k], b[k]);
        }
    }
    assert(x =~= y);
}

/// Without an origin filter, merging the prefixes of two tables does not
/// depend on which is merged into which.
pub proof fn law_merged_origins_commute(a: Map<(int, nat), Set<u32>>, b: Map<(int, nat), Set<u32>>)
    ensures
        merged_origins(a, b, None) == merged_origins(b, a, None),
{
    let x = merged_origins(a, b, None);
    let y = merged_origins(b, a, None);
    assert forall|k: (int, nat)| #[trigger] x.contains_key(k) implies x[k] == y[k] by {
        assert(x[k] =~= y[k]);
    }
    assert(x =~= y);
}

/// Observing the same path twice leaves the suffix as after the first time.
proof fn lemma_combined_idempotent(s: Map<(u128, u64), Seq<u32>>, k: (u128, u64), p: Seq<u32>)
    ensures
        common_suffix(combined(s, k, p), p) == combined(s, k, p),
{
    let c = combined(s, k, p);
    if s.contains_key(k) {
        lemma_common_suffix_ends_both(s[k], p);
    } else {
        assert(p.skip(0) =~= p);
    }
    assert(c.skip(0) =~= c);
    lemma_common_suffix_ends_both(c, p);
    lemma_common_suffix_longest(c, p, c);
    let d = common_suffix(c, p);
    assert(d.skip(0) =~= d);
    assert(c =~= d);
}

} // verus!
