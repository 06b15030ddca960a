//! The classifier: what each RIB entry contributes, how the data of several
//! RIB files is combined, and the final per-ASN address ranges.
use std::collections::{BTreeSet, HashMap, HashSet};
use vstd::prelude::*;
use vstd::std_specs::hash::group_hash_axioms;
use crate::asn::{Asn, DomesticPolicy, asn_values, private_asn};
use crate::dual::{AsnRanges, IpRanges, MrtTables, nets_addresses, nets_valid, prefix_addresses, ranges_of, ranges_valid, selected};
use crate::order::{sorted_unique, strictly_increasing};
use crate::net::{Cidr, Family, network_of};
use crate::path::{
    AsPath, common_suffix, lemma_common_suffix_ends_both, law_normalized_capped,
    law_normalized_ignores_repeated_hop, law_normalized_keeps_hop_before_origin, law_normalized_origin_alone,
    law_normalized_without_repeats, no_repeats, normalize_path, normalized, run_of,
};
use crate::prefixes::{prefix_key, with_origins};
use crate::table::{assigned, kept, merged_origins, merged_suffixes, path_keys, prefix_points, with_path, with_upstreams};

verus! {

broadcast use group_hash_axioms;

/// How entries are read.
#[derive(Clone, Copy)]
pub struct ClassifierConfig {
    /// Skip entries with a private origin ASN.
    pub ignore_private_asn: bool,
    /// Give prefixes to their origins only, not to shared upstreams.
    pub origin_only: bool,
}

/// One route of a RIB: whether it is an announcement, its prefix, its
/// origin ASNs and its AS path, where the RIB gives them.
pub struct RibEntry {
    pub announce: bool,
    pub prefix: Cidr,
    pub origins: Option<Vec<Asn>>,
    pub path: Option<Vec<Asn>>,
}

/// A table of one family, as values: origins by prefix, announced
/// addresses, suffixes by key, split points.
pub type TableModel = (Map<(int, nat), Set<u32>>, Set<int>, Map<(u128, u64), Seq<u32>>, Set<int>);

pub open spec fn entry_origins(e: RibEntry) -> Set<u32> {
    match e.origins {
        Some(v) => asn_values(v@).to_set(),
        None => Set::empty(),
    }
}

pub open spec fn entry_path(e: RibEntry) -> Option<Seq<u32>> {
    match e.path {
        Some(v) => Some(asn_values(v@)),
        None => None,
    }
}

/// The entry is recorded under its origins: it is an announcement that has
/// origins, none of them private when private origins are ignored.
pub open spec fn recorded(e: RibEntry, config: ClassifierConfig) -> bool {
    &&& e.announce
    &&& e.origins is Some
    &&& !(config.ignore_private_asn && exists|a: u32| #[trigger] entry_origins(e).contains(a) && private_asn(a))
}

/// The direct upstream of an origin on `path`: the hop before the origin
/// once prepending is removed, unless it is private.
pub open spec fn direct_upstream(path: Seq<u32>) -> Option<u32> {
    let n = normalized(path);
    if n.len() >= 2 && !private_asn(n[n.len() - 2]) {
        Some(n[n.len() - 2])
    } else {
        None
    }
}

/// What an entry does to the table of its family.
pub open spec fn table_step(t: TableModel, e: RibEntry, config: ClassifierConfig) -> TableModel {
    let f = e.prefix.family;
    let announced = if e.announce && e.prefix.len > 0 {
        t.1.union(e.prefix.addresses())
    } else {
        t.1
    };
    if recorded(e, config) {
        let origins = entry_origins(e);
        let suffixes = match entry_path(e) {
            Some(p) => if config.origin_only {
                t.2
            } else {
                with_path(
                    t.2,
                    path_keys(network_of(f, e.prefix.addr as int, e.prefix.len as nat) as u128, e.prefix.len as nat, origins),
                    normalized(p),
                )
            },
            None => t.2,
        };
        (
            with_origins(t.0, prefix_key(f, e.prefix.addr as int, e.prefix.len as nat), origins),
            announced,
            suffixes,
            t.3.union(prefix_points(f, e.prefix.addr as int, e.prefix.len as nat)),
        )
    } else {
        (t.0, announced, t.2, t.3)
    }
}

/// What an entry does to the set of origins that reached China through a
/// trusted domestic transit.
pub open spec fn domestic_step(d: Set<u32>, e: RibEntry, config: ClassifierConfig, policy: Option<&DomesticPolicy>) -> Set<u32> {
    match (entry_path(e), policy) {
        (Some(p), Some(pol)) => if recorded(e, config) && pol.admits(p) {
            d.union(entry_origins(e))
        } else {
            d
        },
        _ => d,
    }
}

/// `m` with `up` added to the upstreams of each of `origins`.
pub open spec fn add_upstream(m: Map<u32, Set<u32>>, origins: Set<u32>, up: u32) -> Map<u32, Set<u32>> {
    Map::new(
        |o: u32| m.contains_key(o) || origins.contains(o),
        |o: u32| if origins.contains(o) {
            (if m.contains_key(o) { m[o] } else { Set::empty() }).insert(up)
        } else {
            m[o]
        },
    )
}

/// What an entry does to the direct upstreams observed for each origin.
pub open spec fn upstream_step(m: Map<u32, Set<u32>>, e: RibEntry, config: ClassifierConfig) -> Map<u32, Set<u32>> {
    match entry_path(e) {
        Some(p) => if recorded(e, config) && direct_upstream(p) is Some {
            add_upstream(m, entry_origins(e), direct_upstream(p)->0)
        } else {
            m
        },
        None => m,
    }
}

/// What one RIB file gives: its tables, the origins it shows reaching China
/// through trusted transit, and the direct upstreams of each origin.
pub struct ParsedMrtData {
    tables: MrtTables,
    domestic_origins: HashSet<u32>,
    direct_upstreams: HashMap<u32, BTreeSet<u32>>,
}

impl ParsedMrtData {
    pub closed spec fn tables(&self) -> MrtTables {
        self.tables
    }

    pub closed spec fn domestic(&self) -> Set<u32> {
        self.domestic_origins@
    }

    pub closed spec fn upstreams(&self) -> Map<u32, Set<u32>> {
        self.direct_upstreams@.map_values(|s: BTreeSet<u32>| s@)
    }

    pub open spec fn table_model(&self, f: Family) -> TableModel {
        let t = self.tables().table(f);
        (t.origins(), t.announced(), t.suffixes(), t.points())
    }

    pub open spec fn wf(&self) -> bool {
        self.tables().wf()
    }

    /// Nothing read yet.
    pub fn new() -> (r: ParsedMrtData)
        ensures
            r.wf(),
            forall|f: Family| #[trigger] r.table_model(f) == empty_model(),
            r.domestic().is_empty(),
            r.upstreams().is_empty(),
    {
        let r = ParsedMrtData { tables: MrtTables::new(), domestic_origins: HashSet::new(), direct_upstreams: HashMap::new() };
        proof {
            assert forall|f: Family| #[trigger] r.table_model(f) == empty_model() by {
                let t = r.tables().table(f);
                assert(t.origins() =~= Map::empty());
                assert(t.announced() =~= Set::empty());
                assert(t.suffixes() =~= Map::empty());
                assert(t.points() =~= Set::empty());
            }
            assert(r.upstreams() =~= Map::empty());
        }
        r
    }

    /// Reads one RIB entry.
    pub fn observe(&mut self, e: &RibEntry, config: ClassifierConfig, policy: Option<&DomesticPolicy>)
        requires
            old(self).wf(),
            e.prefix.wf(),
        ensures
            final(self).wf(),
            forall|f: Family| #[trigger] final(self).table_model(f) == if f == e.prefix.family {
                table_step(old(self).table_model(f), *e, config)
            } else {
                old(self).table_model(f)
            },
            final(self).domestic() == domestic_step(old(self).domestic(), *e, config, policy),
            final(self).upstreams() == upstream_step(old(self).upstreams(), *e, config),
    {
        let ghost t0 = self.tables;
        if !e.announce {
            return;
        }
        self.tables.announce(e.prefix);
        let origins = match &e.origins {
            None => {
                proof {
                    assert forall|f: Family| #[trigger] self.table_model(f) == if f == e.prefix.family {
                        table_step(old(self).table_model(f), *e, config)
                    } else {
                        old(self).table_model(f)
                    } by {}
                }
                return;
            },
            Some(v) => v,
        };
        let (origin_set, origin_list) = origin_values(origins);
        if config.ignore_private_asn && any_private(origins) {
            proof {
                let w = choose|a: Asn| origins@.contains(a) && private_asn(a.0);
                let k = choose|k: int| 0 <= k < origins@.len() && origins@[k] == w;
                assert(asn_values(origins@)[k] == w.0);
                assert(entry_origins(*e).contains(w.0));
                assert forall|f: Family| #[trigger] self.table_model(f) == if f == e.prefix.family {
                    table_step(old(self).table_model(f), *e, config)
                } else {
                    old(self).table_model(f)
                } by {}
            }
            return;
        }
        proof {
            assert(recorded(*e, config)) by {
                if config.ignore_private_asn {
                    assert forall|a: u32| #[trigger] entry_origins(*e).contains(a) implies !private_asn(a) by {
                        let k = choose|k: int| 0 <= k < asn_values(origins@).len() && asn_values(origins@)[k] == a;
                        assert(origins@.contains(origins@[k]));
                    }
                }
            }
        }
        let path: Option<AsPath> = match &e.path {
            Some(full) => Some(normalize_path(full.as_slice())),
            None => None,
        };
        match (&e.path, policy) {
            (Some(full), Some(pol)) => {
                if pol.has_domestic_suffix(full.as_slice()) {
                    add_all_origins(&mut self.domestic_origins, &origin_list);
                }
            },
            _ => {},
        }
        match &path {
            Some(np) => {
                let n = np.len();
                if n >= 2 {
                    let up = np.get(n - 2);
                    if !up.is_private() {
                        add_upstream_to(&mut self.direct_upstreams, &origin_list, up.0);
                    }
                }
            },
            None => {},
        }
        let path_arg = if config.origin_only {
            None
        } else {
            path.as_ref()
        };
        self.tables.classify(e.prefix, &origin_set, path_arg);
        proof {
            assert forall|f: Family| #[trigger] self.table_model(f) == if f == e.prefix.family {
                table_step(old(self).table_model(f), *e, config)
            } else {
                old(self).table_model(f)
            } by {}
        }
    }
}

/// The table of family `f` after reading `entries`.
pub open spec fn observed_table(entries: Seq<RibEntry>, config: ClassifierConfig, f: Family) -> TableModel
    decreases entries.len(),
{
    if entries.len() == 0 {
        empty_model()
    } else {
        let t = observed_table(entries.drop_last(), config, f);
        if entries.last().prefix.family == f {
            table_step(t, entries.last(), config)
        } else {
            t
        }
    }
}

/// The origins that `entries` show reaching China through trusted transit.
pub open spec fn observed_domestic(entries: Seq<RibEntry>, config: ClassifierConfig, policy: Option<&DomesticPolicy>) -> Set<u32>
    decreases entries.len(),
{
    if entries.len() == 0 {
        Set::empty()
    } else {
        domestic_step(observed_domestic(entries.drop_last(), config, policy), entries.last(), config, policy)
    }
}

/// The direct upstreams that `entries` show for each origin.
pub open spec fn observed_upstreams(entries: Seq<RibEntry>, config: ClassifierConfig) -> Map<u32, Set<u32>>
    decreases entries.len(),
{
    if entries.len() == 0 {
        Map::empty()
    } else {
        upstream_step(observed_upstreams(entries.drop_last(), config), entries.last(), config)
    }
}

/// Reads the entries of one RIB file.
pub fn process_mrt_file(entries: &Vec<RibEntry>, config: ClassifierConfig, policy: Option<&DomesticPolicy>) -> (r: ParsedMrtData)
    requires
        forall|i: int| 0 <= i < entries@.len() ==> (#[trigger] entries@[i]).prefix.wf(),
    ensures
        r.wf(),
        forall|f: Family| #[trigger] r.table_model(f) == observed_table(entries@, config, f),
        r.domestic() == observed_domestic(entries@, config, policy),
        r.upstreams() == observed_upstreams(entries@, config),
{
    let mut data = ParsedMrtData::new();
    let mut i: usize = 0;
    proof {
        assert(entries@.take(0) =~= Seq::<RibEntry>::empty());
    }
    while i < entries.len()
        invariant
            i <= entries@.len(),
            data.wf(),
            forall|j: int| 0 <= j < entries@.len() ==> (#[trigger] entries@[j]).prefix.wf(),
            forall|f: Family| #[trigger] data.table_model(f) == observed_table(entries@.take(i as int), config, f),
            data.domestic() == observed_domestic(entries@.take(i as int), config, policy),
            data.upstreams() == observed_upstreams(entries@.take(i as int), config),
        decreases entries.len() - i,
    {
        data.observe(&entries[i], config, policy);
        proof {
            assert(entries@.take(i + 1).drop_last() =~= entries@.take(i as int));
            assert(entries@.take(i + 1).last() == entries@[i as int]);
        }
        i = i + 1;
    }
    proof {
        assert(entries@.take(entries@.len() as int) =~= entries@);
    }
    data
}

/// Two tables merged (see `FamilyTable::merge`).
pub open spec fn merge_model(a: TableModel, b: TableModel, allowed: Option<Set<u32>>) -> TableModel {
    (merged_origins(a.0, b.0, allowed), a.1.union(b.1), merged_suffixes(a.2, b.2), a.3.union(b.3))
}

/// The origins that any of the files shows reaching China through trusted
/// transit.
pub open spec fn combined_domestic(ps: Seq<ParsedMrtData>) -> Set<u32>
    decreases ps.len(),
{
    if ps.len() == 0 {
        Set::empty()
    } else {
        combined_domestic(ps.drop_last()).union(ps.last().domestic())
    }
}

/// The tables of family `f` of all files merged in order.
pub open spec fn combined_table(ps: Seq<ParsedMrtData>, f: Family, allowed: Option<Set<u32>>) -> TableModel
    decreases ps.len(),
{
    if ps.len() == 0 {
        empty_model()
    } else {
        merge_model(combined_table(ps.drop_last(), f, allowed), ps.last().table_model(f), allowed)
    }
}

pub open spec fn upstreams_of(m: Map<u32, Set<u32>>, o: u32) -> Set<u32> {
    if m.contains_key(o) {
        m[o]
    } else {
        Set::empty()
    }
}

/// Direct upstreams of two sources together.
pub open spec fn union_upstreams(a: Map<u32, Set<u32>>, b: Map<u32, Set<u32>>) -> Map<u32, Set<u32>> {
    Map::new(|o: u32| a.contains_key(o) || b.contains_key(o), |o: u32| upstreams_of(a, o).union(upstreams_of(b, o)))
}

/// The direct upstreams that any of the files shows.
pub open spec fn combined_upstreams(ps: Seq<ParsedMrtData>) -> Map<u32, Set<u32>>
    decreases ps.len(),
{
    if ps.len() == 0 {
        Map::empty()
    } else {
        union_upstreams(combined_upstreams(ps.drop_last()), ps.last().upstreams())
    }
}

/// Which origins the merge keeps: with a domestic policy, those that some
/// file shows reaching China through trusted transit; otherwise all.
pub open spec fn build_allowed(ps: Seq<ParsedMrtData>, policy: Option<&DomesticPolicy>) -> Option<Set<u32>> {
    match policy {
        None => None,
        Some(_) => Some(combined_domestic(ps)),
    }
}

/// The prefixes with their final ASNs: the origins, and, unless only
/// origins count, the shared upstreams.
pub open spec fn final_origins(t: TableModel, config: ClassifierConfig, operators: Set<u32>) -> Map<(int, nat), Set<u32>> {
    if config.origin_only {
        t.0
    } else {
        with_upstreams(t.0, t.2, operators)
    }
}

/// The address ranges of each requested ASN, the complete announced space,
/// and the direct upstreams of each origin.
pub struct Classification {
    ranges: AsnRanges,
    announced: IpRanges,
    direct_upstreams: HashMap<u32, BTreeSet<u32>>,
}

/// Combines the data of several RIB files: merges their tables (keeping, with
/// a domestic policy, only the origins that some file shows reaching China
/// through trusted transit), adds shared upstreams unless only origins
/// count, and turns the tables into per-ASN ranges.
pub fn build(
    parsed: Vec<ParsedMrtData>,
    config: ClassifierConfig,
    policy: Option<&DomesticPolicy>,
    operators: &HashSet<u32>,
) -> (r: Classification)
    requires
        forall|i: int| 0 <= i < parsed@.len() ==> (#[trigger] parsed@[i]).wf(),
    ensures
        r.wf(),
        forall|f: Family| #[trigger] r.announced().addresses(f) == combined_table(parsed@, f, build_allowed(parsed@, policy)).1
            && r.announced().merged(f),
        forall|f: Family, asn: u32| #[trigger] r.ranges().given(f).contains_key(asn) <==> exists|a: int|
            assigned(
                f,
                final_origins(combined_table(parsed@, f, build_allowed(parsed@, policy)), config, operators@),
                combined_table(parsed@, f, build_allowed(parsed@, policy)).3,
                asn,
                a,
            ),
        forall|f: Family, asn: u32| #[trigger] r.ranges().given(f).contains_key(asn) ==> r.ranges().given(f)[asn] == Set::new(
            |a: int|
                assigned(
                    f,
                    final_origins(combined_table(parsed@, f, build_allowed(parsed@, policy)), config, operators@),
                    combined_table(parsed@, f, build_allowed(parsed@, policy)).3,
                    asn,
                    a,
                ),
        ),
        r.upstreams() == combined_upstreams(parsed@),
{
    let ghost ps = parsed@;
    let mut domestic: HashSet<u32> = HashSet::new();
    let mut k: usize = 0;
    while k < parsed.len()
        invariant
            k <= parsed@.len(),
            ps == parsed@,
            domestic@ == combined_domestic(ps.take(k as int)),
        decreases parsed.len() - k,
    {
        union_into(&mut domestic, &parsed[k].domestic_origins);
        proof {
            assert(ps.take(k + 1).drop_last() =~= ps.take(k as int));
            assert(ps.take(k + 1).last() == ps[k as int]);
        }
        k = k + 1;
    }
    proof {
        assert(ps.take(ps.len() as int) =~= ps);
    }
    let allowed: Option<&HashSet<u32>> = match policy {
        Some(_) => Some(&domestic),
        None => None,
    };
    let ghost al = build_allowed(ps, policy);
    assert(crate::table::allowed_view(allowed) == al);
    let mut tables = MrtTables::new();
    let mut ups: HashMap<u32, BTreeSet<u32>> = HashMap::new();
    proof {
        assert forall|f: Family| #[trigger] tables_model(tables, f) == combined_table(ps.take(0), f, al) by {
            let t = tables.table(f);
            assert(t.origins() =~= Map::empty());
            assert(t.announced() =~= Set::empty());
            assert(t.suffixes() =~= Map::empty());
            assert(t.points() =~= Set::empty());
        }
        assert(ups@.map_values(|s: BTreeSet<u32>| s@) =~= combined_upstreams(ps.take(0)));
    }
    for data in it: parsed.into_iter()
        invariant
            ps == it.seq(),
            forall|i: int| 0 <= i < ps.len() ==> (#[trigger] ps[i]).wf(),
            al == crate::table::allowed_view(allowed),
            tables.wf(),
            forall|f: Family| #[trigger] tables_model(tables, f) == combined_table(ps.take(it.index() as int), f, al),
            ups@.map_values(|s: BTreeSet<u32>| s@) == combined_upstreams(ps.take(it.index() as int)),
    {
        let ghost before = tables;
        proof {
            assert(data == ps[it.index() as int]);
            assert(ps.take(it.index() + 1).drop_last() =~= ps.take(it.index() as int));
            assert(ps.take(it.index() + 1).last() == data);
        }
        merge_upstreams(&mut ups, &data.direct_upstreams);
        let ParsedMrtData { tables: t, domestic_origins: _, direct_upstreams: _ } = data;
        tables.merge(t, allowed);
        proof {
            assert forall|f: Family| #[trigger] tables_model(tables, f) == combined_table(ps.take(it.index() + 1), f, al) by {
                assert(tables_model(before, f) == combined_table(ps.take(it.index() as int), f, al));
            }
        }
    }
    proof {
        assert(ps.take(ps.len() as int) =~= ps);
    }
    let ghost merged = tables;
    if !config.origin_only {
        tables.add_shared_upstreams(operators);
    }
    let ghost ready = tables;
    proof {
        assert forall|f: Family| #[trigger] ready.table(f).origins() == final_origins(combined_table(ps, f, al), config, operators@)
            && ready.table(f).points() == combined_table(ps, f, al).3
            && ready.table(f).announced() == combined_table(ps, f, al).1 by {
            assert(tables_model(merged, f) == combined_table(ps, f, al));
        }
    }
    let (ranges, announced) = tables.into_ranges();
    proof {
        assert forall|f: Family, asn: u32| #[trigger] ranges.given(f).contains_key(asn) <==> exists|a: int|
            assigned(f, final_origins(combined_table(ps, f, al), config, operators@), combined_table(ps, f, al).3, asn, a) by {
            assert(ready.table(f).origins() == final_origins(combined_table(ps, f, al), config, operators@));
            assert(ready.table(f).points() == combined_table(ps, f, al).3);
            if ranges.given(f).contains_key(asn) {
                let a = choose|a: int| assigned(f, ready.table(f).origins(), ready.table(f).points(), asn, a);
                assert(assigned(f, final_origins(combined_table(ps, f, al), config, operators@), combined_table(ps, f, al).3, asn, a));
            } else {
                assert forall|a: int| !assigned(f, final_origins(combined_table(ps, f, al), config, operators@), combined_table(ps, f, al).3, asn, a) by {
                    if assigned(f, final_origins(combined_table(ps, f, al), config, operators@), combined_table(ps, f, al).3, asn, a) {
                        assert(assigned(f, ready.table(f).origins(), ready.table(f).points(), asn, a));
                    }
                }
            }
        }
        assert forall|f: Family, asn: u32| #[trigger] ranges.given(f).contains_key(asn) implies ranges.given(f)[asn] == Set::new(
            |a: int| assigned(f, final_origins(combined_table(ps, f, al), config, operators@), combined_table(ps, f, al).3, asn, a),
        ) by {
            assert(ready.table(f).origins() == final_origins(combined_table(ps, f, al), config, operators@));
            assert(ready.table(f).points() == combined_table(ps, f, al).3);
        }
    }
    Classification { ranges, announced, direct_upstreams: ups }
}

pub open spec fn tables_model(t: MrtTables, f: Family) -> TableModel {
    (t.table(f).origins(), t.table(f).announced(), t.table(f).suffixes(), t.table(f).points())
}

impl Classification {
    pub closed spec fn ranges(&self) -> AsnRanges {
        self.ranges
    }

    pub closed spec fn announced(&self) -> IpRanges {
        self.announced
    }

    pub closed spec fn upstreams(&self) -> Map<u32, Set<u32>> {
        self.direct_upstreams@.map_values(|s: BTreeSet<u32>| s@)
    }

    pub open spec fn wf(&self) -> bool {
        self.ranges().wf() && self.announced().wf()
    }

    /// The addresses of the requested ASNs that are not excluded, with the
    /// fallback prefixes' addresses that no announcement holds, merged:
    /// BGP before registration data.
    pub fn result(&self, targets: &HashSet<u32>, excluded: &HashSet<u32>, fallback: &[Cidr]) -> (r: IpRanges)
        requires
            self.wf(),
            forall|i: int| 0 <= i < fallback@.len() ==> (#[trigger] fallback@[i]).wf(),
        ensures
            r.wf(),
            forall|f: Family| #[trigger] r.addresses(f) == selected(self.ranges().given(f), targets@, excluded@).union(
                prefix_addresses(fallback@, f).difference(self.announced().addresses(f)),
            ),
            forall|f: Family| #[trigger] r.merged(f),
    {
        let mut result = self.ranges.select(targets, excluded);
        result.add_unannounced(&self.announced, fallback);
        result.simplify();
        proof {
            assert forall|f: Family| #[trigger] result.addresses(f) == selected(self.ranges().given(f), targets@, excluded@).union(
                prefix_addresses(fallback@, f).difference(self.announced().addresses(f)),
            ) by {
                match f {
                    Family::V4 => {},
                    Family::V6 => {},
                }
            }
        }
        result
    }

    /// The requested ASNs that were given any addresses, in increasing
    /// order.
    pub fn seen(&self, targets: &HashSet<u32>) -> (r: Vec<Asn>)
        ensures
            strictly_increasing(asn_values(r@)),
            forall|a: u32| asn_values(r@).contains(a) <==> targets@.contains(a) && (self.ranges().given(Family::V4).contains_key(a)
                || self.ranges().given(Family::V6).contains_key(a)),
    {
        let mut found: Vec<u32> = Vec::new();
        for t in it: targets.iter()
            invariant
                it.seq().unref().to_set() == targets@,
                forall|a: u32| found@.contains(a) <==> it.seq().take(it.index() as int).unref().contains(a) && (
                self.ranges().given(Family::V4).contains_key(a) || self.ranges().given(Family::V6).contains_key(a)),
                it.index() == it.seq().len() ==> forall|a: u32| found@.contains(a) <==> targets@.contains(a) && (
                self.ranges().given(Family::V4).contains_key(a) || self.ranges().given(Family::V6).contains_key(a)),
        {
            let ghost f0 = found@;
            let keep = self.ranges.contains(*t);
            if keep {
                found.push(*t);
            }
            proof {
                let s0 = it.seq().take(it.index() as int).unref();
                let s1 = it.seq().take(it.index() + 1).unref();
                assert(s1 =~= s0.push(*t));
                assert forall|a: u32| found@.contains(a) <==> s1.contains(a) && (self.ranges().given(Family::V4).contains_key(a)
                    || self.ranges().given(Family::V6).contains_key(a)) by {
                    if found@.contains(a) && a != *t {
                        let k = choose|k: int| 0 <= k < found@.len() && found@[k] == a;
                        assert(f0[k] == a);
                    }
                    if f0.contains(a) {
                        let k = choose|k: int| 0 <= k < f0.len() && f0[k] == a;
                        assert(found@[k] == a);
                    }
                    if s1.contains(a) && a != *t {
                        let k = choose|k: int| 0 <= k < s1.len() && s1[k] == a;
                        assert(s0[k] == a);
                    }
                    if s0.contains(a) {
                        let k = choose|k: int| 0 <= k < s0.len() && s0[k] == a;
                        assert(s1[k] == a);
                    }
                    if keep && a == *t {
                        assert(found@[f0.len() as int] == a);
                    }
                    assert(s1[s0.len() as int] == *t);
                }
                assert forall|a: u32| it.index() + 1 == it.seq().len() implies (found@.contains(a) <==> targets@.contains(a) && (
                self.ranges().given(Family::V4).contains_key(a) || self.ranges().given(Family::V6).contains_key(a))) by {
                    assert(s1 =~= it.seq().unref());
                    assert(it.seq().unref().to_set().contains(a) <==> it.seq().unref().contains(a));
                }
            }
        }
        let sorted = sorted_unique(found);
        let mut r: Vec<Asn> = Vec::new();
        let mut i: usize = 0;
        while i < sorted.len()
            invariant
                i <= sorted@.len(),
                asn_values(r@) =~= sorted@.take(i as int),
            decreases sorted.len() - i,
        {
            r.push(Asn(sorted[i]));
            proof {
                assert(sorted@.take(i + 1) =~= sorted@.take(i as int).push(sorted@[i as int]));
            }
            i = i + 1;
        }
        proof {
            assert(sorted@.take(sorted@.len() as int) =~= sorted@);
            assert forall|a: u32| asn_values(r@).contains(a) <==> sorted@.to_set().contains(a) by {}
        }
        r
    }

    /// The direct upstreams observed for each origin.
    pub fn direct_upstreams(&self) -> (r: &HashMap<u32, BTreeSet<u32>>)
        ensures
            r@.map_values(|s: BTreeSet<u32>| s@) == self.upstreams(),
    {
        &self.direct_upstreams
    }
}

/// A classification as plain values, as it is stored in a cache file.
pub struct ClassificationParts {
    pub ranges_v4: Vec<(u32, Vec<(u128, u8)>)>,
    pub ranges_v6: Vec<(u32, Vec<(u128, u8)>)>,
    pub announced_v4: Vec<(u128, u8)>,
    pub announced_v6: Vec<(u128, u8)>,
    pub direct_upstreams: Vec<(u32, Vec<u32>)>,
}

/// Each origin listed in `v` with the upstreams of its entries.
pub open spec fn upstreams_of_parts(v: Seq<(u32, Vec<u32>)>) -> Map<u32, Set<u32>> {
    Map::new(
        |o: u32| exists|i: int| 0 <= i < v.len() && #[trigger] v[i].0 == o,
        |o: u32| Set::new(|u: u32| exists|i: int| 0 <= i < v.len() && v[i].0 == o && #[trigger] v[i].1@.contains(u)),
    )
}

/// Every network of the parts is a prefix of its family.
pub open spec fn parts_valid(p: ClassificationParts) -> bool {
    &&& ranges_valid(Family::V4, p.ranges_v4@)
    &&& ranges_valid(Family::V6, p.ranges_v6@)
    &&& nets_valid(Family::V4, p.announced_v4@)
    &&& nets_valid(Family::V6, p.announced_v6@)
}

/// The parts hold what `c` answers: the addresses of each ASN, the announced
/// addresses, and the direct upstreams of each origin.
pub open spec fn describes(p: ClassificationParts, c: Classification) -> bool {
    &&& parts_valid(p)
    &&& ranges_of(Family::V4, p.ranges_v4@) == c.ranges().given(Family::V4)
    &&& ranges_of(Family::V6, p.ranges_v6@) == c.ranges().given(Family::V6)
    &&& nets_addresses(Family::V4, p.announced_v4@) == c.announced().addresses(Family::V4)
    &&& nets_addresses(Family::V6, p.announced_v6@) == c.announced().addresses(Family::V6)
    &&& upstreams_of_parts(p.direct_upstreams@) == c.upstreams()
}

/// A classification read back from its parts answers as the one they were
/// taken from: what the ASNs were given, what was announced, and the
/// direct upstreams.
pub proof fn law_parts_roundtrip(p: ClassificationParts, original: Classification, restored: Classification)
    requires
        describes(p, original),
        describes(p, restored),
    ensures
        forall|f: Family| #[trigger] restored.ranges().given(f) == original.ranges().given(f),
        forall|f: Family| #[trigger] restored.announced().addresses(f) == original.announced().addresses(f),
        restored.upstreams() == original.upstreams(),
{
    assert forall|f: Family| #[trigger] restored.ranges().given(f) == original.ranges().given(f) by {
        match f {
            Family::V4 => {},
            Family::V6 => {},
        }
    }
    assert forall|f: Family| #[trigger] restored.announced().addresses(f) == original.announced().addresses(f) by {
        match f {
            Family::V4 => {},
            Family::V6 => {},
        }
    }
}

impl Classification {
    /// The classification as plain values.
    pub fn to_parts(&self) -> (p: ClassificationParts)
        requires
            self.wf(),
        ensures
            describes(p, *self),
    {
        let (ranges_v4, ranges_v6) = self.ranges.to_parts();
        let (announced_v4, announced_v6) = self.announced.to_parts();
        let direct_upstreams = upstream_parts(&self.direct_upstreams);
        ClassificationParts { ranges_v4, ranges_v6, announced_v4, announced_v6, direct_upstreams }
    }

    /// The classification that `p` holds; `None` when some network of it is
    /// not a prefix of its family.
    pub fn from_parts(p: &ClassificationParts) -> (r: Option<Classification>)
        ensures
            r is Some <==> parts_valid(*p),
            r matches Some(c) ==> c.wf() && describes(*p, c),
    {
        let ranges = match AsnRanges::from_parts(&p.ranges_v4, &p.ranges_v6) {
            Some(x) => x,
            None => {
                return None;
            },
        };
        let announced = match IpRanges::from_parts(&p.announced_v4, &p.announced_v6) {
            Some(x) => x,
            None => {
                return None;
            },
        };
        let direct_upstreams = upstreams_from_parts(&p.direct_upstreams);
        Some(Classification { ranges, announced, direct_upstreams })
    }
}

/// The items of an upstream set.
fn upstream_items(s: &BTreeSet<u32>) -> (r: Vec<u32>)
    ensures
        r@.to_set() == s@,
{
    broadcast use vstd::std_specs::btree::group_btree_axioms, vstd::laws_cmp::group_laws_cmp;

    let mut r: Vec<u32> = Vec::new();
    for u in it: s.iter()
        invariant
            r@ == it.seq().take(it.index()).unref(),
            it.seq().unref().to_set() == s@,
            it.index() == it.seq().len() ==> r@.to_set() == s@,
    {
        r.push(*u);
        assert(r@ =~= it.seq().take(it.index() + 1).unref());
        assert(it.index() + 1 == it.seq().len() ==> it.seq().take(it.index() + 1) =~= it.seq());
        assert(it.index() + 1 == it.seq().len() ==> r@.to_set() =~= it.seq().unref().to_set());
    }
    r
}

/// The direct upstreams as plain values.
fn upstream_parts(m: &HashMap<u32, BTreeSet<u32>>) -> (r: Vec<(u32, Vec<u32>)>)
    ensures
        upstreams_of_parts(r@) == m@.map_values(|s: BTreeSet<u32>| s@),
{
    let ghost g = m@.map_values(|s: BTreeSet<u32>| s@);
    let mut r: Vec<(u32, Vec<u32>)> = Vec::new();
    for kv in it: m.iter()
        invariant
            g == m@.map_values(|s: BTreeSet<u32>| s@),
            forall|j: int| 0 <= j < it.seq().len() ==> m@.contains_key(*it.seq()[j].0) && m@[*it.seq()[j].0] == *it.seq()[j].1,
            forall|a: u32| #[trigger] m@.contains_key(a) ==> exists|j: int| 0 <= j < it.seq().len() && *it.seq()[j].0 == a,
            r@.len() == it.index(),
            forall|i: int| 0 <= i < r@.len() ==> r@[i].0 == *it.seq()[i].0,
            forall|i: int| 0 <= i < r@.len() ==> m@.contains_key((#[trigger] r@[i]).0) && r@[i].1@.to_set() == g[r@[i].0],
            it.index() == it.seq().len() ==> forall|a: u32| #[trigger] m@.contains_key(a) ==> exists|i: int| 0 <= i < r@.len() && r@[i].0 == a,
    {
        let (o, ups) = kv;
        let items = upstream_items(ups);
        let ghost r0 = r@;
        r.push((*o, items));
        proof {
            assert forall|i: int| 0 <= i < r@.len() implies m@.contains_key((#[trigger] r@[i]).0) && r@[i].1@.to_set() == g[r@[i].0] by {
                if i < r0.len() {
                    assert(r@[i] == r0[i]);
                }
            }
            assert forall|i: int| 0 <= i < r@.len() implies r@[i].0 == *it.seq()[i].0 by {
                if i < r0.len() {
                    assert(r@[i] == r0[i]);
                }
            }
            assert forall|a: u32| it.index() + 1 == it.seq().len() && #[trigger] m@.contains_key(a) implies exists|i: int| 0 <= i < r@.len() && r@[i].0 == a by {
                let j = choose|j: int| 0 <= j < it.seq().len() && *it.seq()[j].0 == a;
                assert(r@[j].0 == a);
            }
        }
    }
    proof {
        let ro = upstreams_of_parts(r@);
        assert forall|a: u32| #[trigger] ro.contains_key(a) <==> g.contains_key(a) by {
            if ro.contains_key(a) {
                let i = choose|i: int| 0 <= i < r@.len() && #[trigger] r@[i].0 == a;
                assert(m@.contains_key(r@[i].0));
            }
            if g.contains_key(a) {
                let i = choose|i: int| 0 <= i < r@.len() && r@[i].0 == a;
                assert(ro.contains_key(a));
            }
        }
        assert forall|a: u32| #[trigger] ro.contains_key(a) implies ro[a] == g[a] by {
            let i0 = choose|i: int| 0 <= i < r@.len() && #[trigger] r@[i].0 == a;
            assert forall|x: u32| ro[a].contains(x) <==> g[a].contains(x) by {
                if ro[a].contains(x) {
                    let i = choose|i: int| 0 <= i < r@.len() && r@[i].0 == a && #[trigger] r@[i].1@.contains(x);
                    assert(m@.contains_key(r@[i].0));
                    assert(r@[i].1@.to_set().contains(x));
                }
                if g[a].contains(x) {
                    assert(m@.contains_key(r@[i0].0));
                    assert(r@[i0].1@.to_set().contains(x));
                }
            }
            assert(ro[a] =~= g[a]);
        }
        assert(ro =~= g);
    }
    r
}

/// The direct upstreams of the parts `v`.
fn upstreams_from_parts(v: &Vec<(u32, Vec<u32>)>) -> (r: HashMap<u32, BTreeSet<u32>>)
    ensures
        r@.map_values(|s: BTreeSet<u32>| s@) == upstreams_of_parts(v@),
{
    let mut m: HashMap<u32, BTreeSet<u32>> = HashMap::new();
    let mut i: usize = 0;
    proof {
        assert(m@.map_values(|s: BTreeSet<u32>| s@) =~= upstreams_of_parts(v@.take(0)));
    }
    while i < v.len()
        invariant
            i <= v@.len(),
            m@.map_values(|s: BTreeSet<u32>| s@) == upstreams_of_parts(v@.take(i as int)),
        decreases v.len() - i,
    {
        let o = v[i].0;
        let ghost cur = m@.map_values(|s: BTreeSet<u32>| s@);
        let ghost raw = m@;
        let mut set = match m.remove(&o) {
            Some(s) => s,
            None => BTreeSet::new(),
        };
        let ghost prev = set@;
        proof {
            assert(prev == if cur.contains_key(o) { cur[o] } else { Set::<u32>::empty() });
        }
        let list = &v[i].1;
        let mut k: usize = 0;
        while k < list.len()
            invariant
                list@ == v@[i as int].1@,
                k <= v@[i as int].1@.len(),
                set@ == prev.union(v@[i as int].1@.take(k as int).to_set()),
            decreases list@.len() - k,
        {
            let u = list[k];
            insert_upstream(&mut set, u);
            proof {
                let t0 = v@[i as int].1@.take(k as int);
                let t1 = v@[i as int].1@.take(k + 1);
                assert(t1 =~= t0.push(u));
                assert forall|x: u32| t1.contains(x) <==> t0.contains(x) || x == u by {
                    if t1.contains(x) {
                        let j = choose|j: int| 0 <= j < t1.len() && t1[j] == x;
                        if j < t0.len() {
                            assert(t0[j] == x);
                        }
                    }
                    if t0.contains(x) {
                        let j = choose|j: int| 0 <= j < t0.len() && t0[j] == x;
                        assert(t1[j] == x);
                    }
                    if x == u {
                        assert(t1[t0.len() as int] == x);
                    }
                }
                assert(set@ =~= prev.union(t1.to_set()));
            }
            k = k + 1;
        }
        proof {
            assert(v@[i as int].1@.take(v@[i as int].1@.len() as int) =~= v@[i as int].1@);
        }
        m.insert(o, set);
        proof {
            let t0 = v@.take(i as int);
            let t1 = v@.take(i + 1);
            let next = upstreams_of_parts(t1);
            let now = m@.map_values(|s: BTreeSet<u32>| s@);
            assert(t1 =~= t0.push(v@[i as int]));
            assert(m@.dom() =~= raw.dom().insert(o));
            assert forall|a: u32| #[trigger] now.contains_key(a) <==> next.contains_key(a) by {
                if a != o {
                    assert(now.contains_key(a) == raw.contains_key(a));
                    if next.contains_key(a) {
                        let j = choose|j: int| 0 <= j < t1.len() && #[trigger] t1[j].0 == a;
                        assert(t0[j].0 == a);
                    }
                    if cur.contains_key(a) {
                        let j = choose|j: int| 0 <= j < t0.len() && #[trigger] t0[j].0 == a;
                        assert(t1[j].0 == a);
                    }
                } else {
                    assert(t1[i as int].0 == o);
                }
            }
            assert forall|a: u32| #[trigger] now.contains_key(a) implies now[a] == next[a] by {
                assert forall|x: u32| now[a].contains(x) <==> next[a].contains(x) by {
                    if a == o {
                        if next[a].contains(x) {
                            let j = choose|j: int| 0 <= j < t1.len() && t1[j].0 == a && #[trigger] t1[j].1@.contains(x);
                            if j < i {
                                assert(t0[j] == t1[j]);
                                assert(cur.contains_key(a));
                                assert(cur[a].contains(x));
                            } else {
                                assert(v@[i as int].1@.to_set().contains(x));
                            }
                        }
                        if now[a].contains(x) {
                            if prev.contains(x) {
                                let j = choose|j: int| 0 <= j < t0.len() && t0[j].0 == a && #[trigger] t0[j].1@.contains(x);
                                assert(t1[j] == t0[j]);
                            } else {
                                assert(t1[i as int].1@.contains(x));
                            }
                        }
                    } else {
                        assert(now[a] == cur[a]);
                        if next[a].contains(x) {
                            let j = choose|j: int| 0 <= j < t1.len() && t1[j].0 == a && #[trigger] t1[j].1@.contains(x);
                            assert(j < i);
                            assert(t0[j] == t1[j]);
                        }
                        if cur[a].contains(x) {
                            let j = choose|j: int| 0 <= j < t0.len() && t0[j].0 == a && #[trigger] t0[j].1@.contains(x);
                            assert(t1[j] == t0[j]);
                        }
                    }
                }
                assert(now[a] =~= next[a]);
            }
            assert(now =~= next);
        }
        i = i + 1;
    }
    proof {
        assert(v@.take(v@.len() as int) =~= v@);
    }
    m
}

/// Adds every ASN of `other` to `set`.
fn union_into(set: &mut HashSet<u32>, other: &HashSet<u32>)
    ensures
        final(set)@ == old(set)@.union(other@),
{
    let ghost s0 = set@;
    for a in it: other.iter()
        invariant
            it.seq().unref().to_set() == other@,
            set@ == s0.union(it.seq().take(it.index() as int).unref().to_set()),
            it.index() == it.seq().len() ==> set@ == s0.union(other@),
    {
        set.insert(*a);
        proof {
            let t0 = it.seq().take(it.index() as int).unref();
            let t1 = it.seq().take(it.index() + 1).unref();
            assert(t1 =~= t0.push(*a));
            assert forall|x: u32| t1.to_set().contains(x) <==> t0.to_set().insert(*a).contains(x) by {
                if t1.contains(x) {
                    let k = choose|k: int| 0 <= k < t1.len() && t1[k] == x;
                    if k < t0.len() {
                        assert(t0[k] == x);
                    }
                }
                if t0.contains(x) {
                    let k = choose|k: int| 0 <= k < t0.len() && t0[k] == x;
                    assert(t1[k] == x);
                }
                if x == *a {
                    assert(t1[t0.len() as int] == x);
                }
            }
            assert(set@ =~= s0.union(t1.to_set()));
            assert(it.index() + 1 == it.seq().len() ==> it.seq().take(it.index() + 1) =~= it.seq());
        }
    }
}

/// Adds the upstreams of `other` to those of `m`, origin by origin.
fn merge_upstreams(m: &mut HashMap<u32, BTreeSet<u32>>, other: &HashMap<u32, BTreeSet<u32>>)
    ensures
        final(m)@.map_values(|s: BTreeSet<u32>| s@) == union_upstreams(
            old(m)@.map_values(|s: BTreeSet<u32>| s@),
            other@.map_values(|s: BTreeSet<u32>| s@),
        ),
{
    let ghost m0 = m@.map_values(|s: BTreeSet<u32>| s@);
    let ghost ov = other@.map_values(|s: BTreeSet<u32>| s@);
    proof {
        lemma_union_nothing(m0);
    }
    for kv in it: other.iter()
        invariant
            ov == other@.map_values(|s: BTreeSet<u32>| s@),
            it.seq().no_duplicates(),
            forall|d: Map<u32, Set<u32>>| #[trigger] union_upstreams(m0, d) == m0 <== d.dom().is_empty(),
            forall|j: int| 0 <= j < it.seq().len() ==> other@.contains_key(*it.seq()[j].0) && other@[*it.seq()[j].0] == *it.seq()[j].1,
            forall|o: u32| #[trigger] other@.contains_key(o) ==> exists|j: int| 0 <= j < it.seq().len() && *it.seq()[j].0 == o,
            m@.map_values(|s: BTreeSet<u32>| s@) == union_upstreams(m0, Map::new(
                |o: u32| key_seen(it.seq(), it.index() as int, o),
                |o: u32| ov[o],
            )),
            it.index() == it.seq().len() ==> m@.map_values(|s: BTreeSet<u32>| s@) == union_upstreams(m0, ov),
    {
        let (o, set) = kv;
        let ghost cur = m@.map_values(|s: BTreeSet<u32>| s@);
        let ghost raw = m@;
        let ghost idx = it.index() as int;
        let mut merged_set = match m.remove(o) {
            Some(s) => s,
            None => BTreeSet::new(),
        };
        let ghost prev = merged_set@;
        insert_upstreams(&mut merged_set, set);
        m.insert(*o, merged_set);
        proof {
            let d0 = Map::new(|x: u32| key_seen(it.seq(), idx, x), |x: u32| ov[x]);
            let d1 = Map::new(|x: u32| key_seen(it.seq(), idx + 1, x), |x: u32| ov[x]);
            assert(*it.seq()[idx].0 == *o);
            assert(other@.contains_key(*o) && other@[*o] == *set);
            assert(ov[*o] == set@);
            assert forall|x: u32| key_seen(it.seq(), idx + 1, x) <==> key_seen(it.seq(), idx, x) || x == *o by {
                if key_seen(it.seq(), idx + 1, x) {
                    let j = choose|j: int| 0 <= j < idx + 1 && *it.seq()[j].0 == x;
                    if j < idx {
                        assert(key_seen(it.seq(), idx, x));
                    }
                }
                if key_seen(it.seq(), idx, x) {
                    let j = choose|j: int| 0 <= j < idx && *it.seq()[j].0 == x;
                    assert(0 <= j < idx + 1);
                }
                if x == *o {
                    assert(0 <= idx < idx + 1);
                }
            }
            assert(m@.dom() =~= raw.dom().insert(*o));
            let next = union_upstreams(m0, d1);
            let now = m@.map_values(|s: BTreeSet<u32>| s@);
            assert forall|x: u32| #[trigger] now.contains_key(x) <==> next.contains_key(x) by {
                if x != *o {
                    assert(now.contains_key(x) == raw.contains_key(x));
                    assert(cur.contains_key(x) == raw.contains_key(x));
                }
            }
            assert forall|x: u32| #[trigger] now.contains_key(x) implies now[x] == next[x] by {
                if x == *o {
                    assert(now[x] == prev.union(set@));
                    assert(prev == upstreams_of(cur, *o));
                    if key_seen(it.seq(), idx, *o) {
                        let j = choose|j: int| 0 <= j < idx && *it.seq()[j].0 == *o;
                        assert(it.seq()[j] == it.seq()[idx]);
                    }
                    assert(!key_seen(it.seq(), idx, *o));
                    assert(upstreams_of(cur, *o) =~= upstreams_of(m0, *o));
                    assert(now[x] =~= next[x]);
                } else {
                    assert(now[x] == cur[x]);
                    assert(upstreams_of(d1, x) == upstreams_of(d0, x));
                }
            }
            assert(now =~= next);
            assert forall|x: u32| it.index() + 1 == it.seq().len() implies (key_seen(it.seq(), idx + 1, x) <==> other@.contains_key(x)) by {
                if other@.contains_key(x) {
                    let j = choose|j: int| 0 <= j < it.seq().len() && *it.seq()[j].0 == x;
                }
            }
            assert(it.index() + 1 == it.seq().len() ==> d1 =~= ov);
        }
    }
}

proof fn lemma_union_nothing(m: Map<u32, Set<u32>>)
    ensures
        forall|d: Map<u32, Set<u32>>| #[trigger] union_upstreams(m, d) == m <== d.dom().is_empty(),
{
    assert forall|d: Map<u32, Set<u32>>| d.dom().is_empty() implies #[trigger] union_upstreams(m, d) == m by {
        let u = union_upstreams(m, d);
        assert forall|o: u32| #[trigger] u.contains_key(o) implies u[o] == m[o] by {
            assert(!d.contains_key(o));
            assert(u[o] =~= m[o]);
        }
        assert(u =~= m);
    }
}

spec fn key_seen(s: Seq<(&u32, &BTreeSet<u32>)>, n: int, o: u32) -> bool {
    exists|j: int| 0 <= j < n && *s[j].0 == o
}

/// Adds every upstream of `other` to `s`.
fn insert_upstreams(s: &mut BTreeSet<u32>, other: &BTreeSet<u32>)
    ensures
        final(s)@ == old(s)@.union(other@),
{
    broadcast use vstd::std_specs::btree::group_btree_axioms, vstd::laws_cmp::group_laws_cmp;

    let ghost s0 = s@;
    for u in it: other.iter()
        invariant
            it.seq().unref().to_set() == other@,
            s@ == s0.union(it.seq().take(it.index()).unref().to_set()),
            it.index() == it.seq().len() ==> s@ == s0.union(other@),
    {
        s.insert(*u);
        proof {
            let t0 = it.seq().take(it.index()).unref();
            let t1 = it.seq().take(it.index() + 1).unref();
            assert(t1 =~= t0.push(*u));
            assert forall|x: u32| t1.to_set().contains(x) <==> t0.to_set().insert(*u).contains(x) by {
                if t1.contains(x) {
                    let k = choose|k: int| 0 <= k < t1.len() && t1[k] == x;
                    if k < t0.len() {
                        assert(t0[k] == x);
                    }
                }
                if t0.contains(x) {
                    let k = choose|k: int| 0 <= k < t0.len() && t0[k] == x;
                    assert(t1[k] == x);
                }
                if x == *u {
                    assert(t1.last() == x);
                }
            }
            assert(s@ =~= s0.union(t1.to_set()));
            assert(it.index() + 1 == it.seq().len() ==> it.seq().take(it.index() + 1) =~= it.seq());
        }
    }
}

/// All entries of `files`, file after file.
pub open spec fn all_entries(files: Seq<Seq<RibEntry>>) -> Seq<RibEntry>
    decreases files.len(),
{
    if files.len() == 0 {
        Seq::empty()
    } else {
        all_entries(files.drop_last()) + files.last()
    }
}

/// A table with each prefix's origins reduced to those `allowed` keeps.
pub open spec fn filtered(t: TableModel, allowed: Option<Set<u32>>) -> TableModel {
    (t.0.map_values(|s: Set<u32>| kept(s, allowed)), t.1, t.2, t.3)
}

/// Merging into a table and then reading an entry gives what reading the
/// entry and then merging gives.
proof fn lemma_step_merge(a: TableModel, b: TableModel, e: RibEntry, config: ClassifierConfig)
    ensures
        merge_model(a, table_step(b, e, config), None) == table_step(merge_model(a, b, None), e, config),
{
    let f = e.prefix.family;
    let lhs = merge_model(a, table_step(b, e, config), None);
    let rhs = table_step(merge_model(a, b, None), e, config);
    assert(lhs.1 =~= rhs.1);
    if recorded(e, config) {
        let key = prefix_key(f, e.prefix.addr as int, e.prefix.len as nat);
        let origins = entry_origins(e);
        assert forall|k: (int, nat)| #[trigger] lhs.0.contains_key(k) implies lhs.0[k] == rhs.0[k] by {
            assert(lhs.0[k] =~= rhs.0[k]);
        }
        assert(lhs.0 =~= rhs.0);
        assert(lhs.3 =~= rhs.3);
        match entry_path(e) {
            Some(p) => {
                if !config.origin_only {
                    let keys = path_keys(network_of(f, e.prefix.addr as int, e.prefix.len as nat) as u128, e.prefix.len as nat, origins);
                    let q = normalized(p);
                    assert forall|k: (u128, u64)| #[trigger] lhs.2.contains_key(k) implies lhs.2[k] == rhs.2[k] by {
                        if keys.contains(k) {
                            if a.2.contains_key(k) && b.2.contains_key(k) {
                                crate::path::law_common_suffix_associates(a.2[k], b.2[k], q);
                            }
                        }
                    }
                    assert(lhs.2 =~= rhs.2);
                }
            },
            None => {},
        }
    } else {
        assert(lhs.0 =~= rhs.0);
    }
}

/// Merging an empty table changes nothing.
proof fn lemma_merge_empty(a: TableModel)
    ensures
        merge_model(a, empty_model(), None) == a,
{
    let m = merge_model(a, empty_model(), None);
    assert forall|k: (int, nat)| #[trigger] m.0.contains_key(k) implies m.0[k] == a.0[k] by {
        assert(m.0[k] =~= a.0[k]);
    }
    assert(m.0 =~= a.0);
    assert(m.1 =~= a.1);
    assert(m.2 =~= a.2);
    assert(m.3 =~= a.3);
}


/// Two entries that differ only in their paths.
pub open spec fn same_but_path(e1: RibEntry, e2: RibEntry) -> bool {
    e1.announce == e2.announce && e1.prefix == e2.prefix && e1.origins == e2.origins
}

/// The suffix keys that an entry's path is kept under.
pub open spec fn entry_keys(e: RibEntry) -> Set<(u128, u64)> {
    path_keys(
        network_of(e.prefix.family, e.prefix.addr as int, e.prefix.len as nat) as u128,
        e.prefix.len as nat,
        entry_origins(e),
    )
}

/// Repeating a hop of an entry's path, as origin prepending does, changes
/// nothing that the entry does to the table or to the direct upstreams.
pub proof fn law_repeated_hop_changes_nothing(
    t: TableModel,
    m: Map<u32, Set<u32>>,
    e1: RibEntry,
    e2: RibEntry,
    config: ClassifierConfig,
    p: Seq<u32>,
    i: int,
)
    requires
        same_but_path(e1, e2),
        0 <= i < p.len(),
        entry_path(e1) == Some(p),
        entry_path(e2) == Some(p.insert(i, p[i])),
    ensures
        table_step(t, e2, config) == table_step(t, e1, config),
        upstream_step(m, e2, config) == upstream_step(m, e1, config),
{
    law_normalized_ignores_repeated_hop(p, i);
    assert(entry_origins(e1) == entry_origins(e2));
    assert(recorded(e1, config) == recorded(e2, config));
}

/// Hops beyond the four nearest the origin, on a path without repeated
/// neighbours, change nothing that the entry does.
pub proof fn law_far_hops_change_nothing(
    t: TableModel,
    m: Map<u32, Set<u32>>,
    e1: RibEntry,
    e2: RibEntry,
    config: ClassifierConfig,
    p: Seq<u32>,
)
    requires
        same_but_path(e1, e2),
        no_repeats(p),
        p.len() > 4,
        entry_path(e1) == Some(p),
        entry_path(e2) == Some(p.skip(1)),
    ensures
        table_step(t, e2, config) == table_step(t, e1, config),
        upstream_step(m, e2, config) == upstream_step(m, e1, config),
{
    let q = p.skip(1);
    assert forall|j: int| 0 <= j < q.len() - 1 implies #[trigger] q[j] != q[j + 1] by {
        assert(p[j + 1] != p[j + 2]);
    }
    law_normalized_without_repeats(p);
    law_normalized_without_repeats(q);
    if q.len() > 4 {
        assert(q.skip(q.len() - 4) =~= p.skip(p.len() - 4));
    } else {
        assert(q =~= p.skip(p.len() - 4));
    }
    assert(entry_origins(e1) == entry_origins(e2));
    assert(recorded(e1, config) == recorded(e2, config));
}

/// Reading a recorded entry whose path has no repeated neighbours and at
/// most four hops keeps, under each of its keys, the path itself where the
/// key is new, and otherwise the longest common suffix of the path and
/// what was kept.
pub proof fn law_short_path_suffix(t: TableModel, e: RibEntry, config: ClassifierConfig, p: Seq<u32>, k: (u128, u64))
    requires
        recorded(e, config),
        !config.origin_only,
        entry_path(e) == Some(p),
        no_repeats(p),
        p.len() <= 4,
        entry_keys(e).contains(k),
    ensures
        table_step(t, e, config).2.contains_key(k),
        table_step(t, e, config).2[k] == if t.2.contains_key(k) { common_suffix(t.2[k], p) } else { p },
        forall|k2: (u128, u64)| t.2.contains_key(k2) && !entry_keys(e).contains(k2) ==> #[trigger] table_step(t, e, config).2[k2] == t.2[k2],
{
    law_normalized_without_repeats(p);
}

/// Every suffix kept after reading any entries has at most four ASNs.
pub proof fn law_kept_suffixes_capped(entries: Seq<RibEntry>, config: ClassifierConfig, f: Family)
    ensures
        forall|k: (u128, u64)| #[trigger] observed_table(entries, config, f).2.contains_key(k)
            ==> observed_table(entries, config, f).2[k].len() <= 4,
    decreases entries.len(),
{
    if entries.len() > 0 {
        let init = entries.drop_last();
        let e = entries.last();
        law_kept_suffixes_capped(init, config, f);
        let t = observed_table(init, config, f);
        if e.prefix.family == f && recorded(e, config) && !config.origin_only && entry_path(e) is Some {
            let np = normalized(entry_path(e)->0);
            law_normalized_capped(entry_path(e)->0);
            assert forall|k: (u128, u64)| #[trigger] table_step(t, e, config).2.contains_key(k)
                implies table_step(t, e, config).2[k].len() <= 4 by {
                if entry_keys(e).contains(k) && t.2.contains_key(k) {
                    lemma_common_suffix_ends_both(t.2[k], np);
                }
            }
        }
    }
}

/// The direct upstream of an origin is the hop right before the origin,
/// however often the origin is prepended, unless that hop is private.
pub proof fn law_direct_upstream_is_hop_before_origin(p: Seq<u32>, u: u32, a: u32, k: nat)
    requires
        u != a,
        k >= 1,
    ensures
        direct_upstream(p.push(u) + run_of(a, k)) == if private_asn(u) { None::<u32> } else { Some(u) },
{
    law_normalized_keeps_hop_before_origin(p, u, a, k);
}

/// A path made of the origin alone, however often prepended, shows no
/// upstream.
pub proof fn law_origin_alone_has_no_upstream(a: u32, k: nat)
    requires
        k >= 1,
    ensures
        direct_upstream(run_of(a, k)) is None,
{
    law_normalized_origin_alone(a, k);
}

/// Reading a recorded entry whose path ends with a public hop `u` and then
/// the origin `a` (possibly prepended) gives each of the entry's origins
/// the upstream `u`, and keeps every upstream seen before.
pub proof fn law_upstream_step_records_hop_before_origin(
    m: Map<u32, Set<u32>>,
    e: RibEntry,
    config: ClassifierConfig,
    p: Seq<u32>,
    u: u32,
    a: u32,
    k: nat,
)
    requires
        recorded(e, config),
        u != a,
        k >= 1,
        !private_asn(u),
        entry_path(e) == Some(p.push(u) + run_of(a, k)),
    ensures
        forall|o: u32| #[trigger] entry_origins(e).contains(o) ==> upstream_step(m, e, config).contains_key(o)
            && upstream_step(m, e, config)[o].contains(u),
        forall|o: u32| #[trigger] m.contains_key(o) ==> upstream_step(m, e, config).contains_key(o)
            && m[o].subset_of(upstream_step(m, e, config)[o]),
{
    law_direct_upstream_is_hop_before_origin(p, u, a, k);
}

/// With a domestic policy, the merge keeps exactly the origins that some
/// file, whichever it is, shows reaching China through trusted transit;
/// without one it keeps every origin.
pub proof fn law_allowed_origins_of_any_file(ps: Seq<ParsedMrtData>, policy: &DomesticPolicy)
    ensures
        build_allowed(ps, None) is None,
        build_allowed(ps, Some(policy)) is Some,
        forall|o: u32| #[trigger] build_allowed(ps, Some(policy))->0.contains(o)
            <==> exists|i: int| 0 <= i < ps.len() && ps[i].domestic().contains(o),
    decreases ps.len(),
{
    if ps.len() > 0 {
        let init = ps.drop_last();
        law_allowed_origins_of_any_file(init, policy);
        assert forall|o: u32| #[trigger] build_allowed(ps, Some(policy))->0.contains(o)
            <==> exists|i: int| 0 <= i < ps.len() && ps[i].domestic().contains(o) by {
            if build_allowed(init, Some(policy))->0.contains(o) {
                let i = choose|i: int| 0 <= i < init.len() && init[i].domestic().contains(o);
                assert(ps[i] == init[i]);
            }
            if exists|i: int| 0 <= i < ps.len() && ps[i].domestic().contains(o) {
                let i = choose|i: int| 0 <= i < ps.len() && ps[i].domestic().contains(o);
                if i < ps.len() - 1 {
                    assert(init[i] == ps[i]);
                }
            }
        }
    }
}

/// Reading two lists of entries one after the other gives the merge of
/// reading each on its own.
pub proof fn law_split_reading(e1: Seq<RibEntry>, e2: Seq<RibEntry>, config: ClassifierConfig, f: Family)
    ensures
        observed_table(e1 + e2, config, f) == merge_model(observed_table(e1, config, f), observed_table(e2, config, f), None),
    decreases e2.len(),
{
    if e2.len() == 0 {
        assert(e1 + e2 =~= e1);
        lemma_merge_empty(observed_table(e1, config, f));
    } else {
        law_split_reading(e1, e2.drop_last(), config, f);
        assert((e1 + e2).drop_last() =~= e1 + e2.drop_last());
        assert((e1 + e2).last() == e2.last());
        if e2.last().prefix.family == f {
            lemma_step_merge(observed_table(e1, config, f), observed_table(e2.drop_last(), config, f), e2.last(), config);
        }
    }
}

/// Merging a table into one whose origins were filtered, filtering the
/// merged origins, is filtering the merge.
proof fn lemma_merge_filtered(x: TableModel, t: TableModel, allowed: Option<Set<u32>>)
    ensures
        merge_model(filtered(x, allowed), t, allowed) == filtered(merge_model(x, t, None), allowed),
{
    let l = merge_model(filtered(x, allowed), t, allowed);
    let r = filtered(merge_model(x, t, None), allowed);
    assert forall|k: (int, nat)| #[trigger] l.0.contains_key(k) implies l.0[k] == r.0[k] by {
        assert(l.0[k] =~= r.0[k]);
    }
    assert(l.0 =~= r.0);
}

/// Merging the tables of several RIB files, each read on its own, gives the
/// table of reading all their entries, with the origins that `allowed`
/// keeps: spreading the same routes over files does not change the
/// classification.
pub proof fn law_files_merge_to_all(ps: Seq<ParsedMrtData>, files: Seq<Seq<RibEntry>>, config: ClassifierConfig, f: Family, allowed: Option<Set<u32>>)
    requires
        ps.len() == files.len(),
        forall|i: int| 0 <= i < ps.len() ==> #[trigger] ps[i].table_model(f) == observed_table(files[i], config, f),
    ensures
        combined_table(ps, f, allowed) == filtered(observed_table(all_entries(files), config, f), allowed),
    decreases ps.len(),
{
    if ps.len() == 0 {
        let e = filtered(empty_model(), allowed);
        assert(e.0 =~= Map::<(int, nat), Set<u32>>::empty());
        assert(e == empty_model());
    } else {
        let n = ps.len() - 1;
        assert forall|i: int| 0 <= i < ps.drop_last().len() implies #[trigger] ps.drop_last()[i].table_model(f) == observed_table(
            files.drop_last()[i],
            config,
            f,
        ) by {
            assert(ps.drop_last()[i] == ps[i]);
            assert(files.drop_last()[i] == files[i]);
        }
        law_files_merge_to_all(ps.drop_last(), files.drop_last(), config, f, allowed);
        assert(ps.last().table_model(f) == observed_table(files.last(), config, f)) by {
            assert(ps[n].table_model(f) == observed_table(files[n], config, f));
        }
        law_split_reading(all_entries(files.drop_last()), files.last(), config, f);
        lemma_merge_filtered(observed_table(all_entries(files.drop_last()), config, f), observed_table(files.last(), config, f), allowed);
    }
}

/// The model of an empty table.
pub open spec fn empty_model() -> TableModel {
    (Map::empty(), Set::empty(), Map::empty(), Set::empty())
}

/// The numbers of `origins`, as a set and as a list.
fn origin_values(origins: &Vec<Asn>) -> (r: (HashSet<u32>, Vec<u32>))
    ensures
        r.0@ == asn_values(origins@).to_set(),
        r.1@ == asn_values(origins@),
{
    let mut set: HashSet<u32> = HashSet::new();
    let mut list: Vec<u32> = Vec::new();
    let mut i: usize = 0;
    while i < origins.len()
        invariant
            i <= origins@.len(),
            list@ == asn_values(origins@.take(i as int)),
            set@ == list@.to_set(),
        decreases origins.len() - i,
    {
        let a = origins[i].0;
        let ghost l0 = list@;
        set.insert(a);
        list.push(a);
        proof {
            assert(asn_values(origins@.take(i + 1)) =~= asn_values(origins@.take(i as int)).push(a));
            assert forall|x: u32| list@.contains(x) <==> l0.contains(x) || x == a by {
                if list@.contains(x) {
                    let k = choose|k: int| 0 <= k < list@.len() && list@[k] == x;
                    if k < l0.len() {
                        assert(l0[k] == x);
                    }
                }
                if l0.contains(x) {
                    let k = choose|k: int| 0 <= k < l0.len() && l0[k] == x;
                    assert(list@[k] == x);
                }
                if x == a {
                    assert(list@[l0.len() as int] == x);
                }
            }
            assert(set@ =~= list@.to_set());
        }
        i = i + 1;
    }
    proof {
        assert(origins@.take(origins@.len() as int) =~= origins@);
    }
    (set, list)
}

/// Whether some ASN of `origins` is private.
fn any_private(origins: &Vec<Asn>) -> (r: bool)
    ensures
        r == exists|a: Asn| origins@.contains(a) && private_asn(a.0),
{
    let mut i: usize = 0;
    while i < origins.len()
        invariant
            i <= origins@.len(),
            forall|k: int| 0 <= k < i ==> !private_asn(#[trigger] origins@[k].0),
        decreases origins.len() - i,
    {
        if origins[i].is_private() {
            proof {
                assert(origins@.contains(origins@[i as int]));
            }
            return true;
        }
        i = i + 1;
    }
    proof {
        assert forall|a: Asn| origins@.contains(a) implies !private_asn(a.0) by {
            let k = choose|k: int| 0 <= k < origins@.len() && origins@[k] == a;
        }
    }
    false
}

/// Adds each ASN of `list` to `set`.
fn add_all_origins(set: &mut HashSet<u32>, list: &Vec<u32>)
    ensures
        final(set)@ == old(set)@.union(list@.to_set()),
{
    let ghost s0 = set@;
    let mut i: usize = 0;
    while i < list.len()
        invariant
            i <= list@.len(),
            set@ == s0.union(list@.take(i as int).to_set()),
        decreases list.len() - i,
    {
        set.insert(list[i]);
        proof {
            let t0 = list@.take(i as int);
            let t1 = list@.take(i + 1);
            assert(t1 =~= t0.push(list@[i as int]));
            assert forall|x: u32| t1.contains(x) <==> t0.contains(x) || x == list@[i as int] by {
                if t1.contains(x) {
                    let k = choose|k: int| 0 <= k < t1.len() && t1[k] == x;
                    if k < t0.len() {
                        assert(t0[k] == x);
                    }
                }
                if t0.contains(x) {
                    let k = choose|k: int| 0 <= k < t0.len() && t0[k] == x;
                    assert(t1[k] == x);
                }
                if x == list@[i as int] {
                    assert(t1[t0.len() as int] == x);
                }
            }
            assert(set@ =~= s0.union(t1.to_set()));
        }
        i = i + 1;
    }
    proof {
        assert(list@.take(list@.len() as int) =~= list@);
    }
}

/// Adds one upstream to a set of them.
fn insert_upstream(s: &mut BTreeSet<u32>, up: u32)
    ensures
        final(s)@ == old(s)@.insert(up),
{
    broadcast use vstd::std_specs::btree::group_btree_axioms, vstd::laws_cmp::group_laws_cmp;

    s.insert(up);
}

/// Records `up` as a direct upstream of each ASN of `origins`.
fn add_upstream_to(m: &mut HashMap<u32, BTreeSet<u32>>, origins: &Vec<u32>, up: u32)
    ensures
        final(m)@.map_values(|s: BTreeSet<u32>| s@) == add_upstream(
            old(m)@.map_values(|s: BTreeSet<u32>| s@),
            origins@.to_set(),
            up,
        ),
{
    let ghost m0 = m@.map_values(|s: BTreeSet<u32>| s@);
    let mut i: usize = 0;
    while i < origins.len()
        invariant
            i <= origins@.len(),
            m@.map_values(|s: BTreeSet<u32>| s@) == add_upstream(m0, origins@.take(i as int).to_set(), up),
        decreases origins.len() - i,
    {
        let o = origins[i];
        let ghost cur = m@.map_values(|s: BTreeSet<u32>| s@);
        let ghost raw = m@;
        let mut ups = match m.remove(&o) {
            Some(s) => s,
            None => BTreeSet::new(),
        };
        let ghost prev = ups@;
        proof {
            assert(prev == if cur.contains_key(o) { cur[o] } else { Set::<u32>::empty() });
        }
        insert_upstream(&mut ups, up);
        m.insert(o, ups);
        proof {
            let t0 = origins@.take(i as int);
            let t1 = origins@.take(i + 1);
            assert(t1 =~= t0.push(o));
            assert forall|x: u32| t1.contains(x) <==> t0.contains(x) || x == o by {
                if t1.contains(x) {
                    let k = choose|k: int| 0 <= k < t1.len() && t1[k] == x;
                    if k < t0.len() {
                        assert(t0[k] == x);
                    }
                }
                if t0.contains(x) {
                    let k = choose|k: int| 0 <= k < t0.len() && t0[k] == x;
                    assert(t1[k] == x);
                }
                if x == o {
                    assert(t1[t0.len() as int] == x);
                }
            }
            let next = add_upstream(m0, t1.to_set(), up);
            let now = m@.map_values(|s: BTreeSet<u32>| s@);
            let c0 = add_upstream(m0, t0.to_set(), up);
            assert(cur == c0);
            assert(m@.dom() =~= raw.dom().insert(o));
            assert forall|x: u32| #[trigger] now.contains_key(x) <==> next.contains_key(x) by {
                if x != o {
                    assert(t1.to_set().contains(x) == t0.to_set().contains(x));
                    assert(now.contains_key(x) == m@.contains_key(x));
                    assert(cur.contains_key(x) == raw.contains_key(x));
                } else {
                    assert(t1.to_set().contains(o));
                }
            }
            assert forall|x: u32| #[trigger] now.contains_key(x) implies now[x] == next[x] by {
                if x == o {
                    assert(now[x] == prev.insert(up));
                    let base = if m0.contains_key(o) { m0[o] } else { Set::<u32>::empty() };
                    assert(next[x] == base.insert(up));
                    if t0.to_set().contains(o) {
                        assert(cur[o] == base.insert(up));
                        assert(prev.insert(up) =~= base.insert(up));
                    } else {
                        assert(prev =~= base);
                    }
                } else {
                    assert(t1.to_set().contains(x) == t0.to_set().contains(x));
                    assert(now[x] == cur[x]);
                }
            }
            assert(now =~= next);
        }
        i = i + 1;
    }
    proof {
        assert(origins@.take(origins@.len() as int) =~= origins@);
    }
}

} // verus!
