//! Autonomous system numbers, the ASN country table, the trusted domestic
//! transit policy and the foreign-upstream filter.
use std::collections::{BTreeSet, HashMap, HashSet};
use vstd::prelude::*;
use vstd::std_specs::hash::group_hash_axioms;
use crate::text::{
    utf8_len, utf8_len_is,
    trim_start,
    IntParseError, ascii_upper, ascii_uppercase, chars_of, first_word, first_word_bounds, int_error_text,
    last_index, last_index_of, parse_u32, parse_u32_at, trim, trim_end, trimmed_end, trimmed_start,
};
use crate::failure::{failure, FailureKind, LineSource, ReadError};
use crate::order::{sort_by_asn, sorted_unique, strictly_increasing, nondecreasing, digest_policy};

verus! {

broadcast use group_hash_axioms;

/// An autonomous system number.
#[derive(Clone, Copy, Debug, PartialEq, Eq, Structural, Hash)]
pub struct Asn(pub u32);

/// Whether a number lies in one of the two private-use ASN ranges.
pub open spec fn private_asn(n: u32) -> bool {
    (64512 <= n <= 65534) || (4_200_000_000 <= n <= 4_294_967_294)
}

impl Asn {
    /// True for the private-use ranges 64512..=65534 and 4200000000..=4294967294.
    pub fn is_private(self) -> (r: bool)
        ensures
            r == private_asn(self.0),
    {
        (64512 <= self.0 && self.0 <= 65534) || (4_200_000_000 <= self.0 && self.0 <= 4_294_967_294)
    }

    /// Reads an ASN written in decimal, as `u32::from_str` does.
    pub fn parse(s: &str) -> (r: Result<Asn, IntParseError>)
        ensures
            r == match parse_u32(s@) {
                Ok(v) => Ok(Asn(v)),
                Err(e) => Err(e),
            },
    {
        let cs = chars_of(s);
        proof {
            assert(cs@.subrange(0, cs@.len() as int) =~= cs@);
        }
        match parse_u32_at(&cs, 0, cs.len()) {
            Ok(v) => Ok(Asn(v)),
            Err(e) => Err(e),
        }
    }

    /// The number itself.
    pub fn value(self) -> (r: u32)
        ensures
            r == self.0,
    {
        self.0
    }
}

impl From<u32> for Asn {
    fn from(value: u32) -> (r: Self) {
        Asn(value)
    }
}

impl std::str::FromStr for Asn {
    type Err = String;

    /// Reads an ASN written in decimal; the error is std's message.
    fn from_str(value: &str) -> (r: Result<Asn, String>)
        ensures
            match parse_u32(value@) {
                Ok(v) => r == Ok::<Asn, String>(Asn(v)),
                Err(e) => r matches Err(m) && m@ == int_error_text(e),
            },
    {
        match Asn::parse(value) {
            Ok(a) => Ok(a),
            Err(e) => Err(e.message()),
        }
    }
}

impl vstd::std_specs::convert::FromSpecImpl<u32> for Asn {
    open spec fn obeys_from_spec() -> bool {
        true
    }

    open spec fn from_spec(v: u32) -> Asn {
        Asn(v)
    }
}

/// A line of an ASN country table, `AS<number> <name...>, <CC>`: the number
/// and the two-byte country code after the last comma.
pub open spec fn country_line(line: Seq<char>) -> Option<(u32, Seq<char>)> {
    let t = trim_end(line);
    match last_index_of(t, ',') {
        None => None,
        Some(i) => {
            let asn_part = t.take(i);
            let country = trim(t.skip(i + 1));
            if asn_part.len() >= 2 && asn_part[0] == 'A' && asn_part[1] == 'S' {
                match first_word(asn_part.skip(2)) {
                    None => None,
                    Some(word) => match parse_u32(word) {
                        Ok(n) => if utf8_len(country) == 2 {
                            Some((n, country))
                        } else {
                            None
                        },
                        Err(_) => None,
                    },
                }
            } else {
                None
            }
        },
    }
}

/// Reads one line of an ASN country table; `None` where the line does not
/// have that form.
pub fn parse_country(line: &str) -> (r: Option<(Asn, &str)>)
    ensures
        match r {
            None => country_line(line@) is None,
            Some((asn, country)) => country_line(line@) == Some((asn.0, country@)),
        },
{
    let cs = chars_of(line);
    let n = cs.len();
    let end = trimmed_end(&cs, 0, n);
    proof {
        assert(cs@.subrange(0, n as int) =~= cs@);
        assert(cs@.subrange(0, end as int) =~= cs@.take(end as int));
    }
    let comma = match last_index(&cs, end, ',') {
        None => {
            return None;
        },
        Some(i) => i,
    };
    let ghost t = cs@.take(end as int);
    proof {
        assert(t.take(comma as int) =~= cs@.subrange(0, comma as int));
        assert(t.skip(comma + 1) =~= cs@.subrange(comma + 1, end as int));
    }
    if !(comma >= 2 && cs[0] == 'A' && cs[1] == 'S') {
        return None;
    }
    let c_start = trimmed_start(&cs, comma + 1, end);
    let c_end = trimmed_end(&cs, c_start, end);
    proof {
        assert(t.take(comma as int).skip(2) =~= cs@.subrange(2, comma as int));
    }
    let (w_start, w_end) = match first_word_bounds(&cs, 2, comma) {
        None => {
            return None;
        },
        Some(b) => b,
    };
    let number = match parse_u32_at(&cs, w_start, w_end) {
        Ok(v) => v,
        Err(_) => {
            return None;
        },
    };
    if !utf8_len_is(&cs, c_start, c_end, 2) {
        proof {
            lemma_trim_pieces(cs@, (comma + 1) as int, end as int, c_start as int, c_end as int);
            assert(t.take(comma as int).skip(2) =~= cs@.subrange(2, comma as int));
        }
        return None;
    }
    let country = line.substring_char(c_start, c_end);
    proof {
        let asn_part = t.take(comma as int);
        assert(t == trim_end(line@));
        assert(asn_part =~= cs@.subrange(0, comma as int));
        assert(asn_part.skip(2) =~= cs@.subrange(2, comma as int));
        assert(asn_part[0] == 'A' && asn_part[1] == 'S');
        lemma_trim_pieces(cs@, (comma + 1) as int, end as int, c_start as int, c_end as int);
        assert(trim(t.skip(comma + 1)) == country@);
        assert(first_word(asn_part.skip(2)) == Some(cs@.subrange(w_start as int, w_end as int)));
    }
    proof {
        assert(last_index_of(t, ',') == Some(comma as int));
        assert(parse_u32(cs@.subrange(w_start as int, w_end as int)) == Ok::<u32, IntParseError>(number));
        assert(country_line(line@) == Some((number, country@)));
    }
    Some((Asn(number), country))
}

proof fn lemma_trim_pieces(s: Seq<char>, lo: int, hi: int, b: int, e: int)
    requires
        0 <= lo <= b <= e <= hi <= s.len(),
        trim_start(s.subrange(lo, hi)) == s.subrange(b, hi),
        trim_end(s.subrange(b, hi)) == s.subrange(b, e),
    ensures
        trim(s.subrange(lo, hi)) == s.subrange(b, e),
{
}

/// ASN to country code, as read from a country table: each line that has
/// the form of `country_line` sets its ASN's upper-cased country, later
/// lines over earlier ones.
pub open spec fn country_table(lines: Seq<Seq<char>>) -> Map<u32, Seq<char>>
    decreases lines.len(),
{
    if lines.len() == 0 {
        Map::empty()
    } else {
        let m = country_table(lines.drop_last());
        match country_line(lines.last()) {
            Some((n, c)) => m.insert(n, ascii_upper(c)),
            None => m,
        }
    }
}

pub open spec fn line_texts(lines: Seq<Result<String, ReadError>>) -> Seq<Seq<char>> {
    lines.map_values(|r: Result<String, ReadError>| match r {
        Ok(s) => s@,
        Err(_) => Seq::empty(),
    })
}

/// Position of the first line that could not be read.
pub open spec fn first_read_error(lines: Seq<Result<String, ReadError>>) -> Option<int> {
    if exists|i: int| 0 <= i < lines.len() && lines[i] is Err {
        Some(choose|i: int| 0 <= i < lines.len() && lines[i] is Err && forall|j: int| 0 <= j < i ==> lines[j] is Ok)
    } else {
        None
    }
}

/// Reads an ASN country table. The first line that could not be read ends
/// the reading with its error.
pub fn load_countries(lines: &LineSource) -> (r: Result<HashMap<u32, String>, ReadError>)
    ensures
        match first_read_error(lines@) {
            Some(i) => r matches Err(e) && lines@[i] matches Err(m) && failure(e) == failure(m),
            None => r matches Ok(m) && m@.map_values(|s: String| s@) == country_table(line_texts(lines@)),
        },
{
    let mut m: HashMap<u32, String> = HashMap::new();
    let mut i: usize = 0;
    while i < lines.len()
        invariant
            i <= lines.len(),
            forall|j: int| 0 <= j < i ==> lines@[j] is Ok,
            m@.map_values(|s: String| s@) =~= country_table(line_texts(lines@).take(i as int)),
        decreases lines.len() - i,
    {
        match &lines[i] {
            Err(e) => {
                proof {
                    assert(first_read_error(lines@) == Some(i as int)) by {
                        assert(lines@[i as int] is Err);
                        let k = choose|k: int| 0 <= k < lines@.len() && lines@[k] is Err && forall|j: int| 0 <= j < k ==> lines@[j] is Ok;
                        if k < i {
                        } else if k > i {
                            assert(lines@[i as int] is Ok);
                        }
                    }
                }
                return Err(e.copy());
            },
            Ok(line) => {
                match parse_country(line.as_str()) {
                    Some((asn, country)) => {
                        let upper = ascii_uppercase(country);
                        m.insert(asn.0, upper);
                    },
                    None => {},
                }
                proof {
                    let texts = line_texts(lines@);
                    assert(texts.take(i + 1).drop_last() =~= texts.take(i as int));
                    assert(texts.take(i + 1).last() == line@);
                    assert(m@.map_values(|s: String| s@) =~= country_table(texts.take(i + 1)));
                }
            },
        }
        i = i + 1;
    }
    proof {
        assert(line_texts(lines@).take(lines@.len() as int) =~= line_texts(lines@));
        if exists|k: int| 0 <= k < lines@.len() && lines@[k] is Err {
            let k = choose|k: int| 0 <= k < lines@.len() && lines@[k] is Err;
            assert(lines@[k] is Ok);
        }
    }
    Ok(m)
}

/// The ASNs listed one per line, or the failure of the first line that could
/// not be read, or invalid data for the first line that does not hold a
/// decimal ASN.
pub open spec fn asn_list(lines: Seq<Result<String, ReadError>>) -> Result<Set<u32>, (FailureKind, Seq<char>)>
    decreases lines.len(),
{
    if lines.len() == 0 {
        Ok(Set::empty())
    } else {
        match asn_list(lines.drop_last()) {
            Err(e) => Err(e),
            Ok(s) => match lines.last() {
                Err(m) => Err(failure(m)),
                Ok(line) => match parse_u32(trim(line@)) {
                    Ok(n) => Ok(s.insert(n)),
                    Err(k) => Err((FailureKind::InvalidData, int_error_text(k))),
                },
            },
        }
    }
}

proof fn lemma_asn_list_err_prefix(lines: Seq<Result<String, ReadError>>, i: int)
    requires
        0 <= i <= lines.len(),
        asn_list(lines.take(i)) is Err,
    ensures
        asn_list(lines) == asn_list(lines.take(i)),
    decreases lines.len() - i,
{
    if i < lines.len() {
        assert(lines.take(i + 1).drop_last() =~= lines.take(i));
        assert(asn_list(lines.take(i + 1)) is Err);
        lemma_asn_list_err_prefix(lines, i + 1);
        assert(asn_list(lines.take(i + 1)) == asn_list(lines.take(i)));
    } else {
        assert(lines.take(i) =~= lines);
    }
}

/// Reads a list of ASNs, one per line.
pub fn load_asn_set(lines: &LineSource) -> (r: Result<HashSet<u32>, ReadError>)
    ensures
        match asn_list(lines@) {
            Ok(s) => r matches Ok(set) && set@ == s,
            Err(e) => r matches Err(m) && failure(m) == e,
        },
{
    let mut set: HashSet<u32> = HashSet::new();
    let mut i: usize = 0;
    while i < lines.len()
        invariant
            i <= lines.len(),
            asn_list(lines@.take(i as int)) == Ok::<Set<u32>, (FailureKind, Seq<char>)>(set@),
        decreases lines.len() - i,
    {
        proof {
            assert(lines@.take(i + 1).drop_last() =~= lines@.take(i as int));
            assert(lines@.take(i + 1).last() == lines@[i as int]);
        }
        match &lines[i] {
            Err(e) => {
                proof {
                    lemma_asn_list_err_prefix(lines@, i + 1);
                }
                return Err(e.copy());
            },
            Ok(line) => {
                let cs = chars_of(line.as_str());
                let b = trimmed_start(&cs, 0, cs.len());
                let e = trimmed_end(&cs, b, cs.len());
                proof {
                    assert(cs@.subrange(0, cs@.len() as int) =~= cs@);
                }
                match parse_u32_at(&cs, b, e) {
                    Ok(n) => {
                        set.insert(n);
                    },
                    Err(k) => {
                        proof {
                            lemma_asn_list_err_prefix(lines@, i + 1);
                        }
                        return Err(ReadError::invalid_data(k.message()));
                    },
                }
            },
        }
        i = i + 1;
    }
    proof {
        assert(lines@.take(lines@.len() as int) =~= lines@);
    }
    Ok(set)
}

/// Decides whether an origin reached China through a trusted domestic
/// transit network, from the ASN country table and the trusted transit set.
pub struct DomesticPolicy {
    trusted_transit_asns: HashSet<u32>,
    asn_countries: HashMap<u32, String>,
}

/// Whether, walking `path` from its origin end, an ASN of `trusted` is met
/// before the first ASN whose country is not CN.
pub open spec fn domestic_suffix(path: Seq<u32>, cn: spec_fn(u32) -> bool, trusted: Set<u32>) -> bool
    decreases path.len(),
{
    if path.len() == 0 {
        false
    } else if !cn(path.last()) {
        false
    } else {
        trusted.contains(path.last()) || domestic_suffix(path.drop_last(), cn, trusted)
    }
}

pub open spec fn asn_values(s: Seq<Asn>) -> Seq<u32> {
    s.map_values(|a: Asn| a.0)
}

/// Text that a failure to read the trusted transit list is reported with.
pub open spec fn trusted_load_error(e: Seq<char>) -> Seq<char> {
    "failed to load trusted CN transit ASNs: "@ + e
}

/// Text that a failure to read the country table is reported with.
pub open spec fn country_load_error(path: Seq<char>, e: Seq<char>) -> Seq<char> {
    "failed to load ASN country data from "@ + path + ": "@ + e
}

impl DomesticPolicy {
    pub closed spec fn trusted(&self) -> Set<u32> {
        self.trusted_transit_asns@
    }

    pub closed spec fn countries(&self) -> Map<u32, Seq<char>> {
        self.asn_countries@.map_values(|s: String| s@)
    }

    /// Whether the table gives `asn` the country CN.
    pub open spec fn is_cn(&self, asn: u32) -> bool {
        self.countries().contains_key(asn) && self.countries()[asn] == "CN"@
    }

    /// Whether `path`, read from its origin end, meets a trusted transit ASN
    /// before any ASN that is not registered in CN.
    pub open spec fn admits(&self, path: Seq<u32>) -> bool {
        domestic_suffix(path, |a: u32| self.is_cn(a), self.trusted())
    }

    pub fn new(trusted_transit_asns: HashSet<u32>, asn_countries: HashMap<u32, String>) -> (r: Self)
        ensures
            r.trusted() == trusted_transit_asns@,
            r.countries() == asn_countries@.map_values(|s: String| s@),
    {
        DomesticPolicy { trusted_transit_asns, asn_countries }
    }

    /// Builds the policy from the lines read from the trusted transit list
    /// and from the country table at `country_path`, reporting a failure with
    /// the file it came from.
    pub fn from_files(trusted_lines: &LineSource, country_path: &str, country_lines: &LineSource) -> (r: Result<Self, ReadError>)
        ensures
            match asn_list(trusted_lines@) {
                Err((kind, e)) => r matches Err(m) && failure(m) == (kind, trusted_load_error(e)),
                Ok(set) => match first_read_error(country_lines@) {
                    Some(i) => r matches Err(m) && country_lines@[i] matches Err(em) && failure(m)
                        == (em.kind, country_load_error(country_path@, em.message@)),
                    None => r matches Ok(p) && p.trusted() == set && p.countries() == country_table(
                        line_texts(country_lines@),
                    ),
                },
            },
    {
        let trusted = match load_asn_set(trusted_lines) {
            Ok(s) => s,
            Err(e) => {
                let mut m = String::from_str("failed to load trusted CN transit ASNs: ");
                m.append(e.message.as_str());
                return Err(ReadError { kind: e.kind, message: m });
            },
        };
        let countries = match load_countries(country_lines) {
            Ok(c) => c,
            Err(e) => {
                let mut m = String::from_str("failed to load ASN country data from ");
                m.append(country_path);
                m.append(": ");
                m.append(e.message.as_str());
                return Err(ReadError { kind: e.kind, message: m });
            },
        };
        Ok(DomesticPolicy { trusted_transit_asns: trusted, asn_countries: countries })
    }

    /// Whether `path`, read from its origin end, passes a trusted transit ASN
    /// while every ASN so far is registered in CN.
    pub fn has_domestic_suffix(&self, path: &[Asn]) -> (r: bool)
        ensures
            r == self.admits(asn_values(path@)),
    {
        let cn = String::from_str("CN");
        let mut i = path.len();
        proof {
            assert(path@.take(i as int) =~= path@);
        }
        while i > 0
            invariant
                i <= path.len(),
                cn@ == "CN"@,
                domestic_suffix(asn_values(path@), |a: u32| self.is_cn(a), self.trusted())
                    == domestic_suffix(asn_values(path@.take(i as int)), |a: u32| self.is_cn(a), self.trusted()),
            decreases i,
        {
            let asn = path[i - 1].0;
            let ghost p = asn_values(path@.take(i as int));
            proof {
                assert(p.last() == asn);
                assert(p.drop_last() =~= asn_values(path@.take(i - 1)));
            }
            let is_cn = match self.asn_countries.get(&asn) {
                Some(c) => *c == cn,
                None => false,
            };
            if !is_cn {
                return false;
            }
            if self.trusted_transit_asns.contains(&asn) {
                return true;
            }
            i = i - 1;
        }
        proof {
            assert(asn_values(path@.take(0)) =~= Seq::<u32>::empty());
        }
        false
    }

    /// The trusted set in increasing order and the country table in
    /// increasing ASN order: what the fingerprint is computed from.
    pub fn fingerprint_input(&self) -> (r: (Vec<u32>, Vec<(u32, String)>))
        ensures
            strictly_increasing(r.0@),
            r.0@.to_set() == self.trusted(),
            strictly_increasing(r.1@.map_values(|e: (u32, String)| e.0)),
            forall|i: int| 0 <= i < r.1@.len() ==> self.countries().contains_key(#[trigger] r.1@[i].0)
                && self.countries()[r.1@[i].0] == r.1@[i].1@,
            forall|a: u32| self.countries().contains_key(a) ==> exists|i: int| 0 <= i < r.1@.len() && #[trigger] r.1@[i].0 == a,
    {
        let mut trusted: Vec<u32> = Vec::new();
        for a in it: self.trusted_transit_asns.iter()
            invariant
                trusted@ == it.seq().take(it.index() as int).unref(),
                it.seq().unref().to_set() == self.trusted(),
                it.index() == it.seq().len() ==> trusted@.to_set() == self.trusted(),
        {
            trusted.push(*a);
            assert(trusted@ =~= it.seq().take(it.index() + 1).unref());
            assert(it.index() + 1 == it.seq().len() ==> it.seq().take(it.index() + 1) =~= it.seq());
            assert(it.index() + 1 == it.seq().len() ==> trusted@.to_set() =~= it.seq().unref().to_set());
        }
        let trusted = sorted_unique(trusted);
        let countries = entries_by_asn(&self.asn_countries);
        proof {
            assert forall|a: u32| self.countries().contains_key(a) implies exists|i: int| 0 <= i < countries@.len() && #[trigger] countries@[i].0 == a by {
                assert(self.asn_countries@.contains_key(a));
            }
        }
        (trusted, countries)
    }

    /// A digest of the policy, used in cache keys.
    pub fn fingerprint(&self) -> u64 {
        let (trusted, countries) = self.fingerprint_input();
        digest_policy(&trusted, &countries)
    }
}

spec fn key_listed(r: Seq<(u32, String)>, a: u32) -> bool {
    exists|k: int| 0 <= k < r.len() && #[trigger] r[k].0 == a
}

/// The entries of `m` in increasing key order.
fn entries_by_asn(m: &HashMap<u32, String>) -> (r: Vec<(u32, String)>)
    ensures
        strictly_increasing(r@.map_values(|e: (u32, String)| e.0)),
        forall|i: int| 0 <= i < r@.len() ==> m@.contains_key(#[trigger] r@[i].0) && m@[r@[i].0] == r@[i].1,
        forall|a: u32| m@.contains_key(a) ==> exists|i: int| 0 <= i < r@.len() && #[trigger] r@[i].0 == a,
{
    broadcast use vstd::seq_lib::group_to_multiset_ensures;
    let mut entries: Vec<(u32, String)> = Vec::new();
    for kv in it: m.iter()
        invariant
            entries@ == it.seq().take(it.index() as int).unref(),
            it.seq().unref().to_set() == m@.kv_pairs(),
            it.index() == it.seq().len() ==> entries@.to_set() == m@.kv_pairs(),
    {
        entries.push((*kv.0, kv.1.clone()));
        assert(entries@ =~= it.seq().take(it.index() + 1).unref());
        assert(it.index() + 1 == it.seq().len() ==> it.seq().take(it.index() + 1) =~= it.seq());
        assert(it.index() + 1 == it.seq().len() ==> entries@.to_set() =~= it.seq().unref().to_set());
    }
    let ghost before = entries@;
    sort_by_asn(&mut entries);
    proof {
        assert forall|e: (u32, String)| entries@.contains(e) <==> before.contains(e) by {
            assert(entries@.to_multiset().count(e) == before.to_multiset().count(e));
        }
    }
    let mut r: Vec<(u32, String)> = Vec::new();
    let mut i: usize = 0;
    while i < entries.len()
        invariant
            i <= entries.len(),
            nondecreasing(entries@.map_values(|e: (u32, String)| e.0)),
            forall|e: (u32, String)| entries@.contains(e) <==> m@.kv_pairs().contains(e),
            strictly_increasing(r@.map_values(|e: (u32, String)| e.0)),
            r@.len() > 0 ==> i > 0 && r@.last().0 == entries@[i - 1].0,
            forall|j: int| 0 <= j < r@.len() ==> m@.contains_key(#[trigger] r@[j].0) && m@[r@[j].0] == r@[j].1,
            forall|j: int| 0 <= j < i ==> #[trigger] key_listed(r@, entries@[j].0),
        decreases entries.len() - i,
    {
        let key = entries[i].0;
        let ghost r0 = r@;
        proof {
            assert(entries@.contains(entries@[i as int]));
            assert(entries@.map_values(|e: (u32, String)| e.0)[i as int] == key);
        }
        if r.len() == 0 || r[r.len() - 1].0 != key {
            let v = entries[i].1.clone();
            r.push((key, v));
            proof {
                if i > 0 {
                    assert(entries@.map_values(|e: (u32, String)| e.0)[i - 1] == entries@[i - 1].0);
                }
                assert(r@.map_values(|e: (u32, String)| e.0) =~= r0.map_values(|e: (u32, String)| e.0).push(key));
                if r0.len() > 0 {
                    assert(r0.map_values(|e: (u32, String)| e.0).last() == r0.last().0);
                }
            }
        }
        proof {
            assert forall|j: int| 0 <= j < i + 1 implies #[trigger] key_listed(r@, entries@[j].0) by {
                if j == i {
                    assert(r@[r@.len() - 1].0 == key);
                } else {
                    assert(key_listed(r0, entries@[j].0));
                    let k = choose|k: int| 0 <= k < r0.len() && #[trigger] r0[k].0 == entries@[j].0;
                    assert(r@[k] == r0[k]);
                }
            }
        }
        i = i + 1;
    }
    proof {
        assert forall|a: u32| m@.contains_key(a) implies exists|i: int| 0 <= i < r@.len() && #[trigger] r@[i].0 == a by {
            assert(m@.kv_pairs().contains((a, m@[a])));
            assert(entries@.contains((a, m@[a])));
            let j = choose|j: int| 0 <= j < entries@.len() && entries@[j] == (a, m@[a]);
            assert(entries@[j].0 == a);
            assert(key_listed(r@, entries@[j].0));
        }
    }
    r
}

/// The targets all of whose observed direct upstreams have a known country
/// other than `country`.
pub open spec fn foreign_only(
    target: u32,
    upstreams: Map<u32, Set<u32>>,
    countries: Map<u32, Seq<char>>,
    country: Seq<char>,
) -> bool {
    &&& upstreams.contains_key(target)
    &&& !upstreams[target].is_empty()
    &&& forall|u: u32| #[trigger] upstreams[target].contains(u) ==> countries.contains_key(u) && countries[u] != country
}

/// Whether every ASN of `ups` has a known country other than `country`.
fn all_known_foreign(ups: &BTreeSet<u32>, countries: &HashMap<u32, String>, country: &String) -> (r: bool)
    ensures
        r == forall|u: u32| ups@.contains(u) ==> countries@.contains_key(u) && countries@[u]@ != country@,
{
    broadcast use vstd::std_specs::btree::group_btree_axioms, vstd::laws_cmp::group_laws_cmp;
    let mut ok = true;
    for u in it: ups.iter()
        invariant
            it.seq().unref().to_set() == ups@,
            ok == forall|j: int| 0 <= j < it.index() ==> #[trigger] known_foreign(countries@, country@, *it.seq()[j]),
            it.index() == it.seq().len() ==> (ok == forall|v: u32| ups@.contains(v) ==> known_foreign(countries@, country@, v)),
    {
        let good = match countries.get(u) {
            Some(c) => !(*c == *country),
            None => false,
        };
        let ghost ok0 = ok;
        ok = ok && good;
        proof {
            assert(*u == *it.seq()[it.index()]);
            assert(good == known_foreign(countries@, country@, *u));
            if ok {
                assert forall|j: int| 0 <= j < it.index() + 1 implies #[trigger] known_foreign(countries@, country@, *it.seq()[j]) by {
                    if j < it.index() {
                        assert(ok0);
                    }
                }
            }
            assert(ok == forall|j: int| 0 <= j < it.index() + 1 ==> #[trigger] known_foreign(countries@, country@, *it.seq()[j]));
            assert(it.index() + 1 == it.seq().len() ==> (ok == forall|v: u32| ups@.contains(v) ==> known_foreign(countries@, country@, v))) by {
                if it.index() + 1 == it.seq().len() {
                    assert forall|v: u32| ups@.contains(v) && ok implies known_foreign(countries@, country@, v) by {
                        assert(it.seq().unref().to_set().contains(v));
                        let j = choose|j: int| 0 <= j < it.seq().unref().len() && it.seq().unref()[j] == v;
                        assert(*it.seq()[j] == v);
                    }
                    if !ok {
                        let j = choose|j: int| 0 <= j < it.index() + 1 && !#[trigger] known_foreign(countries@, country@, *it.seq()[j]);
                        assert(it.seq().unref()[j] == *it.seq()[j]);
                        assert(ups@.contains(*it.seq()[j]));
                    }
                }
            }
        }
    }
    if ups.is_empty() {
        proof {
            assert(ups@.len() == 0);
        }
    }
    ok
}

spec fn known_foreign(countries: Map<u32, String>, country: Seq<char>, u: u32) -> bool {
    countries.contains_key(u) && countries[u]@ != country
}

/// The requested ASNs whose observed direct upstreams are all known and all
/// registered outside `country` (compared after ASCII upper-casing), in
/// increasing order.
pub fn foreign_upstream_only(
    targets: &HashSet<u32>,
    direct_upstreams: &HashMap<u32, BTreeSet<u32>>,
    countries: &HashMap<u32, String>,
    country: &str,
) -> (r: Vec<Asn>)
    ensures
        strictly_increasing(asn_values(r@)),
        forall|a: u32| asn_values(r@).contains(a) <==> targets@.contains(a) && foreign_only(
            a,
            direct_upstreams@.map_values(|s: BTreeSet<u32>| s@),
            countries@.map_values(|s: String| s@),
            ascii_upper(country@),
        ),
{
    let country = ascii_uppercase(country);
    let ghost ups = direct_upstreams@.map_values(|s: BTreeSet<u32>| s@);
    let ghost cs = countries@.map_values(|s: String| s@);
    let mut matches: Vec<u32> = Vec::new();
    for t in it: targets.iter()
        invariant
            it.seq().unref().to_set() == targets@,
            ups == direct_upstreams@.map_values(|s: BTreeSet<u32>| s@),
            cs == countries@.map_values(|s: String| s@),
            forall|a: u32| matches@.contains(a) <==> (it.seq().take(it.index() as int).unref().contains(a)
                && foreign_only(a, ups, cs, country@)),
            it.index() == it.seq().len() ==> forall|a: u32| matches@.contains(a) <==> (targets@.contains(a)
                && foreign_only(a, ups, cs, country@)),
    {
        let selected = match direct_upstreams.get(t) {
            None => false,
            Some(up) => {
                let sel = !up.is_empty() && all_known_foreign(up, countries, &country);
                proof {
                    assert(ups[*t] == up@);
                    if !sel && !up@.is_empty() {
                        let u = choose|u: u32| up@.contains(u) && !(countries@.contains_key(u) && countries@[u]@ != country@);
                        assert(ups[*t].contains(u));
                        assert(countries@.contains_key(u) ==> countries@[u]@ == country@);
                        assert(cs.dom() == countries@.dom());
                        if cs.contains_key(u) {
                            assert(cs[u] == countries@[u]@);
                        }
                        assert(!(cs.contains_key(u) && cs[u] != country@));
                        assert(!foreign_only(*t, ups, cs, country@));
                    }
                    if !sel && up@.is_empty() {
                        assert(!foreign_only(*t, ups, cs, country@));
                    }
                    if sel {
                        assert forall|u: u32| ups[*t].contains(u) implies cs.contains_key(u) && cs[u] != country@ by {
                            assert(countries@.contains_key(u));
                            assert(cs[u] == countries@[u]@);
                        }
                        assert(foreign_only(*t, ups, cs, country@));
                    }
                }
                sel
            },
        };
        let ghost m0 = matches@;
        if selected {
            matches.push(*t);
        }
        proof {
            let s0 = it.seq().take(it.index() as int).unref();
            let s1 = it.seq().take(it.index() + 1).unref();
            assert(s1 =~= s0.push(*t));
            if direct_upstreams@.contains_key(*t) {
                assert(ups.contains_key(*t));
                assert(ups[*t] == direct_upstreams@[*t]@);
                assert forall|u: u32| #[trigger] countries@.contains_key(u) implies cs.contains_key(u) && cs[u] == countries@[u]@ by {}
            } else {
                assert(!ups.contains_key(*t));
            }
            if selected {
                assert(foreign_only(*t, ups, cs, country@));
            } else {
                assert(!foreign_only(*t, ups, cs, country@));
            }
            assert forall|a: u32| matches@.contains(a) <==> (s1.contains(a) && foreign_only(a, ups, cs, country@)) by {
                if matches@.contains(a) && a != *t {
                    let k = choose|k: int| 0 <= k < matches@.len() && matches@[k] == a;
                    assert(m0[k] == a);
                }
                if s1.contains(a) && a != *t {
                    let k = choose|k: int| 0 <= k < s1.len() && s1[k] == a;
                    assert(s0[k] == a);
                }
                if s0.contains(a) {
                    let k = choose|k: int| 0 <= k < s0.len() && s0[k] == a;
                    assert(s1[k] == a);
                }
                if m0.contains(a) {
                    let k = choose|k: int| 0 <= k < m0.len() && m0[k] == a;
                    assert(matches@[k] == a);
                }
                if selected && a == *t {
                    assert(matches@[m0.len() as int] == a);
                }
                assert(s1[s0.len() as int] == *t);
            }
            assert(it.index() + 1 == it.seq().len() ==> it.seq().take(it.index() + 1) =~= it.seq());
            assert forall|a: u32| it.index() + 1 == it.seq().len() implies (matches@.contains(a) <==> (targets@.contains(a)
                && foreign_only(a, ups, cs, country@))) by {
                assert(s1 =~= it.seq().unref());
                assert(it.seq().unref().to_set().contains(a) <==> it.seq().unref().contains(a));
            }
        }
    }
    let sorted = sorted_unique(matches);
    let mut r: Vec<Asn> = Vec::new();
    let mut i: usize = 0;
    while i < sorted.len()
        invariant
            i <= sorted.len(),
            asn_values(r@) =~= sorted@.take(i as int),
        decreases sorted.len() - i,
    {
        r.push(Asn(sorted[i]));
        proof {
            assert(sorted@.take(i + 1) =~= sorted@.take(i as int).push(sorted@[i as int]));
        }
        i = i + 1;
    }
    proof {
        assert(sorted@.take(sorted@.len() as int) =~= sorted@);
        assert forall|a: u32| asn_values(r@).contains(a) <==> sorted@.to_set().contains(a) by {}
    }
    r
}

} // verus!
