//! Cache keys: what a cached classification was computed from, and the name
//! of the file that holds it.
use std::collections::HashSet;
use std::collections::hash_map::DefaultHasher;
use std::hash::{Hash, Hasher};
use vstd::prelude::*;
use vstd::std_specs::hash::group_hash_axioms;
use crate::asn::{Asn, asn_values};
use crate::order::{sorted_unique, strictly_increasing};
use crate::text::string_from_chars;

verus! {

broadcast use group_hash_axioms;

/// The layout of cache files; a file of another version is not used.
pub const FORMAT_VERSION: u8 = 6;

/// The options and inputs that a classification depends on, besides the
/// RIB files.
#[derive(Clone, Copy, Debug, PartialEq, Eq, Structural, Hash)]
pub struct CacheKey {
    pub ignore_private_asn: bool,
    pub origin_only: bool,
    pub domestic_policy_fingerprint: Option<u64>,
    pub operator_asns_fingerprint: u64,
}

/// std's `DefaultHasher` over a list of ASNs. Nothing is stated of the
/// digest: it depends on the platform (byte order and `usize` width).
#[verifier::external_body]
fn digest_asns(asns: &Vec<Asn>) -> u64 {
    let mut hasher = DefaultHasher::new();
    asns.hash(&mut hasher);
    hasher.finish()
}

/// std's `DefaultHasher` over the format version, the key and the list of
/// sources, in that order. Nothing is stated of the digest: it depends on
/// the platform.
#[verifier::external_body]
fn digest_cache(version: u8, key: CacheKey, sources: &Vec<String>) -> u64 {
    let mut hasher = DefaultHasher::new();
    version.hash(&mut hasher);
    key.hash(&mut hasher);
    sources.hash(&mut hasher);
    hasher.finish()
}

/// Lexicographic order of character sequences.
pub open spec fn chars_le(a: Seq<char>, b: Seq<char>) -> bool
    decreases a.len(),
{
    if a.len() == 0 {
        true
    } else if b.len() == 0 {
        false
    } else if a[0] != b[0] {
        (a[0] as u32) < (b[0] as u32)
    } else {
        chars_le(a.drop_first(), b.drop_first())
    }
}

/// `slice::sort` on strings: the same strings, ordered lexicographically,
/// which std documents for `str` as the order of code points.
#[verifier::external_body]
fn sort_strings(v: &mut Vec<String>)
    ensures
        final(v)@.to_multiset() == old(v)@.to_multiset(),
        forall|i: int, j: int| 0 <= i < j < final(v)@.len() ==> chars_le(#[trigger] final(v)@[i]@, #[trigger] final(v)@[j]@),
{
    v.sort();
}

/// The operator ASNs in increasing order, each once: what their
/// fingerprint is computed from.
pub fn operator_key_input(operators: &HashSet<u32>) -> (r: Vec<Asn>)
    ensures
        strictly_increasing(asn_values(r@)),
        asn_values(r@).to_set() == operators@,
{
    let mut items: Vec<u32> = Vec::new();
    for a in it: operators.iter()
        invariant
            items@ == it.seq().take(it.index() as int).unref(),
            it.seq().unref().to_set() == operators@,
            it.index() == it.seq().len() ==> items@.to_set() == operators@,
    {
        items.push(*a);
        assert(items@ =~= it.seq().take(it.index() + 1).unref());
        assert(it.index() + 1 == it.seq().len() ==> it.seq().take(it.index() + 1) =~= it.seq());
        assert(it.index() + 1 == it.seq().len() ==> items@.to_set() =~= it.seq().unref().to_set());
    }
    let sorted = sorted_unique(items);
    let mut r: Vec<Asn> = Vec::new();
    let mut i: usize = 0;
    while i < sorted.len()
        invariant
            i <= sorted@.len(),
            asn_values(r@) =~= sorted@.take(i as int),
        decreases sorted.len() - i,
    {
        r.push(Asn(sorted[i]));
        proof {
            assert(sorted@.take(i + 1) =~= sorted@.take(i as int).push(sorted@[i as int]));
        }
        i = i + 1;
    }
    proof {
        assert(sorted@.take(sorted@.len() as int) =~= sorted@);
    }
    r
}

/// The RIB file names in order: what the cache file name is computed from.
pub fn sorted_sources(sources: &[String]) -> (r: Vec<String>)
    ensures
        r@.to_multiset() == sources@.to_multiset(),
        forall|i: int, j: int| 0 <= i < j < r@.len() ==> chars_le(#[trigger] r@[i]@, #[trigger] r@[j]@),
{
    let mut r: Vec<String> = Vec::new();
    let mut i: usize = 0;
    while i < sources.len()
        invariant
            i <= sources@.len(),
            r@ == sources@.take(i as int),
        decreases sources.len() - i,
    {
        r.push(sources[i].clone());
        proof {
            assert(r@ =~= sources@.take(i + 1));
        }
        i = i + 1;
    }
    proof {
        assert(sources@.take(sources@.len() as int) =~= sources@);
    }
    sort_strings(&mut r);
    r
}

/// A lowercase hexadecimal digit.
pub open spec fn hex_digit(n: nat) -> char {
    if n < 10 {
        (48 + n) as char
    } else {
        (87 + n) as char
    }
}

/// The last `n` hexadecimal digits of `d`, with leading zeros.
pub open spec fn hex_width(d: nat, n: nat) -> Seq<char>
    decreases n,
{
    if n == 0 {
        Seq::empty()
    } else {
        hex_width(d / 16, (n - 1) as nat).push(hex_digit(d % 16))
    }
}

/// The name of the cache file of digest `d`: `cache-`, sixteen hexadecimal
/// digits and `.bin`.
pub open spec fn cache_file_text(d: u64) -> Seq<char> {
    "cache-"@ + hex_width(d as nat, 16) + ".bin"@
}

fn hex_char(x: u64) -> (c: char)
    requires
        x < 16,
    ensures
        c == hex_digit(x as nat),
{
    if x < 10 {
        ((48 + x) as u8) as char
    } else {
        ((87 + x) as u8) as char
    }
}

fn hex_digits(d: u64, n: usize) -> (r: Vec<char>)
    requires
        n <= 16,
    ensures
        r@ == hex_width(d as nat, n as nat),
    decreases n,
{
    if n == 0 {
        Vec::new()
    } else {
        let mut r = hex_digits(d / 16, n - 1);
        r.push(hex_char(d % 16));
        r
    }
}

/// The name of the cache file of digest `d`.
pub fn cache_file_name(d: u64) -> (r: String)
    ensures
        r@ == cache_file_text(d),
{
    let mut cs: Vec<char> = Vec::new();
    cs.push('c');
    cs.push('a');
    cs.push('c');
    cs.push('h');
    cs.push('e');
    cs.push('-');
    let mut digits = hex_digits(d, 16);
    cs.append(&mut digits);
    cs.push('.');
    cs.push('b');
    cs.push('i');
    cs.push('n');
    proof {
        reveal_strlit("cache-");
        reveal_strlit(".bin");
        assert(cs@ =~= cache_file_text(d));
    }
    string_from_chars(cs.as_slice())
}

impl CacheKey {
    /// The key of a classification made with these options, the given
    /// domestic policy fingerprint, and the operator set `operator_asns`
    /// (fingerprinted in increasing order, so that the order in which the
    /// set is walked does not matter).
    pub fn new(
        ignore_private_asn: bool,
        origin_only: bool,
        domestic_policy_fingerprint: Option<u64>,
        operator_asns: &HashSet<u32>,
    ) -> (r: CacheKey)
        ensures
            r.ignore_private_asn == ignore_private_asn,
            r.origin_only == origin_only,
            r.domestic_policy_fingerprint == domestic_policy_fingerprint,
    {
        let operators = operator_key_input(operator_asns);
        CacheKey {
            ignore_private_asn,
            origin_only,
            domestic_policy_fingerprint,
            operator_asns_fingerprint: digest_asns(&operators),
        }
    }

    /// The name of the file that caches the classification of `sources`
    /// under this key; the sources are taken in sorted order.
    pub fn path(self, sources: &[String]) -> (r: String)
        ensures
            exists|d: u64| r@ == cache_file_text(d),
    {
        let sorted = sorted_sources(sources);
        let d = digest_cache(FORMAT_VERSION, self, &sorted);
        cache_file_name(d)
    }
}

/// Whether a cache file written with format `version` and key `stored`
/// may be used for `key`.
pub fn cache_matches(version: u8, stored: CacheKey, key: CacheKey) -> (r: bool)
    ensures
        r == (version == FORMAT_VERSION && stored == key),
{
    version == FORMAT_VERSION && stored == key
}

/// The fingerprint input of an operator set depends on the set alone: two
/// lists in increasing order that hold the same ASNs are the same list.
pub proof fn law_operator_input_ignores_order(a: Seq<u32>, b: Seq<u32>)
    requires
        strictly_increasing(a),
        strictly_increasing(b),
        a.to_set() == b.to_set(),
    ensures
        a == b,
    decreases a.len() + b.len(),
{
    if a.len() == 0 || b.len() == 0 {
        if a.len() > 0 {
            assert(a.to_set().contains(a[0]));
        }
        if b.len() > 0 {
            assert(b.to_set().contains(b[0]));
        }
        assert(a =~= b);
    } else {
        let x = a.last();
        let y = b.last();
        assert(a.to_set().contains(x));
        assert(b.to_set().contains(y));
        assert(b.contains(x));
        assert(a.contains(y));
        let i = choose|i: int| 0 <= i < b.len() && b[i] == x;
        let j = choose|j: int| 0 <= j < a.len() && a[j] == y;
        if x < y {
            assert(a[j] <= a[a.len() - 1]);
        } else if y < x {
            assert(b[i] <= b[b.len() - 1]);
        }
        assert(x == y);
        let a1 = a.drop_last();
        let b1 = b.drop_last();
        assert forall|z: u32| a1.to_set().contains(z) <==> b1.to_set().contains(z) by {
            if a1.contains(z) {
                let k = choose|k: int| 0 <= k < a1.len() && a1[k] == z;
                assert(a[k] == z && z < x);
                assert(a.contains(z));
                assert(a.to_set().contains(z));
                assert(b.contains(z));
                let m = choose|m: int| 0 <= m < b.len() && b[m] == z;
                assert(b[b.len() - 1] == x);
                assert(m != b.len() - 1);
                assert(b1[m] == z);
            }
            if b1.contains(z) {
                let k = choose|k: int| 0 <= k < b1.len() && b1[k] == z;
                assert(b[k] == z && z < y);
                assert(b.contains(z));
                assert(b.to_set().contains(z));
                assert(a.contains(z));
                let m = choose|m: int| 0 <= m < a.len() && a[m] == z;
                assert(a[a.len() - 1] == y);
                assert(m != a.len() - 1);
                assert(a1[m] == z);
            }
        }
        assert(a1.to_set() =~= b1.to_set());
        law_operator_input_ignores_order(a1, b1);
        assert(a =~= a1.push(x));
        assert(b =~= b1.push(y));
    }
}

} // verus!
