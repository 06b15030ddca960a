//! Sorting and hashing, done by std.
use std::collections::hash_map::DefaultHasher;
use std::hash::{Hash, Hasher};
use vstd::prelude::*;

verus! {

pub open spec fn strictly_increasing(s: Seq<u32>) -> bool {
    forall|i: int, j: int| 0 <= i < j < s.len() ==> s[i] < s[j]
}

pub open spec fn nondecreasing(s: Seq<u32>) -> bool {
    forall|i: int, j: int| 0 <= i < j < s.len() ==> s[i] <= s[j]
}

/// `slice::sort_unstable` on `u32`s: the same items, in nondecreasing order.
#[verifier::external_body]
pub(crate) fn sort_u32s(v: &mut Vec<u32>)
    ensures
        final(v)@.to_multiset() == old(v)@.to_multiset(),
        nondecreasing(final(v)@),
{
    v.sort_unstable();
}

/// `slice::sort_unstable_by_key` on the first component: the same items,
/// with nondecreasing first components.
#[verifier::external_body]
pub(crate) fn sort_by_asn(v: &mut Vec<(u32, String)>)
    ensures
        final(v)@.to_multiset() == old(v)@.to_multiset(),
        nondecreasing(final(v)@.map_values(|e: (u32, String)| e.0)),
{
    v.sort_unstable_by_key(|e| e.0);
}

/// std's `DefaultHasher` over the trusted list and then the country table,
/// each hashed as a slice. Nothing is stated of the digest: it depends on
/// the platform (byte order and `usize` width).
#[verifier::external_body]
pub(crate) fn digest_policy(trusted: &Vec<u32>, countries: &Vec<(u32, String)>) -> u64 {
    let mut hasher = DefaultHasher::new();
    trusted.hash(&mut hasher);
    countries.hash(&mut hasher);
    hasher.finish()
}

/// The distinct items of `v` in increasing order.
pub fn sorted_unique(v: Vec<u32>) -> (r: Vec<u32>)
    ensures
        strictly_increasing(r@),
        r@.to_set() == v@.to_set(),
{
    broadcast use vstd::seq_lib::group_to_multiset_ensures;
    let mut v = v;
    let ghost orig = v@;
    sort_u32s(&mut v);
    proof {
        assert forall|x: u32| v@.contains(x) <==> orig.contains(x) by {
            assert(v@.to_multiset().count(x) == orig.to_multiset().count(x));
        }
    }
    let mut r: Vec<u32> = Vec::new();
    let mut i: usize = 0;
    while i < v.len()
        invariant
            i <= v.len(),
            nondecreasing(v@),
            strictly_increasing(r@),
            r@.len() > 0 ==> i > 0 && r@.last() == v@[i - 1],
            forall|x: u32| r@.contains(x) <==> v@.take(i as int).contains(x),
        decreases v.len() - i,
    {
        let x = v[i];
        let ghost r0 = r@;
        if r.len() == 0 || r[r.len() - 1] != x {
            r.push(x);
            proof {
                assert forall|y: u32| r@.contains(y) <==> (r0.contains(y) || y == x) by {
                    if r@.contains(y) {
                        let k = choose|k: int| 0 <= k < r@.len() && #[trigger] r@[k] == y;
                        if k < r0.len() {
                            assert(r0[k] == y);
                        }
                    }
                    if r0.contains(y) {
                        let k = choose|k: int| 0 <= k < r0.len() && #[trigger] r0[k] == y;
                        assert(r@[k] == y);
                    }
                    if y == x {
                        assert(r@[r0.len() as int] == x);
                    }
                }
            }
        } else {
            proof {
                assert(r0[r0.len() - 1] == x);
                assert(r0.contains(x));
            }
        }
        proof {
            let t0 = v@.take(i as int);
            let t1 = v@.take(i + 1);
            assert forall|y: u32| t1.contains(y) <==> (t0.contains(y) || y == x) by {
                if t1.contains(y) {
                    let k = choose|k: int| 0 <= k < t1.len() && #[trigger] t1[k] == y;
                    if k < i {
                        assert(t0[k] == y);
                    }
                }
                if t0.contains(y) {
                    let k = choose|k: int| 0 <= k < t0.len() && #[trigger] t0[k] == y;
                    assert(t1[k] == y);
                }
                if y == x {
                    assert(t1[i as int] == x);
                }
            }
            assert forall|y: u32| r@.contains(y) <==> t1.contains(y) by {
                assert(r0.contains(y) <==> t0.contains(y));
            }
        }
        i = i + 1;
    }
    proof {
        assert(v@.take(v@.len() as int) =~= v@);
        assert(r@.to_set() =~= orig.to_set());
    }
    r
}

} // verus!
