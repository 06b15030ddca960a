//! Split points: the addresses that delimit the intervals of a table, kept
//! in an ordered `BTreeSet`.
use std::collections::BTreeSet;
use vstd::prelude::*;
use vstd::std_specs::btree::{increasing_seq, spec_btree_keys_iter};
use vstd::std_specs::iter::IteratorSpec;
use vstd::std_specs::cmp::OrdSpec;

verus! {

broadcast use vstd::std_specs::btree::group_btree_axioms, vstd::laws_cmp::group_laws_cmp;

pub open spec fn strictly_increasing_points(s: Seq<u128>) -> bool {
    forall|i: int, j: int| 0 <= i < j < s.len() ==> s[i] < s[j]
}

/// Adds one point.
pub fn insert_point(set: &mut BTreeSet<u128>, p: u128)
    ensures
        final(set)@ == old(set)@.insert(p),
{
    set.insert(p);
}

/// Adds every point of `other`.
pub fn insert_points(set: &mut BTreeSet<u128>, other: &BTreeSet<u128>)
    ensures
        final(set)@ == old(set)@.union(other@),
{
    let ghost start = set@;
    for p in it: other.iter()
        invariant
            it.seq().unref().to_set() == other@,
            set@ == start.union(it.seq().take(it.index() as int).unref().to_set()),
            it.index() == it.seq().len() ==> set@ == start.union(other@),
    {
        set.insert(*p);
        proof {
            let t0 = it.seq().take(it.index() as int).unref();
            let t1 = it.seq().take(it.index() + 1).unref();
            assert(t1 =~= t0.push(*p));
            assert forall|x: u128| t1.to_set().contains(x) <==> t0.to_set().insert(*p).contains(x) by {
                if t1.contains(x) {
                    let k = choose|k: int| 0 <= k < t1.len() && t1[k] == x;
                    if k < t0.len() {
                        assert(t0[k] == x);
                    }
                }
                if t0.contains(x) {
                    let k = choose|k: int| 0 <= k < t0.len() && t0[k] == x;
                    assert(t1[k] == x);
                }
                if x == *p {
                    assert(t1[t0.len() as int] == x);
                }
            }
            assert(set@ =~= start.union(t1.to_set()));
            assert(it.index() + 1 == it.seq().len() ==> it.seq().take(it.index() + 1) =~= it.seq());
        }
    }
}

/// A `BTreeSet` walks its points in increasing order.
proof fn lemma_iter_increasing(set: &BTreeSet<u128>)
    ensures
        ({
            let s = spec_btree_keys_iter(set).remaining();
            forall|i: int, j: int| 0 <= i < j < s.len() ==> *s[i] < *s[j]
        }),
{
    let s = spec_btree_keys_iter(set).remaining();
    assert(vstd::laws_cmp::obeys_cmp::<u128>());
    assert(vstd::laws_cmp::obeys_cmp::<&u128>());
    assert(increasing_seq(s));
    assert forall|i: int, j: int| 0 <= i < j < s.len() implies *s[i] < *s[j] by {
        assert((&s[i]).cmp_spec(&&s[j]) is Less);
    }
}

/// The points in increasing order.
pub fn ordered_points(set: &BTreeSet<u128>) -> (r: Vec<u128>)
    ensures
        strictly_increasing_points(r@),
        r@.to_set() == set@,
{
    let mut r: Vec<u128> = Vec::new();
    proof {
        lemma_iter_increasing(set);
    }
    for p in it: set.iter()
        invariant
            it.seq().unref().to_set() == set@,
            forall|i: int, j: int| 0 <= i < j < it.seq().len() ==> *it.seq()[i] < *it.seq()[j],
            r@ == it.seq().take(it.index() as int).unref(),
            strictly_increasing_points(r@),
            it.index() == it.seq().len() ==> r@.to_set() == set@,
    {
        r.push(*p);
        proof {
            assert(r@ =~= it.seq().take(it.index() + 1).unref());
            assert(it.index() + 1 == it.seq().len() ==> it.seq().take(it.index() + 1) =~= it.seq());
        }
    }
    r
}

} // verus!
