//! AS paths: normalisation, common suffixes and the upstreams that share a
//! prefix's address space.
use std::collections::HashSet;
use smallvec::SmallVec;
use vstd::prelude::*;
use vstd::std_specs::hash::group_hash_axioms;
use crate::asn::{Asn, asn_values};

verus! {

broadcast use group_hash_axioms;

/// An AS path of at most a few hops, held inline (smallvec's `SmallVec`).
#[verifier::external_body]
pub struct AsPath {
    inner: SmallVec<[Asn; 4]>,
}

/// The ASNs that a path holds, in order.
pub uninterp spec fn as_path_asns(p: AsPath) -> Seq<u32>;

impl AsPath {
    /// `SmallVec::new`: an empty path.
    #[verifier::external_body]
    pub(crate) fn new() -> (p: AsPath)
        ensures
            as_path_asns(p) == Seq::<u32>::empty(),
    {
        AsPath { inner: SmallVec::new() }
    }

    /// `SmallVec::push`: appends one ASN.
    #[verifier::external_body]
    pub(crate) fn push(&mut self, asn: Asn)
        ensures
            as_path_asns(*final(self)) == as_path_asns(*old(self)).push(asn.0),
    {
        self.inner.push(asn);
    }

    /// `SmallVec::len`: the number of ASNs.
    #[verifier::external_body]
    pub(crate) fn len(&self) -> (n: usize)
        ensures
            n == as_path_asns(*self).len(),
    {
        self.inner.len()
    }

    /// Indexing a `SmallVec`: the ASN at position `i`.
    #[verifier::external_body]
    pub(crate) fn get(&self, i: usize) -> (a: Asn)
        requires
            i < as_path_asns(*self).len(),
        ensures
            a.0 == as_path_asns(*self)[i as int],
    {
        self.inner[i]
    }

    /// A path holding the ASNs of `asns`, in order.
    pub fn from_asns(asns: &[Asn]) -> (p: AsPath)
        ensures
            as_path_asns(p) == asn_values(asns@),
    {
        let mut p = AsPath::new();
        let mut i: usize = 0;
        while i < asns.len()
            invariant
                i <= asns@.len(),
                as_path_asns(p) == asn_values(asns@.take(i as int)),
            decreases asns.len() - i,
        {
            p.push(asns[i]);
            proof {
                assert(asn_values(asns@.take(i + 1)) =~= asn_values(asns@.take(i as int)).push(asns@[i as int].0));
            }
            i = i + 1;
        }
        proof {
            assert(asns@.take(asns@.len() as int) =~= asns@);
        }
        p
    }

    /// The ASNs of the path, in order.
    pub fn to_vec(&self) -> (v: Vec<Asn>)
        ensures
            asn_values(v@) == as_path_asns(*self),
    {
        let mut v: Vec<Asn> = Vec::new();
        let mut i: usize = 0;
        while i < self.len()
            invariant
                i <= as_path_asns(*self).len(),
                asn_values(v@) == as_path_asns(*self).take(i as int),
            decreases as_path_asns(*self).len() - i,
        {
            v.push(self.get(i));
            proof {
                assert(asn_values(v@) =~= as_path_asns(*self).take(i as int).push(as_path_asns(*self)[i as int]));
                assert(as_path_asns(*self).take(i + 1) =~= as_path_asns(*self).take(i as int).push(as_path_asns(*self)[i as int]));
            }
            i = i + 1;
        }
        proof {
            assert(as_path_asns(*self).take(i as int) =~= as_path_asns(*self));
        }
        v
    }

    /// A copy of the path.
    pub fn copy(&self) -> (p: AsPath)
        ensures
            as_path_asns(p) == as_path_asns(*self),
    {
        let mut p = AsPath::new();
        let mut i: usize = 0;
        while i < self.len()
            invariant
                i <= as_path_asns(*self).len(),
                as_path_asns(p) == as_path_asns(*self).take(i as int),
            decreases as_path_asns(*self).len() - i,
        {
            p.push(self.get(i));
            proof {
                assert(as_path_asns(*self).take(i + 1) =~= as_path_asns(*self).take(i as int).push(
                    as_path_asns(*self)[i as int],
                ));
            }
            i = i + 1;
        }
        proof {
            assert(as_path_asns(*self).take(i as int) =~= as_path_asns(*self));
        }
        p
    }
}

/// `s` with each run of equal neighbours reduced to one element.
pub open spec fn dedup_runs(s: Seq<u32>) -> Seq<u32>
    decreases s.len(),
{
    if s.len() == 0 {
        Seq::empty()
    } else {
        let d = dedup_runs(s.drop_last());
        if d.len() > 0 && d.last() == s.last() {
            d
        } else {
            d.push(s.last())
        }
    }
}

/// The last `n` elements of `s` (all of `s` when it is shorter).
pub open spec fn last_n(s: Seq<u32>, n: nat) -> Seq<u32> {
    if s.len() > n {
        s.skip(s.len() - n)
    } else {
        s
    }
}

/// A path as the classifier keeps it: prepending removed, then only the
/// four hops nearest the origin.
pub open spec fn normalized(s: Seq<u32>) -> Seq<u32> {
    last_n(dedup_runs(s), 4)
}

/// Whether `s` ends `p`.
pub open spec fn is_suffix(s: Seq<u32>, p: Seq<u32>) -> bool {
    s.len() <= p.len() && p.skip(p.len() - s.len()) == s
}

/// The longest sequence that ends both `a` and `b`.
pub open spec fn common_suffix(a: Seq<u32>, b: Seq<u32>) -> Seq<u32>
    decreases a.len(),
{
    if a.len() == 0 || b.len() == 0 || a.last() != b.last() {
        Seq::empty()
    } else {
        common_suffix(a.drop_last(), b.drop_last()).push(a.last())
    }
}

/// Whether `s` ends every path of `paths`.
pub open spec fn ends_all(s: Seq<u32>, paths: Seq<Seq<u32>>) -> bool {
    forall|i: int| 0 <= i < paths.len() ==> is_suffix(s, #[trigger] paths[i])
}

/// The common suffix of all `paths`, taken path by path.
pub open spec fn fold_suffix(paths: Seq<Seq<u32>>) -> Seq<u32>
    decreases paths.len(),
{
    if paths.len() == 0 {
        Seq::empty()
    } else if paths.len() == 1 {
        paths[0]
    } else {
        common_suffix(fold_suffix(paths.drop_last()), paths.last())
    }
}

/// The ASNs that receive a prefix through a common suffix: walking from the
/// origin end towards the upstream end, every ASN up to and including the
/// first one in `operators`.
pub open spec fn attributed(s: Seq<u32>, operators: Set<u32>) -> Seq<u32>
    decreases s.len(),
{
    if s.len() == 0 {
        Seq::empty()
    } else if operators.contains(s.last()) {
        seq![s.last()]
    } else {
        seq![s.last()] + attributed(s.drop_last(), operators)
    }
}

/// Removes AS prepending from `path` and keeps the four hops nearest the
/// origin.
pub fn normalize_path(path: &[Asn]) -> (r: AsPath)
    ensures
        as_path_asns(r) == normalized(asn_values(path@)),
{
    let mut deduped: Vec<Asn> = Vec::new();
    let mut i: usize = 0;
    while i < path.len()
        invariant
            i <= path.len(),
            asn_values(deduped@) == dedup_runs(asn_values(path@.take(i as int))),
        decreases path.len() - i,
    {
        let a = path[i];
        proof {
            assert(asn_values(path@.take(i + 1)).drop_last() =~= asn_values(path@.take(i as int)));
            assert(asn_values(path@.take(i + 1)).last() == a.0);
        }
        if deduped.len() == 0 || deduped[deduped.len() - 1].0 != a.0 {
            deduped.push(a);
            proof {
                assert(asn_values(deduped@) =~= dedup_runs(asn_values(path@.take(i as int))).push(a.0));
            }
        } else {
            proof {
                assert(asn_values(deduped@).last() == deduped@.last().0);
            }
        }
        i = i + 1;
    }
    proof {
        assert(path@.take(i as int) =~= path@);
    }
    let n = deduped.len();
    let start = if n > 4 { n - 4 } else { 0 };
    let mut r = AsPath::new();
    let mut j = start;
    while j < n
        invariant
            start <= j <= n,
            n == deduped@.len(),
            as_path_asns(r) == asn_values(deduped@).subrange(start as int, j as int),
        decreases n - j,
    {
        r.push(deduped[j]);
        proof {
            assert(asn_values(deduped@).subrange(start as int, j + 1) =~= asn_values(deduped@).subrange(
                start as int,
                j as int,
            ).push(deduped@[j as int].0));
        }
        j = j + 1;
    }
    proof {
        let d = asn_values(deduped@);
        if n > 4 {
            assert(d.subrange(start as int, n as int) =~= d.skip(d.len() - 4));
        } else {
            assert(d.subrange(0, n as int) =~= d);
        }
    }
    r
}

/// `a` and `b` agree at distance `j` from their ends.
pub open spec fn agree_at(a: Seq<u32>, b: Seq<u32>, j: int) -> bool {
    a[a.len() - 1 - j] == b[b.len() - 1 - j]
}

/// `common_suffix(a, b)` is the last `k` elements of `a` when `a` and `b`
/// agree on their last `k` elements and on no more.
proof fn lemma_common_suffix_count(a: Seq<u32>, b: Seq<u32>, k: int)
    requires
        0 <= k <= a.len(),
        k <= b.len(),
        forall|j: int| 0 <= j < k ==> #[trigger] agree_at(a, b, j),
        k == a.len() || k == b.len() || a[a.len() - 1 - k] != b[b.len() - 1 - k],
    ensures
        common_suffix(a, b) == a.skip(a.len() - k),
    decreases a.len(),
{
    if k == 0 {
        assert(a.skip(a.len() as int) =~= Seq::<u32>::empty());
    } else {
        assert(a.last() == b.last()) by {
            assert(agree_at(a, b, 0));
        }
        let a1 = a.drop_last();
        let b1 = b.drop_last();
        assert forall|j: int| 0 <= j < k - 1 implies #[trigger] agree_at(a1, b1, j) by {
            assert(agree_at(a, b, j + 1));
        }
        lemma_common_suffix_count(a1, b1, k - 1);
        assert(a.skip(a.len() - k) =~= a1.skip(a1.len() - (k - 1)).push(a.last()));
    }
}

/// The longest common suffix of two paths.
pub fn common_suffix_of(a: &AsPath, b: &AsPath) -> (r: AsPath)
    ensures
        as_path_asns(r) == common_suffix(as_path_asns(*a), as_path_asns(*b)),
{
    let ghost sa = as_path_asns(*a);
    let ghost sb = as_path_asns(*b);
    let la = a.len();
    let lb = b.len();
    let mut k: usize = 0;
    while k < la && k < lb && a.get(la - 1 - k).0 == b.get(lb - 1 - k).0
        invariant
            k <= la,
            k <= lb,
            la == sa.len(),
            lb == sb.len(),
            sa == as_path_asns(*a),
            sb == as_path_asns(*b),
            forall|j: int| 0 <= j < k ==> #[trigger] agree_at(sa, sb, j),
        decreases la - k,
    {
        k = k + 1;
    }
    proof {
        lemma_common_suffix_count(sa, sb, k as int);
    }
    let mut r = AsPath::new();
    let mut i = la - k;
    while i < la
        invariant
            k <= la,
            la - k <= i <= la,
            la == sa.len(),
            sa == as_path_asns(*a),
            as_path_asns(r) == sa.subrange(la - k, i as int),
        decreases la - i,
    {
        r.push(a.get(i));
        proof {
            assert(sa.subrange(la - k, i + 1) =~= sa.subrange(la - k, i as int).push(sa[i as int]));
        }
        i = i + 1;
    }
    proof {
        assert(sa.subrange(la - k, la as int) =~= sa.skip(sa.len() - k));
    }
    r
}

/// The longest common suffix of `paths`, keeping at most the four hops
/// nearest the origin; empty when there are no paths.
pub fn longest_common_suffix(paths: &[AsPath]) -> (r: AsPath)
    ensures
        as_path_asns(r) == last_n(fold_suffix(paths@.map_values(|p: AsPath| as_path_asns(p))), 4),
{
    let ghost ps = paths@.map_values(|p: AsPath| as_path_asns(p));
    if paths.len() == 0 {
        return AsPath::new();
    }
    let mut acc = paths[0].copy();
    let mut i: usize = 1;
    while i < paths.len()
        invariant
            1 <= i <= paths.len(),
            ps == paths@.map_values(|p: AsPath| as_path_asns(p)),
            as_path_asns(acc) == fold_suffix(ps.take(i as int)),
        decreases paths.len() - i,
    {
        acc = common_suffix_of(&acc, &paths[i]);
        proof {
            assert(ps.take(i + 1).drop_last() =~= ps.take(i as int));
            assert(ps.take(i + 1).last() == as_path_asns(paths@[i as int]));
        }
        i = i + 1;
    }
    proof {
        assert(ps.take(i as int) =~= ps);
    }
    let n = acc.len();
    let start = if n > 4 { n - 4 } else { 0 };
    let ghost sa = as_path_asns(acc);
    let mut r = AsPath::new();
    let mut j = start;
    while j < n
        invariant
            start <= j <= n,
            n == sa.len(),
            sa == as_path_asns(acc),
            as_path_asns(r) == sa.subrange(start as int, j as int),
        decreases n - j,
    {
        r.push(acc.get(j));
        proof {
            assert(sa.subrange(start as int, j + 1) =~= sa.subrange(start as int, j as int).push(sa[j as int]));
        }
        j = j + 1;
    }
    proof {
        if n > 4 {
            assert(sa.subrange(start as int, n as int) =~= sa.skip(sa.len() - 4));
        } else {
            assert(sa.subrange(0, n as int) =~= sa);
        }
    }
    r
}

/// The ASNs that a prefix is attributed to from the common suffix of its
/// paths: from the origin towards the upstream end, up to and including the
/// first operator.
pub fn shared_upstreams(suffix: &AsPath, operators: &HashSet<u32>) -> (r: Vec<u32>)
    ensures
        r@ == attributed(as_path_asns(*suffix), operators@),
{
    let ghost s = as_path_asns(*suffix);
    let mut r: Vec<u32> = Vec::new();
    let mut i = suffix.len();
    proof {
        assert(s.take(i as int) =~= s);
    }
    while i > 0
        invariant
            i <= s.len(),
            s == as_path_asns(*suffix),
            r@ + attributed(s.take(i as int), operators@) == attributed(s, operators@),
        decreases i,
    {
        let a = suffix.get(i - 1).0;
        let ghost t = s.take(i as int);
        proof {
            assert(t.last() == a);
            assert(t.drop_last() =~= s.take(i - 1));
        }
        r.push(a);
        if operators.contains(&a) {
            proof {
                assert(r@ =~= r@ + attributed(Seq::<u32>::empty(), operators@));
            }
            return r;
        }
        proof {
            assert(r@ + attributed(s.take(i - 1), operators@) =~= r@.drop_last() + (seq![a] + attributed(s.take(i - 1), operators@)));
        }
        i = i - 1;
    }
    proof {
        assert(s.take(0) =~= Seq::<u32>::empty());
        assert(r@ + Seq::<u32>::empty() =~= r@);
    }
    r
}

proof fn lemma_suffix_drop_last(s: Seq<u32>, p: Seq<u32>)
    requires
        is_suffix(s, p),
        s.len() > 0,
    ensures
        is_suffix(s.drop_last(), p.drop_last()),
        s.last() == p.last(),
{
    assert(p.skip(p.len() - s.len())[s.len() - 1] == p.last());
    assert(p.drop_last().skip(p.drop_last().len() - s.drop_last().len()) =~= s.drop_last());
}

proof fn lemma_suffix_push(s: Seq<u32>, p: Seq<u32>, x: u32)
    requires
        is_suffix(s, p),
    ensures
        is_suffix(s.push(x), p.push(x)),
{
    assert(p.push(x).skip(p.push(x).len() - s.push(x).len()) =~= s.push(x));
}

proof fn lemma_suffix_antisymmetric(x: Seq<u32>, y: Seq<u32>)
    requires
        is_suffix(x, y),
        is_suffix(y, x),
    ensures
        x == y,
{
    assert(y.skip(0) =~= y);
}

proof fn lemma_suffix_transitive(x: Seq<u32>, y: Seq<u32>, z: Seq<u32>)
    requires
        is_suffix(x, y),
        is_suffix(y, z),
    ensures
        is_suffix(x, z),
{
    assert(z.skip(z.len() - x.len()) =~= y.skip(y.len() - x.len()));
}

/// The common suffix of two paths ends both of them.
pub proof fn lemma_common_suffix_ends_both(a: Seq<u32>, b: Seq<u32>)
    ensures
        is_suffix(common_suffix(a, b), a),
        is_suffix(common_suffix(a, b), b),
    decreases a.len(),
{
    if a.len() == 0 || b.len() == 0 || a.last() != b.last() {
        assert(a.skip(a.len() as int) =~= Seq::<u32>::empty());
        assert(b.skip(b.len() as int) =~= Seq::<u32>::empty());
    } else {
        lemma_common_suffix_ends_both(a.drop_last(), b.drop_last());
        lemma_suffix_push(common_suffix(a.drop_last(), b.drop_last()), a.drop_last(), a.last());
        lemma_suffix_push(common_suffix(a.drop_last(), b.drop_last()), b.drop_last(), b.last());
        assert(a.drop_last().push(a.last()) =~= a);
        assert(b.drop_last().push(b.last()) =~= b);
    }
}

/// Every sequence that ends both paths ends their common suffix.
pub proof fn lemma_common_suffix_longest(a: Seq<u32>, b: Seq<u32>, s: Seq<u32>)
    requires
        is_suffix(s, a),
        is_suffix(s, b),
    ensures
        is_suffix(s, common_suffix(a, b)),
    decreases a.len(),
{
    if s.len() == 0 {
        let c = common_suffix(a, b);
        assert(c.skip(c.len() as int) =~= s);
    } else {
        lemma_suffix_drop_last(s, a);
        lemma_suffix_drop_last(s, b);
        assert(a.len() > 0 && b.len() > 0 && a.last() == b.last());
        assert(common_suffix(a, b) == common_suffix(a.drop_last(), b.drop_last()).push(a.last()));
        lemma_common_suffix_longest(a.drop_last(), b.drop_last(), s.drop_last());
        lemma_suffix_push(s.drop_last(), common_suffix(a.drop_last(), b.drop_last()), a.last());
        let c = common_suffix(a, b);
        let s1 = s.drop_last().push(a.last());
        assert(s1 =~= s);
        assert(is_suffix(s1, c));
        assert(c.skip(c.len() - s.len()) =~= s);
    }
}

/// The common suffix does not depend on the order of the two paths.
pub proof fn law_common_suffix_commutes(a: Seq<u32>, b: Seq<u32>)
    ensures
        common_suffix(a, b) == common_suffix(b, a),
{
    lemma_common_suffix_ends_both(a, b);
    lemma_common_suffix_ends_both(b, a);
    lemma_common_suffix_longest(b, a, common_suffix(a, b));
    lemma_common_suffix_longest(a, b, common_suffix(b, a));
    lemma_suffix_antisymmetric(common_suffix(a, b), common_suffix(b, a));
}

/// Taking common suffixes of three paths gives the same result in either
/// grouping.
pub proof fn law_common_suffix_associates(a: Seq<u32>, b: Seq<u32>, c: Seq<u32>)
    ensures
        common_suffix(common_suffix(a, b), c) == common_suffix(a, common_suffix(b, c)),
{
    let ab = common_suffix(a, b);
    let bc = common_suffix(b, c);
    let x = common_suffix(ab, c);
    let y = common_suffix(a, bc);
    lemma_common_suffix_ends_both(a, b);
    lemma_common_suffix_ends_both(b, c);
    lemma_common_suffix_ends_both(ab, c);
    lemma_common_suffix_ends_both(a, bc);
    lemma_suffix_transitive(x, ab, a);
    lemma_suffix_transitive(x, ab, b);
    lemma_common_suffix_longest(b, c, x);
    lemma_common_suffix_longest(a, bc, x);
    lemma_suffix_transitive(y, bc, b);
    lemma_suffix_transitive(y, bc, c);
    lemma_common_suffix_longest(a, b, y);
    lemma_common_suffix_longest(ab, c, y);
    lemma_suffix_antisymmetric(x, y);
}

/// The common suffix taken path by path is the longest sequence that ends
/// every path.
pub proof fn law_fold_suffix_is_longest_common(paths: Seq<Seq<u32>>)
    requires
        paths.len() > 0,
    ensures
        ends_all(fold_suffix(paths), paths),
        forall|s: Seq<u32>| #[trigger] ends_all(s, paths) ==> is_suffix(s, fold_suffix(paths)),
    decreases paths.len(),
{
    let f = fold_suffix(paths);
    if paths.len() == 1 {
        assert(paths[0].skip(0) =~= paths[0]);
    } else {
        let init = paths.drop_last();
        law_fold_suffix_is_longest_common(init);
        let g = fold_suffix(init);
        lemma_common_suffix_ends_both(g, paths.last());
        assert forall|i: int| 0 <= i < paths.len() implies is_suffix(f, #[trigger] paths[i]) by {
            if i < paths.len() - 1 {
                assert(init[i] == paths[i]);
                lemma_suffix_transitive(f, g, paths[i]);
            }
        }
        assert forall|s: Seq<u32>| #[trigger] ends_all(s, paths) implies is_suffix(s, fold_suffix(paths)) by {
            assert forall|i: int| 0 <= i < init.len() implies is_suffix(s, #[trigger] init[i]) by {
                assert(init[i] == paths[i]);
            }
            assert(is_suffix(s, paths[paths.len() - 1]));
            assert(ends_all(s, init));
            assert(is_suffix(s, g));
            lemma_common_suffix_longest(g, paths.last(), s);
        }
    }
}

/// Combining the common suffixes of two groups of paths gives the common
/// suffix of all of them: the order in which observations are merged does
/// not matter.
pub proof fn law_merged_suffix(a: Seq<Seq<u32>>, b: Seq<Seq<u32>>)
    requires
        a.len() > 0,
        b.len() > 0,
    ensures
        fold_suffix(a + b) == common_suffix(fold_suffix(a), fold_suffix(b)),
    decreases b.len(),
{
    if b.len() == 1 {
        assert((a + b).drop_last() =~= a);
        assert((a + b).last() == b[0]);
    } else {
        law_merged_suffix(a, b.drop_last());
        assert((a + b).drop_last() =~= a + b.drop_last());
        assert((a + b).last() == b.last());
        law_common_suffix_associates(fold_suffix(a), fold_suffix(b.drop_last()), b.last());
    }
}

/// The last `n` elements of a sequence end it, and are at most `n`.
proof fn lemma_last_n_ends(x: Seq<u32>, n: nat)
    ensures
        is_suffix(last_n(x, n), x),
        last_n(x, n).len() <= n || last_n(x, n) == x,
        last_n(last_n(x, n), n) == last_n(x, n),
{
    if x.len() <= n {
        assert(x.skip(0) =~= x);
    }
}

/// A sequence of at most `n` elements that ends `x` ends the last `n`
/// elements of `x`.
proof fn lemma_short_suffix_ends_last_n(s: Seq<u32>, x: Seq<u32>, n: nat)
    requires
        is_suffix(s, x),
        s.len() <= n,
    ensures
        is_suffix(s, last_n(x, n)),
{
    if x.len() > n {
        let l = last_n(x, n);
        assert(l.skip(l.len() - s.len()) =~= x.skip(x.len() - s.len()));
    }
}

/// Keeping the last `n` elements of two sequences before taking their
/// common suffix gives the last `n` elements of their common suffix.
proof fn lemma_common_suffix_of_last_n(x: Seq<u32>, y: Seq<u32>, n: nat)
    ensures
        common_suffix(last_n(x, n), last_n(y, n)) == last_n(common_suffix(x, y), n),
{
    let lx = last_n(x, n);
    let ly = last_n(y, n);
    let c = common_suffix(x, y);
    let l = last_n(c, n);
    let d = common_suffix(lx, ly);
    lemma_last_n_ends(x, n);
    lemma_last_n_ends(y, n);
    lemma_last_n_ends(c, n);
    lemma_common_suffix_ends_both(x, y);
    lemma_common_suffix_ends_both(lx, ly);
    lemma_suffix_transitive(l, c, x);
    lemma_suffix_transitive(l, c, y);
    assert(l.len() <= n);
    lemma_short_suffix_ends_last_n(l, x, n);
    lemma_short_suffix_ends_last_n(l, y, n);
    lemma_common_suffix_longest(lx, ly, l);
    lemma_suffix_transitive(d, lx, x);
    lemma_suffix_transitive(d, ly, y);
    lemma_common_suffix_longest(x, y, d);
    if x.len() > n {
        assert(d.len() <= n);
    } else {
        assert(d.len() <= x.len());
        if c.len() > n {
            assert(c.len() <= x.len());
        }
    }
    if d.len() <= n {
        lemma_short_suffix_ends_last_n(d, c, n);
    } else {
        assert(l == c);
    }
    lemma_suffix_antisymmetric(d, l);
}

/// The common suffix of two paths, by the path-by-path fold.
proof fn lemma_fold_suffix_pair(x: Seq<u32>, y: Seq<u32>)
    ensures
        fold_suffix(seq![x, y]) == common_suffix(x, y),
{
    let p = seq![x, y];
    assert(p.drop_last() =~= seq![x]);
    assert(fold_suffix(p.drop_last()) == x);
}

/// Suffixes compose: the capped common suffix of the capped common suffixes
/// of two non-empty groups of paths is the capped common suffix of all
/// their paths together.
pub proof fn law_capped_suffixes_compose(a: Seq<Seq<u32>>, b: Seq<Seq<u32>>)
    requires
        a.len() > 0,
        b.len() > 0,
    ensures
        last_n(fold_suffix(seq![last_n(fold_suffix(a), 4), last_n(fold_suffix(b), 4)]), 4)
            == last_n(fold_suffix(a + b), 4),
{
    let fa = fold_suffix(a);
    let fb = fold_suffix(b);
    lemma_fold_suffix_pair(last_n(fa, 4), last_n(fb, 4));
    lemma_common_suffix_of_last_n(fa, fb, 4);
    lemma_last_n_ends(common_suffix(fa, fb), 4);
    law_merged_suffix(a, b);
}

/// The common suffix of a group of paths does not depend on the order in
/// which the paths come.
pub proof fn law_suffix_ignores_order(p: Seq<Seq<u32>>, q: Seq<Seq<u32>>)
    requires
        p.to_multiset() == q.to_multiset(),
    ensures
        fold_suffix(p) == fold_suffix(q),
        last_n(fold_suffix(p), 4) == last_n(fold_suffix(q), 4),
{
    broadcast use vstd::seq_lib::group_to_multiset_ensures;
    assert(p.len() == q.len()) by {
        assert(p.to_multiset().len() == p.len());
        assert(q.to_multiset().len() == q.len());
    }
    if p.len() > 0 {
        law_fold_suffix_is_longest_common(p);
        law_fold_suffix_is_longest_common(q);
        let fp = fold_suffix(p);
        let fq = fold_suffix(q);
        assert forall|i: int| 0 <= i < q.len() implies is_suffix(fp, #[trigger] q[i]) by {
            assert(q.contains(q[i]));
            assert(q.to_multiset().count(q[i]) > 0);
            assert(p.contains(q[i]));
            let j = choose|j: int| 0 <= j < p.len() && p[j] == q[i];
            assert(is_suffix(fp, p[j]));
        }
        assert(ends_all(fp, q));
        assert forall|i: int| 0 <= i < p.len() implies is_suffix(fq, #[trigger] p[i]) by {
            assert(p.contains(p[i]));
            assert(p.to_multiset().count(p[i]) > 0);
            assert(q.contains(p[i]));
            let j = choose|j: int| 0 <= j < q.len() && q[j] == p[i];
            assert(is_suffix(fq, q[j]));
        }
        assert(ends_all(fq, p));
        lemma_suffix_antisymmetric(fp, fq);
    }
}

/// Whether no two neighbouring hops of `s` are equal.
pub open spec fn no_repeats(s: Seq<u32>) -> bool {
    forall|j: int| 0 <= j < s.len() - 1 ==> #[trigger] s[j] != s[j + 1]
}

/// `k` copies of `a`: a hop prepended `k - 1` times.
pub open spec fn run_of(a: u32, k: nat) -> Seq<u32> {
    Seq::new(k, |_j: int| a)
}

proof fn lemma_dedup_last(s: Seq<u32>)
    requires
        s.len() > 0,
    ensures
        dedup_runs(s).len() > 0,
        dedup_runs(s).last() == s.last(),
{
}

proof fn lemma_dedup_repeat_hop(p: Seq<u32>, i: int)
    requires
        0 <= i < p.len(),
    ensures
        dedup_runs(p.insert(i, p[i])) == dedup_runs(p),
    decreases p.len(),
{
    let q = p.insert(i, p[i]);
    if i == p.len() - 1 {
        assert(q.drop_last() =~= p);
        assert(q.last() == p.last());
        lemma_dedup_last(p);
    } else {
        assert(q.drop_last() =~= p.drop_last().insert(i, p[i]));
        assert(p.drop_last()[i] == p[i]);
        assert(q.last() == p.last());
        lemma_dedup_repeat_hop(p.drop_last(), i);
    }
}

proof fn lemma_dedup_no_repeats(p: Seq<u32>)
    requires
        no_repeats(p),
    ensures
        dedup_runs(p) == p,
    decreases p.len(),
{
    if p.len() > 0 {
        let d = p.drop_last();
        assert forall|j: int| 0 <= j < d.len() - 1 implies #[trigger] d[j] != d[j + 1] by {
            assert(p[j] != p[j + 1]);
        }
        lemma_dedup_no_repeats(d);
        if d.len() > 0 {
            assert(p[p.len() - 2] != p[p.len() - 1]);
        }
        assert(d.push(p.last()) =~= p);
    }
}

proof fn lemma_dedup_append_run(s: Seq<u32>, a: u32, k: nat)
    requires
        s.len() > 0,
        s.last() != a,
        k >= 1,
    ensures
        dedup_runs(s + run_of(a, k)) == dedup_runs(s).push(a),
    decreases k,
{
    let x = s + run_of(a, k);
    lemma_dedup_last(s);
    if k == 1 {
        assert(x.drop_last() =~= s);
    } else {
        assert(x.drop_last() =~= s + run_of(a, (k - 1) as nat));
        lemma_dedup_append_run(s, a, (k - 1) as nat);
    }
}

proof fn lemma_dedup_run(a: u32, k: nat)
    requires
        k >= 1,
    ensures
        dedup_runs(run_of(a, k)) == seq![a],
    decreases k,
{
    let x = run_of(a, k);
    assert(x.last() == a);
    if k == 1 {
        assert(x.drop_last() =~= Seq::<u32>::empty());
        assert(dedup_runs(Seq::<u32>::empty()) == Seq::<u32>::empty());
        assert(Seq::<u32>::empty().push(a) =~= seq![a]);
    } else {
        assert(x.drop_last() =~= run_of(a, (k - 1) as nat));
        lemma_dedup_run(a, (k - 1) as nat);
    }
}

/// A normalized path has at most four hops.
pub proof fn law_normalized_capped(p: Seq<u32>)
    ensures
        normalized(p).len() <= 4,
{
}

/// Repeating a hop of a path, as origin prepending does, does not change
/// the normalized path.
pub proof fn law_normalized_ignores_repeated_hop(p: Seq<u32>, i: int)
    requires
        0 <= i < p.len(),
    ensures
        normalized(p.insert(i, p[i])) == normalized(p),
{
    lemma_dedup_repeat_hop(p, i);
}

/// A path without repeated neighbours normalizes to its last four hops.
pub proof fn law_normalized_without_repeats(p: Seq<u32>)
    requires
        no_repeats(p),
    ensures
        normalized(p) == (if p.len() > 4 { p.skip(p.len() - 4) } else { p }),
{
    lemma_dedup_no_repeats(p);
}

/// A path that ends with a hop `u` and then the origin `a`, possibly
/// prepended, normalizes to a path of at least two hops whose last is `a`
/// and whose second to last is `u`.
pub proof fn law_normalized_keeps_hop_before_origin(p: Seq<u32>, u: u32, a: u32, k: nat)
    requires
        u != a,
        k >= 1,
    ensures
        normalized(p.push(u) + run_of(a, k)).len() >= 2,
        normalized(p.push(u) + run_of(a, k)).last() == a,
        normalized(p.push(u) + run_of(a, k))[normalized(p.push(u) + run_of(a, k)).len() - 2] == u,
{
    let s = p.push(u);
    lemma_dedup_append_run(s, a, k);
    lemma_dedup_last(s);
    let x = dedup_runs(s).push(a);
    assert(x[x.len() - 2] == u);
    if x.len() > 4 {
        let n = x.skip(x.len() - 4);
        assert(n[2] == x[x.len() - 2]);
    }
}

/// A path made of the origin alone, possibly prepended, normalizes to that
/// one hop.
pub proof fn law_normalized_origin_alone(a: u32, k: nat)
    requires
        k >= 1,
    ensures
        normalized(run_of(a, k)) == seq![a],
{
    lemma_dedup_run(a, k);
}

/// Attribution walks a common suffix from the origin end towards the
/// upstream end and stops after the first operator: it lists the suffix's
/// ASNs in that order, none before the last one listed is an operator, and
/// it leaves ASNs out only when it stopped at an operator.
pub proof fn law_attribution_stops_at_first_operator(s: Seq<u32>, operators: Set<u32>)
    ensures
        attributed(s, operators).len() <= s.len(),
        forall|i: int| 0 <= i < attributed(s, operators).len() ==> #[trigger] attributed(s, operators)[i] == s[s.len() - 1 - i],
        forall|i: int| 0 <= i < attributed(s, operators).len() - 1 ==> !operators.contains(#[trigger] attributed(s, operators)[i]),
        attributed(s, operators).len() < s.len() ==> attributed(s, operators).len() > 0 && operators.contains(
            attributed(s, operators).last(),
        ),
    decreases s.len(),
{
    if s.len() > 0 && !operators.contains(s.last()) {
        let t = s.drop_last();
        law_attribution_stops_at_first_operator(t, operators);
        let r = attributed(s, operators);
        let rt = attributed(t, operators);
        assert(r == seq![s.last()] + rt);
        assert forall|i: int| 0 <= i < r.len() implies #[trigger] r[i] == s[s.len() - 1 - i] by {
            if i > 0 {
                assert(r[i] == rt[i - 1]);
                assert(rt[i - 1] == t[t.len() - 1 - (i - 1)]);
            }
        }
        assert forall|i: int| 0 <= i < r.len() - 1 implies !operators.contains(#[trigger] r[i]) by {
            if i > 0 {
                assert(r[i] == rt[i - 1]);
            }
        }
        if r.len() < s.len() {
            assert(rt.len() < t.len());
            assert(r.last() == rt.last());
        }
    }
}

} // verus!
