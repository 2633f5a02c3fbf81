//! Pairwise similarity scan and the connectivity it induces.

use vstd::prelude::*;
use crate::dsu::DisjointSet;
use crate::fingerprint::{Image, hamming, sim_at_least, hamming_distance, reaches_threshold};

verus! {

/// Whether images `i` and `j` are similar enough for threshold `num / den`.
pub open spec fn close_pair(images: Seq<Image>, num: int, den: int, i: int, j: int) -> bool {
    sim_at_least(hamming(images[i].hash, images[j].hash) as int, num, den)
}

/// Whether some element of `ps` is exactly the pair `(i, j)`.
pub open spec fn has_pair(ps: Seq<(usize, usize)>, i: int, j: int) -> bool {
    exists|k: int| 0 <= k < ps.len() && ps[k].0 == i && ps[k].1 == j
}

/// `ps` lists exactly the upper-triangle index pairs of `images` whose
/// similarity reaches `num / den`, each at most once.
pub open spec fn pairs_exact(ps: Seq<(usize, usize)>, images: Seq<Image>, num: int, den: int) -> bool {
    &&& forall|k: int| 0 <= k < ps.len() ==> (#[trigger] ps[k]).0 < ps[k].1 < images.len()
    &&& forall|i: int, j: int| 0 <= i < j < images.len() ==>
            (#[trigger] has_pair(ps, i, j) <==> close_pair(images, num, den, i, j))
    &&& ps.no_duplicates()
}

/// Appending a pair extends pair membership by exactly that pair.
proof fn lemma_has_pair_push(ps: Seq<(usize, usize)>, x: (usize, usize), a: int, b: int)
    ensures
        has_pair(ps.push(x), a, b) <==> (has_pair(ps, a, b) || (x.0 == a && x.1 == b)),
{
    let ps2 = ps.push(x);
    if has_pair(ps2, a, b) {
        let k = choose|k: int| 0 <= k < ps2.len() && ps2[k].0 == a && ps2[k].1 == b;
        if k < ps.len() {
            assert(ps[k].0 == a && ps[k].1 == b);
            assert(has_pair(ps, a, b));
        } else {
            assert(ps2[k] == x);
        }
    }
    if has_pair(ps, a, b) {
        let k = choose|k: int| 0 <= k < ps.len() && ps[k].0 == a && ps[k].1 == b;
        assert(ps2[k].0 == a && ps2[k].1 == b);
        assert(has_pair(ps2, a, b));
    }
    if x.0 == a && x.1 == b {
        assert(ps2[ps.len() as int].0 == a && ps2[ps.len() as int].1 == b);
        assert(has_pair(ps2, a, b));
    }
}

/// Exhaustive upper-triangle scan: every pair `(i, j)` with `i < j` whose
/// similarity `1 - distance/64` reaches `num / den` is retained, inclusively,
/// and nothing else.
pub fn similar_pairs(images: &Vec<Image>, num: u64, den: u64) -> (ps: Vec<(usize, usize)>)
    requires
        0 < den,
        num <= den,
    ensures
        pairs_exact(ps@, images@, num as int, den as int),
{
    let n = images.len();
    let mut ps: Vec<(usize, usize)> = Vec::new();
    let mut i: usize = 0;
    while i < n
        invariant
            i <= n,
            n == images@.len(),
            0 < den,
            num <= den,
            forall|k: int| 0 <= k < ps@.len() ==> (#[trigger] ps@[k]).0 < ps@[k].1 < n,
            forall|k: int| 0 <= k < ps@.len() ==> (#[trigger] ps@[k]).0 < i,
            forall|a: int, b: int| 0 <= a < b < n && a < i ==>
                (#[trigger] has_pair(ps@, a, b) <==> close_pair(images@, num as int, den as int, a, b)),
            ps@.no_duplicates(),
        decreases n - i,
    {
        let mut j: usize = i + 1;
        while j < n
            invariant
                i < n,
                i < j <= n,
                n == images@.len(),
                0 < den,
                num <= den,
                forall|k: int| 0 <= k < ps@.len() ==> (#[trigger] ps@[k]).0 < ps@[k].1 < n,
                forall|k: int| 0 <= k < ps@.len() ==>
                    (#[trigger] ps@[k]).0 < i || (ps@[k].0 == i && ps@[k].1 < j),
                forall|a: int, b: int| 0 <= a < b < n && a < i ==>
                    (#[trigger] has_pair(ps@, a, b) <==> close_pair(images@, num as int, den as int, a, b)),
                forall|b: int| i < b < j ==>
                    (#[trigger] has_pair(ps@, i as int, b) <==> close_pair(images@, num as int, den as int, i as int, b)),
                ps@.no_duplicates(),
            decreases n - j,
        {
            let ghost ps0 = ps@;
            let d = hamming_distance(images[i].hash, images[j].hash);
            if reaches_threshold(d, num, den) {
                ps.push((i, j));
                proof {
                    assert(ps@ == ps0.push((i, j)));
                    assert forall|a: int, b: int| 0 <= a < b < n && a < i implies
                        (has_pair(ps@, a, b) <==> close_pair(images@, num as int, den as int, a, b)) by {
                        lemma_has_pair_push(ps0, (i, j), a, b);
                        assert(has_pair(ps0, a, b) <==> close_pair(images@, num as int, den as int, a, b));
                    }
                    assert forall|b: int| i < b < j + 1 implies
                        (has_pair(ps@, i as int, b) <==> close_pair(images@, num as int, den as int, i as int, b)) by {
                        lemma_has_pair_push(ps0, (i, j), i as int, b);
                        if b < j {
                            assert(has_pair(ps0, i as int, b) <==> close_pair(images@, num as int, den as int, i as int, b));
                        }
                    }
                    assert(forall|m: int| 0 <= m < ps0.len() ==> (#[trigger] ps0[m]) != (i, j));
                    assert(ps@.no_duplicates());
                }
            } else {
                proof {
                    assert(forall|m: int| 0 <= m < ps@.len() ==> !((#[trigger] ps@[m]).0 == i && ps@[m].1 == j));
                    assert(!has_pair(ps@, i as int, j as int));
                    assert forall|b: int| i < b < j + 1 implies
                        (has_pair(ps@, i as int, b) <==> close_pair(images@, num as int, den as int, i as int, b)) by {
                        if b < j {
                            assert(has_pair(ps@, i as int, b) <==> close_pair(images@, num as int, den as int, i as int, b));
                        }
                    }
                }
            }
            j = j + 1;
        }
        i = i + 1;
    }
    ps
}

/// Connectivity through the first `k` pairs of `ps`: the least equivalence
/// relation that relates the two ends of each of those pairs.
pub open spec fn linked(ps: Seq<(usize, usize)>, k: nat, a: int, b: int) -> bool
    decreases k,
{
    if k == 0 {
        a == b
    } else {
        let p = ps[k - 1].0 as int;
        let q = ps[k - 1].1 as int;
        ||| linked(ps, (k - 1) as nat, a, b)
        ||| (linked(ps, (k - 1) as nat, a, p) && linked(ps, (k - 1) as nat, q, b))
        ||| (linked(ps, (k - 1) as nat, a, q) && linked(ps, (k - 1) as nat, p, b))
    }
}

/// Feed every retained pair to the partition.  Starting from singleton
/// classes, two indices end up in the same class exactly when the pairs
/// connect them.
pub fn merge_pairs(d: &mut DisjointSet, ps: &Vec<(usize, usize)>)
    requires
        old(d).wf(),
        forall|k: int| 0 <= k < ps@.len() ==>
            (#[trigger] ps@[k]).0 < old(d).size() && ps@[k].1 < old(d).size(),
        forall|a: int, b: int| 0 <= a < old(d).size() && 0 <= b < old(d).size() ==>
            (old(d).same_set(a, b) <==> a == b),
    ensures
        final(d).wf(),
        final(d).size() == old(d).size(),
        forall|a: int, b: int| 0 <= a < final(d).size() && 0 <= b < final(d).size() ==>
            (final(d).same_set(a, b) <==> linked(ps@, ps@.len(), a, b)),
{
    let ghost n = old(d).size();
    let mut k: usize = 0;
    while k < ps.len()
        invariant
            k <= ps@.len(),
            d.wf(),
            d.size() == n,
            forall|m: int| 0 <= m < ps@.len() ==>
                (#[trigger] ps@[m]).0 < n && ps@[m].1 < n,
            forall|a: int, b: int| 0 <= a < n && 0 <= b < n ==>
                (d.same_set(a, b) <==> linked(ps@, k as nat, a, b)),
        decreases ps@.len() - k,
    {
        let ghost dprev = *d;
        let pair = ps[k];
        d.union(pair.0, pair.1);
        proof {
            let p = ps@[k as int].0 as int;
            let q = ps@[k as int].1 as int;
            assert forall|a: int, b: int| 0 <= a < n && 0 <= b < n implies
                (d.same_set(a, b) <==> linked(ps@, (k + 1) as nat, a, b)) by {
                assert(dprev.same_set(a, b) <==> linked(ps@, k as nat, a, b));
                assert(dprev.same_set(a, p) <==> linked(ps@, k as nat, a, p));
                assert(dprev.same_set(q, b) <==> linked(ps@, k as nat, q, b));
                assert(dprev.same_set(a, q) <==> linked(ps@, k as nat, a, q));
                assert(dprev.same_set(p, b) <==> linked(ps@, k as nat, p, b));
                assert(d.same_set(a, b) <==> (dprev.same_set(a, b)
                    || (dprev.same_set(a, p) && dprev.same_set(b, q))
                    || (dprev.same_set(a, q) && dprev.same_set(b, p))));
            }
        }
        k = k + 1;
    }
}

/// Every index is connected to itself.
pub proof fn lemma_linked_refl(ps: Seq<(usize, usize)>, k: nat, a: int)
    ensures
        linked(ps, k, a, a),
    decreases k,
{
    if k > 0 {
        lemma_linked_refl(ps, (k - 1) as nat, a);
    }
}

/// Connectivity is symmetric.
pub proof fn lemma_linked_sym(ps: Seq<(usize, usize)>, k: nat, a: int, b: int)
    requires
        linked(ps, k, a, b),
    ensures
        linked(ps, k, b, a),
    decreases k,
{
    if k > 0 {
        let km1 = (k - 1) as nat;
        let p = ps[k - 1].0 as int;
        let q = ps[k - 1].1 as int;
        if linked(ps, km1, a, b) {
            lemma_linked_sym(ps, km1, a, b);
        } else if linked(ps, km1, a, p) && linked(ps, km1, q, b) {
            lemma_linked_sym(ps, km1, a, p);
            lemma_linked_sym(ps, km1, q, b);
        } else {
            lemma_linked_sym(ps, km1, a, q);
            lemma_linked_sym(ps, km1, p, b);
        }
    }
}

/// Connectivity is transitive.
pub proof fn lemma_linked_trans(ps: Seq<(usize, usize)>, k: nat, a: int, b: int, c: int)
    requires
        linked(ps, k, a, b),
        linked(ps, k, b, c),
    ensures
        linked(ps, k, a, c),
    decreases k,
{
    if k > 0 {
        let km1 = (k - 1) as nat;
        let p = ps[k - 1].0 as int;
        let q = ps[k - 1].1 as int;
        if linked(ps, km1, a, b) {
            if linked(ps, km1, b, c) {
                lemma_linked_trans(ps, km1, a, b, c);
            } else if linked(ps, km1, b, p) && linked(ps, km1, q, c) {
                lemma_linked_trans(ps, km1, a, b, p);
            } else {
                lemma_linked_trans(ps, km1, a, b, q);
            }
        } else if linked(ps, km1, a, p) && linked(ps, km1, q, b) {
            if linked(ps, km1, b, c) {
                lemma_linked_trans(ps, km1, q, b, c);
            } else if linked(ps, km1, b, p) && linked(ps, km1, q, c) {
            } else {
                lemma_linked_trans(ps, km1, a, p, c);
            }
        } else {
            if linked(ps, km1, b, c) {
                lemma_linked_trans(ps, km1, p, b, c);
            } else if linked(ps, km1, b, p) && linked(ps, km1, q, c) {
                lemma_linked_trans(ps, km1, a, q, c);
            } else {
                lemma_linked_sym(ps, km1, b, q);
                lemma_linked_trans(ps, km1, a, q, b);
                lemma_linked_sym(ps, km1, p, b);
                lemma_linked_trans(ps, km1, a, b, p);
                lemma_linked_trans(ps, km1, a, p, c);
            }
        }
    }
}

/// The two ends of every processed pair are connected.
pub proof fn lemma_pair_linked(ps: Seq<(usize, usize)>, k: nat, m: int)
    requires
        0 <= m < k <= ps.len(),
    ensures
        linked(ps, k, ps[m].0 as int, ps[m].1 as int),
    decreases k,
{
    if m == k - 1 {
        lemma_linked_refl(ps, (k - 1) as nat, ps[m].0 as int);
        lemma_linked_refl(ps, (k - 1) as nat, ps[m].1 as int);
    } else {
        lemma_pair_linked(ps, (k - 1) as nat, m);
    }
}

/// A listed pair's two ends are connected under the whole list.
pub proof fn lemma_has_pair_linked(ps: Seq<(usize, usize)>, a: int, b: int)
    requires
        has_pair(ps, a, b),
    ensures
        linked(ps, ps.len(), a, b),
{
    let m = choose|m: int| 0 <= m < ps.len() && ps[m].0 == a && ps[m].1 == b;
    lemma_pair_linked(ps, ps.len(), m);
}

/// Connectivity is the least equivalence relation containing the pairs:
/// any reflexive, symmetric and transitive relation that relates the two
/// ends of every processed pair contains it.
pub proof fn lemma_linked_least(ps: Seq<(usize, usize)>, k: nat, a: int, b: int, r: spec_fn(int, int) -> bool)
    requires
        k <= ps.len(),
        linked(ps, k, a, b),
        forall|x: int| #[trigger] r(x, x),
        forall|x: int, y: int| #[trigger] r(x, y) ==> r(y, x),
        forall|x: int, y: int, z: int| #[trigger] r(x, y) && #[trigger] r(y, z) ==> r(x, z),
        forall|m: int| 0 <= m < k ==> #[trigger] r(ps[m].0 as int, ps[m].1 as int),
    ensures
        r(a, b),
    decreases k,
{
    if k > 0 {
        let p = ps[k - 1].0 as int;
        let q = ps[k - 1].1 as int;
        if linked(ps, (k - 1) as nat, a, b) {
            lemma_linked_least(ps, (k - 1) as nat, a, b, r);
        } else if linked(ps, (k - 1) as nat, a, p) && linked(ps, (k - 1) as nat, q, b) {
            lemma_linked_least(ps, (k - 1) as nat, a, p, r);
            lemma_linked_least(ps, (k - 1) as nat, q, b, r);
            assert(r(p, q));
        } else {
            lemma_linked_least(ps, (k - 1) as nat, a, q, r);
            lemma_linked_least(ps, (k - 1) as nat, p, b, r);
            assert(r(p, q));
        }
    }
}

/// Raising the similarity threshold never adds a retained pair and never
/// increases how many pairs are retained: with `num1/den1 <= num2/den2`,
/// the pairs retained at the higher threshold are among those retained at
/// the lower one.
pub proof fn lemma_threshold_monotone_pairs(
    ps1: Seq<(usize, usize)>,
    ps2: Seq<(usize, usize)>,
    images: Seq<Image>,
    num1: int, den1: int, num2: int, den2: int,
)
    requires
        pairs_exact(ps1, images, num1, den1),
        pairs_exact(ps2, images, num2, den2),
        0 < den1,
        0 < den2,
        num1 * den2 <= num2 * den1,
    ensures
        forall|i: int, j: int| 0 <= i < j < images.len() && #[trigger] has_pair(ps2, i, j)
            ==> has_pair(ps1, i, j),
        ps2.len() <= ps1.len(),
{
    assert forall|i: int, j: int| 0 <= i < j < images.len() && #[trigger] has_pair(ps2, i, j)
        implies has_pair(ps1, i, j) by {
        let dd = hamming(images[i].hash, images[j].hash) as int;
        assert((64 - dd) * den2 >= 64 * num2);
        assert((64 - dd) * den1 >= 64 * num1) by (nonlinear_arith)
            requires
                (64 - dd) * den2 >= 64 * num2,
                num1 * den2 <= num2 * den1,
                0 < den1,
                0 < den2,
        ;
    }
    let s1 = ps1.to_set();
    let s2 = ps2.to_set();
    ps1.unique_seq_to_set();
    ps2.unique_seq_to_set();
    assert forall|x: (usize, usize)| s2.contains(x) implies s1.contains(x) by {
        let m = choose|m: int| 0 <= m < ps2.len() && ps2[m] == x;
        assert(has_pair(ps2, x.0 as int, x.1 as int));
        assert(has_pair(ps1, x.0 as int, x.1 as int));
        let m1 = choose|m1: int| 0 <= m1 < ps1.len() && ps1[m1].0 == x.0 as int && ps1[m1].1 == x.1 as int;
        assert(ps1[m1] == x);
        assert(ps1.contains(x));
    }
    vstd::seq_lib::seq_to_set_is_finite(ps1);
    vstd::set_lib::lemma_len_subset(s2, s1);
}

/// Raising the similarity threshold never lets a new image into a group:
/// an index connected to another one at the higher threshold is connected
/// to another one at the lower threshold as well.
pub proof fn lemma_threshold_monotone_grouped(
    ps1: Seq<(usize, usize)>,
    ps2: Seq<(usize, usize)>,
    images: Seq<Image>,
    num1: int, den1: int, num2: int, den2: int,
    a: int, b: int,
)
    requires
        pairs_exact(ps1, images, num1, den1),
        pairs_exact(ps2, images, num2, den2),
        0 < den1,
        0 < den2,
        num1 * den2 <= num2 * den1,
        linked(ps2, ps2.len(), a, b),
    ensures
        linked(ps1, ps1.len(), a, b),
{
    lemma_threshold_monotone_pairs(ps1, ps2, images, num1, den1, num2, den2);
    let r = |x: int, y: int| linked(ps1, ps1.len(), x, y);
    assert forall|x: int| #[trigger] r(x, x) by {
        lemma_linked_refl(ps1, ps1.len(), x);
    }
    assert forall|x: int, y: int| #[trigger] r(x, y) implies r(y, x) by {
        lemma_linked_sym(ps1, ps1.len(), x, y);
    }
    assert forall|x: int, y: int, z: int| #[trigger] r(x, y) && #[trigger] r(y, z) implies r(x, z) by {
        lemma_linked_trans(ps1, ps1.len(), x, y, z);
    }
    assert forall|m: int| 0 <= m < ps2.len() implies #[trigger] r(ps2[m].0 as int, ps2[m].1 as int) by {
        assert(ps2[m].0 < ps2[m].1 < images.len());
        assert(has_pair(ps2, ps2[m].0 as int, ps2[m].1 as int));
        assert(has_pair(ps1, ps2[m].0 as int, ps2[m].1 as int));
        lemma_has_pair_linked(ps1, ps2[m].0 as int, ps2[m].1 as int);
    }
    lemma_linked_least(ps2, ps2.len(), a, b, r);
}


} // verus!
