//! Reconstituting groups from a finished partition.

use vstd::prelude::*;
use crate::dsu::DisjointSet;
use crate::fingerprint::Image;

verus! {

/// Whether index `i` appears somewhere in the groups `gs`.
pub open spec fn appears(gs: Seq<Seq<usize>>, i: int) -> bool {
    exists|g: int, k: int| 0 <= g < gs.len() && 0 <= k < gs[g].len() && gs[g][k] == i
}

/// `gs` is the canonical grouping of `0 .. n` under the equivalence `eq`:
/// every group lists one whole class of at least two indices in increasing
/// order, groups are ordered by their first member, members of different
/// groups are unrelated, and an index appears exactly when its class has a
/// second member.
pub open spec fn grouping_exact(gs: Seq<Seq<usize>>, n: int, eq: spec_fn(int, int) -> bool) -> bool {
    &&& forall|g: int, k: int| 0 <= g < gs.len() && 0 <= k < gs[g].len() ==> 0 <= #[trigger] gs[g][k] < n
    &&& forall|g: int| 0 <= g < gs.len() ==> (#[trigger] gs[g]).len() >= 2
    &&& forall|g: int, k1: int, k2: int|
            #![trigger gs[g][k1], gs[g][k2]]
            0 <= g < gs.len() && 0 <= k1 < k2 < gs[g].len() ==> gs[g][k1] < gs[g][k2]
    &&& forall|g1: int, g2: int|
            #![trigger gs[g1], gs[g2]]
            0 <= g1 < g2 < gs.len() ==> gs[g1][0] < gs[g2][0]
    &&& forall|g: int, k1: int, k2: int|
            #![trigger gs[g][k1], gs[g][k2]]
            0 <= g < gs.len() && 0 <= k1 < gs[g].len() && 0 <= k2 < gs[g].len()
            ==> eq(gs[g][k1] as int, gs[g][k2] as int)
    &&& forall|g1: int, k1: int, g2: int, k2: int|
            #![trigger gs[g1][k1], gs[g2][k2]]
            0 <= g1 < gs.len() && 0 <= k1 < gs[g1].len()
            && 0 <= g2 < gs.len() && 0 <= k2 < gs[g2].len() && g1 != g2
            ==> !eq(gs[g1][k1] as int, gs[g2][k2] as int)
    &&& forall|i: int| 0 <= i < n ==>
            (#[trigger] appears(gs, i) <==> exists|j: int| 0 <= j < n && j != i && #[trigger] eq(i, j))
}

/// Appending a group extends appearance by exactly that group's members.
proof fn lemma_appears_push(gs: Seq<Seq<usize>>, x: Seq<usize>, m: int)
    ensures
        appears(gs.push(x), m) <==> (appears(gs, m) || exists|k: int| 0 <= k < x.len() && x[k] == m),
{
    let gs2 = gs.push(x);
    if appears(gs2, m) {
        let (g, k) = choose|g: int, k: int| 0 <= g < gs2.len() && 0 <= k < gs2[g].len() && gs2[g][k] == m;
        if g < gs.len() {
            assert(gs[g][k] == m);
            assert(appears(gs, m));
        } else {
            assert(gs2[g] == x);
        }
    }
    if appears(gs, m) {
        let (g, k) = choose|g: int, k: int| 0 <= g < gs.len() && 0 <= k < gs[g].len() && gs[g][k] == m;
        assert(gs2[g][k] == m);
        assert(appears(gs2, m));
    }
    if exists|k: int| 0 <= k < x.len() && x[k] == m {
        let k = choose|k: int| 0 <= k < x.len() && x[k] == m;
        assert(gs2[gs.len() as int][k] == m);
        assert(appears(gs2, m));
    }
}

/// A grouping for one equivalence is a grouping for any pointwise equal one.
pub proof fn lemma_grouping_congruence(gs: Seq<Seq<usize>>, n: int, eq1: spec_fn(int, int) -> bool, eq2: spec_fn(int, int) -> bool)
    requires
        grouping_exact(gs, n, eq1),
        forall|a: int, b: int| 0 <= a < n && 0 <= b < n ==> #[trigger] eq1(a, b) == eq2(a, b),
    ensures
        grouping_exact(gs, n, eq2),
{
    assert forall|i: int| 0 <= i < n implies
        (#[trigger] appears(gs, i) <==> exists|j: int| 0 <= j < n && j != i && #[trigger] eq2(i, j)) by {
        if appears(gs, i) {
            let j = choose|j: int| 0 <= j < n && j != i && #[trigger] eq1(i, j);
            assert(eq2(i, j));
        }
        if exists|j: int| 0 <= j < n && j != i && #[trigger] eq2(i, j) {
            let j = choose|j: int| 0 <= j < n && j != i && #[trigger] eq2(i, j);
            assert(eq1(i, j));
        }
    }
}

/// No index is listed twice across the groups of a canonical grouping:
/// positions that differ hold different indices.
pub proof fn lemma_no_duplication(gs: Seq<Seq<usize>>, n: int, eq: spec_fn(int, int) -> bool, g1: int, k1: int, g2: int, k2: int)
    requires
        grouping_exact(gs, n, eq),
        0 <= g1 < gs.len(),
        0 <= k1 < gs[g1].len(),
        0 <= g2 < gs.len(),
        0 <= k2 < gs[g2].len(),
        !(g1 == g2 && k1 == k2),
    ensures
        gs[g1][k1] != gs[g2][k2],
{
    if g1 == g2 {
        if k1 < k2 {
            assert(gs[g1][k1] < gs[g1][k2]);
        } else {
            assert(gs[g1][k2] < gs[g1][k1]);
        }
    } else {
        assert(eq(gs[g1][k1] as int, gs[g1][k1] as int));
        assert(!eq(gs[g1][k1] as int, gs[g2][k2] as int));
    }
}

/// Class membership in a partition, as a two-place relation on indices.
pub open spec fn root_eq(d: DisjointSet) -> spec_fn(int, int) -> bool {
    |a: int, b: int| d.same_set(a, b)
}

/// Group every index with the other members of its class and keep the
/// classes with at least two members.  Groups are ordered by first member,
/// members in index order; class membership itself is untouched.
#[verifier::loop_isolation(false)]
pub fn group_indices(d: &mut DisjointSet) -> (gs: Vec<Vec<usize>>)
    requires
        old(d).wf(),
    ensures
        final(d).wf(),
        final(d).size() == old(d).size(),
        forall|j: int| 0 <= j < final(d).size() ==> final(d).root_of(j) == old(d).root_of(j),
        grouping_exact(gs.deep_view(), old(d).size() as int, root_eq(*old(d))),
{
    let ghost d0 = *old(d);
    let n = d.len();
    let mut roots: Vec<usize> = Vec::new();
    let mut i: usize = 0;
    while i < n
        invariant
            i <= n,
            d.wf(),
            d.size() == n,
            forall|j: int| 0 <= j < n ==> d.root_of(j) == d0.root_of(j),
            roots@.len() == i,
            forall|k: int| 0 <= k < i ==> #[trigger] roots@[k] == d0.root_of(k),
        decreases n - i,
    {
        let r = d.find_root(i);
        roots.push(r);
        i = i + 1;
    }
    let mut assigned: Vec<bool> = Vec::new();
    let mut i: usize = 0;
    while i < n
        invariant
            i <= n,
            assigned@.len() == i,
            forall|k: int| 0 <= k < i ==> !(#[trigger] assigned@[k]),
        decreases n - i,
    {
        assigned.push(false);
        i = i + 1;
    }
    let ghost rt = |x: int| d0.root_of(x);
    let mut gs: Vec<Vec<usize>> = Vec::new();
    let mut i: usize = 0;
    while i < n
        invariant
            i <= n,
            assigned@.len() == n,
            forall|k: int| 0 <= k < n ==>
                ((#[trigger] assigned@[k]) <==> exists|a: int| 0 <= a < i && #[trigger] rt(a) == rt(k)),
            forall|g: int, k: int| 0 <= g < gs.deep_view().len() && 0 <= k < gs.deep_view()[g].len()
                ==> 0 <= #[trigger] gs.deep_view()[g][k] < n,
            forall|g: int| 0 <= g < gs.deep_view().len() ==> (#[trigger] gs.deep_view()[g]).len() >= 2,
            forall|g: int, k1: int, k2: int|
                #![trigger gs.deep_view()[g][k1], gs.deep_view()[g][k2]]
                0 <= g < gs.deep_view().len() && 0 <= k1 < k2 < gs.deep_view()[g].len()
                ==> gs.deep_view()[g][k1] < gs.deep_view()[g][k2],
            forall|g1: int, g2: int|
                #![trigger gs.deep_view()[g1], gs.deep_view()[g2]]
                0 <= g1 < g2 < gs.deep_view().len() ==> gs.deep_view()[g1][0] < gs.deep_view()[g2][0],
            forall|g: int| 0 <= g < gs.deep_view().len() ==> (#[trigger] gs.deep_view()[g])[0] < i,
            forall|g: int, k: int| 0 <= g < gs.deep_view().len() && 0 <= k < gs.deep_view()[g].len()
                ==> rt(#[trigger] gs.deep_view()[g][k] as int) == rt(gs.deep_view()[g][0] as int),
            forall|g1: int, g2: int|
                #![trigger gs.deep_view()[g1], gs.deep_view()[g2]]
                0 <= g1 < gs.deep_view().len() && 0 <= g2 < gs.deep_view().len() && g1 != g2
                ==> rt(gs.deep_view()[g1][0] as int) != rt(gs.deep_view()[g2][0] as int),
            forall|g: int, m: int|
                #![trigger rt(m), gs.deep_view()[g]]
                0 <= g < gs.deep_view().len() && 0 <= m < n && rt(m) == rt(gs.deep_view()[g][0] as int)
                ==> exists|k: int| 0 <= k < gs.deep_view()[g].len() && gs.deep_view()[g][k] == m,
            forall|m: int| 0 <= m < n
                && (exists|a: int| 0 <= a < i && #[trigger] rt(a) == rt(m))
                && (exists|j: int| 0 <= j < n && j != m && #[trigger] rt(j) == rt(m))
                ==> #[trigger] appears(gs.deep_view(), m),
        decreases n - i,
    {
        let ghost dv0 = gs.deep_view();
        if !assigned[i] {
            proof {
                assert(forall|a: int| 0 <= a < i ==> #[trigger] rt(a) != rt(i as int));
            }
            let mut grp: Vec<usize> = Vec::new();
            let mut j: usize = i;
            while j < n
                invariant
                    i <= j <= n,
                    assigned@.len() == n,
                    forall|k: int| 0 <= k < n ==>
                        ((#[trigger] assigned@[k]) <==>
                            ((exists|a: int| 0 <= a < i && #[trigger] rt(a) == rt(k))
                             || (i <= k < j && rt(k) == rt(i as int)))),
                    forall|k: int| 0 <= k < grp@.len() ==> i <= #[trigger] grp@[k] < j,
                    forall|k1: int, k2: int|
                        #![trigger grp@[k1], grp@[k2]]
                        0 <= k1 < k2 < grp@.len() ==> grp@[k1] < grp@[k2],
                    forall|k: int| 0 <= k < grp@.len() ==> rt(#[trigger] grp@[k] as int) == rt(i as int),
                    forall|m: int| i <= m < j ==>
                        ((exists|k: int| 0 <= k < grp@.len() && grp@[k] == m) <==> #[trigger] rt(m) == rt(i as int)),
                    j > i ==> grp@.len() >= 1 && grp@[0] == i,
                decreases n - j,
            {
                let ghost grp0 = grp@;
                if roots[j] == roots[i] {
                    grp.push(j);
                    assigned.set(j, true);
                    proof {
                        assert forall|m: int| i <= m < j + 1 implies
                            ((exists|k: int| 0 <= k < grp@.len() && grp@[k] == m) <==> #[trigger] rt(m) == rt(i as int)) by {
                            if m < j {
                                if exists|k: int| 0 <= k < grp0.len() && grp0[k] == m {
                                    let k = choose|k: int| 0 <= k < grp0.len() && grp0[k] == m;
                                    assert(grp@[k] == m);
                                }
                                if exists|k: int| 0 <= k < grp@.len() && grp@[k] == m {
                                    let k = choose|k: int| 0 <= k < grp@.len() && grp@[k] == m;
                                    assert(k < grp0.len() || m == j);
                                }
                            } else {
                                assert(grp@[grp0.len() as int] == j);
                            }
                        }
                    }
                } else {
                    proof {
                        assert forall|m: int| i <= m < j + 1 implies
                            ((exists|k: int| 0 <= k < grp@.len() && grp@[k] == m) <==> #[trigger] rt(m) == rt(i as int)) by {
                            if m == j {
                                assert(rt(j as int) != rt(i as int));
                                assert(forall|k: int| 0 <= k < grp@.len() ==> #[trigger] grp@[k] < j);
                            }
                        }
                    }
                }
                j = j + 1;
            }
            if grp.len() >= 2 {
                let ghost grpv = grp@;
                gs.push(grp);
                proof {
                    assert(grpv.len() >= 2);
                    assert(gs.deep_view() =~~= dv0.push(grpv));
                    assert forall|m: int| 0 <= m < n
                        && (exists|a: int| 0 <= a < i + 1 && #[trigger] rt(a) == rt(m))
                        && (exists|jx: int| 0 <= jx < n && jx != m && #[trigger] rt(jx) == rt(m))
                        implies #[trigger] appears(gs.deep_view(), m) by {
                        lemma_appears_push(dv0, grpv, m);
                        if exists|a: int| 0 <= a < i && #[trigger] rt(a) == rt(m) {
                            assert(appears(dv0, m));
                        } else {
                            assert(rt(i as int) == rt(m));
                            assert(i <= m < n);
                            assert(exists|k: int| 0 <= k < grpv.len() && grpv[k] == m);
                        }
                    }
                    assert forall|m: int| 0 <= m < n implies
                        ((#[trigger] assigned@[m]) <==> exists|a: int| 0 <= a < i + 1 && #[trigger] rt(a) == rt(m)) by {
                        if assigned@[m] {
                            if exists|a: int| 0 <= a < i && #[trigger] rt(a) == rt(m) {
                                let a = choose|a: int| 0 <= a < i && #[trigger] rt(a) == rt(m);
                                assert(0 <= a < i + 1 && #[trigger] rt(a) == rt(m));
                            } else {
                                assert(rt(i as int) == rt(m));
                            }
                        } else {
                            if exists|a: int| 0 <= a < i + 1 && #[trigger] rt(a) == rt(m) {
                                let a = choose|a: int| 0 <= a < i + 1 && #[trigger] rt(a) == rt(m);
                                assert(a == i || a < i);
                                if a == i {
                                    assert(rt(m) == rt(i as int));
                                    assert(i <= m < n || m < i);
                                    if m < i {
                                        assert(rt(m) != rt(i as int));
                                    }
                                    assert(false);
                                } else {
                                    assert(false);
                                }
                            }
                        }
                    }
                    assert forall|g: int, m: int|
                        #![trigger rt(m), gs.deep_view()[g]]
                        0 <= g < gs.deep_view().len() && 0 <= m < n
                        && rt(m) == rt(gs.deep_view()[g][0] as int)
                        implies exists|k: int| 0 <= k < gs.deep_view()[g].len() && gs.deep_view()[g][k] == m by {
                        if g < dv0.len() {
                            assert(gs.deep_view()[g] == dv0[g]);
                        } else {
                            assert(gs.deep_view()[g] == grpv);
                            assert(grpv[0] == i);
                            assert(rt(m) == rt(i as int));
                            if m < i {
                                assert(rt(m) != rt(i as int));
                            }
                        }
                    }
                    assert forall|g1: int, g2: int|
                        #![trigger gs.deep_view()[g1], gs.deep_view()[g2]]
                        0 <= g1 < gs.deep_view().len() && 0 <= g2 < gs.deep_view().len() && g1 != g2
                        implies rt(gs.deep_view()[g1][0] as int) != rt(gs.deep_view()[g2][0] as int) by {
                        if g1 < dv0.len() && g2 < dv0.len() {
                        } else if g1 == dv0.len() {
                            assert(gs.deep_view()[g2] == dv0[g2]);
                            assert(dv0[g2][0] < i);
                            assert(rt(dv0[g2][0] as int) != rt(i as int));
                        } else {
                            assert(gs.deep_view()[g1] == dv0[g1]);
                            assert(dv0[g1][0] < i);
                            assert(rt(dv0[g1][0] as int) != rt(i as int));
                        }
                    }
                }
            } else {
                proof {
                    assert(grp@.len() == 1 && grp@[0] == i);
                    assert forall|m: int| 0 <= m < n
                        && (exists|a: int| 0 <= a < i + 1 && #[trigger] rt(a) == rt(m))
                        && (exists|jx: int| 0 <= jx < n && jx != m && #[trigger] rt(jx) == rt(m))
                        implies #[trigger] appears(gs.deep_view(), m) by {
                        if !(exists|a: int| 0 <= a < i && #[trigger] rt(a) == rt(m)) {
                            assert(rt(i as int) == rt(m));
                            if m < i {
                                assert(rt(m) != rt(i as int));
                            } else {
                                let k = choose|k: int| 0 <= k < grp@.len() && grp@[k] == m;
                                assert(m == i);
                            }
                            let jx = choose|jx: int| 0 <= jx < n && jx != m && #[trigger] rt(jx) == rt(m);
                            assert(rt(jx) == rt(i as int));
                            if jx < i {
                                assert(rt(jx) != rt(i as int));
                            } else {
                                let k = choose|k: int| 0 <= k < grp@.len() && grp@[k] == jx;
                                assert(jx == i);
                            }
                            assert(false);
                        }
                    }
                    assert forall|m: int| 0 <= m < n implies
                        ((#[trigger] assigned@[m]) <==> exists|a: int| 0 <= a < i + 1 && #[trigger] rt(a) == rt(m)) by {
                        if assigned@[m] {
                            if exists|a: int| 0 <= a < i && #[trigger] rt(a) == rt(m) {
                                let a = choose|a: int| 0 <= a < i && #[trigger] rt(a) == rt(m);
                                assert(0 <= a < i + 1 && #[trigger] rt(a) == rt(m));
                            } else {
                                assert(rt(i as int) == rt(m));
                            }
                        } else {
                            if exists|a: int| 0 <= a < i + 1 && #[trigger] rt(a) == rt(m) {
                                let a = choose|a: int| 0 <= a < i + 1 && #[trigger] rt(a) == rt(m);
                                if a == i {
                                    if m < i {
                                        assert(rt(m) != rt(i as int));
                                    }
                                    assert(false);
                                } else {
                                    assert(false);
                                }
                            }
                        }
                    }
                }
            }
        } else {
            proof {
                assert forall|m: int| 0 <= m < n implies
                    ((#[trigger] assigned@[m]) <==> exists|a: int| 0 <= a < i + 1 && #[trigger] rt(a) == rt(m)) by {
                    if assigned@[m] {
                        let a = choose|a: int| 0 <= a < i && #[trigger] rt(a) == rt(m);
                        assert(0 <= a < i + 1 && #[trigger] rt(a) == rt(m));
                    } else {
                        if exists|a: int| 0 <= a < i + 1 && #[trigger] rt(a) == rt(m) {
                            let a = choose|a: int| 0 <= a < i + 1 && #[trigger] rt(a) == rt(m);
                            if a == i {
                                let a2 = choose|a2: int| 0 <= a2 < i && #[trigger] rt(a2) == rt(i as int);
                                assert(rt(a2) == rt(m));
                                assert(false);
                            } else {
                                assert(false);
                            }
                        }
                    }
                }
                assert forall|m: int| 0 <= m < n
                    && (exists|a: int| 0 <= a < i + 1 && #[trigger] rt(a) == rt(m))
                    && (exists|jx: int| 0 <= jx < n && jx != m && #[trigger] rt(jx) == rt(m))
                    implies #[trigger] appears(gs.deep_view(), m) by {
                    assert(exists|a: int| 0 <= a < i && #[trigger] rt(a) == rt(m));
                }
            }
        }
        i = i + 1;
    }
    proof {
        let dv = gs.deep_view();
        let eqc = root_eq(d0);
        assert forall|g: int, k1: int, k2: int|
            #![trigger dv[g][k1], dv[g][k2]]
            0 <= g < dv.len() && 0 <= k1 < dv[g].len() && 0 <= k2 < dv[g].len()
            implies eqc(dv[g][k1] as int, dv[g][k2] as int) by {
            assert(rt(dv[g][k1] as int) == rt(dv[g][0] as int));
            assert(rt(dv[g][k2] as int) == rt(dv[g][0] as int));
        }
        assert forall|g1: int, k1: int, g2: int, k2: int|
            #![trigger dv[g1][k1], dv[g2][k2]]
            0 <= g1 < dv.len() && 0 <= k1 < dv[g1].len()
            && 0 <= g2 < dv.len() && 0 <= k2 < dv[g2].len() && g1 != g2
            implies !eqc(dv[g1][k1] as int, dv[g2][k2] as int) by {
            assert(rt(dv[g1][k1] as int) == rt(dv[g1][0] as int));
            assert(rt(dv[g2][k2] as int) == rt(dv[g2][0] as int));
            assert(rt(dv[g1][0] as int) != rt(dv[g2][0] as int));
        }
        assert forall|i0: int| 0 <= i0 < n implies
            (#[trigger] appears(dv, i0) <==> exists|j: int| 0 <= j < n && j != i0 && #[trigger] eqc(i0, j)) by {
            if appears(dv, i0) {
                let (g, k) = choose|g: int, k: int| 0 <= g < dv.len() && 0 <= k < dv[g].len() && dv[g][k] == i0;
                let k2: int = if k == 0 { 1 } else { 0 };
                assert(0 <= k2 < dv[g].len());
                let j = dv[g][k2] as int;
                assert(dv[g][k] != dv[g][k2]);
                assert(rt(dv[g][k] as int) == rt(dv[g][0] as int));
                assert(rt(dv[g][k2] as int) == rt(dv[g][0] as int));
                assert(0 <= j < n && j != i0 && eqc(i0, j));
            }
            if exists|j: int| 0 <= j < n && j != i0 && #[trigger] eqc(i0, j) {
                let j = choose|j: int| 0 <= j < n && j != i0 && #[trigger] eqc(i0, j);
                assert(rt(j) == rt(i0));
                assert(exists|a: int| 0 <= a < n && #[trigger] rt(a) == rt(i0));
            }
        }
        assert(grouping_exact(dv, n as int, eqc));
    }
    gs
}

/// Replace every index by the path of the image it stands for.
pub fn paths_of_groups(gs: &Vec<Vec<usize>>, images: &Vec<Image>) -> (out: Vec<Vec<String>>)
    requires
        forall|g: int, k: int| 0 <= g < gs.deep_view().len() && 0 <= k < gs.deep_view()[g].len()
            ==> 0 <= #[trigger] gs.deep_view()[g][k] < images@.len(),
    ensures
        out.deep_view().len() == gs.deep_view().len(),
        forall|g: int| 0 <= g < gs.deep_view().len()
            ==> (#[trigger] out.deep_view()[g]).len() == gs.deep_view()[g].len(),
        forall|g: int, k: int| 0 <= g < gs.deep_view().len() && 0 <= k < gs.deep_view()[g].len()
            ==> #[trigger] out.deep_view()[g][k] == images@[gs.deep_view()[g][k] as int].image_path@,
{
    let mut out: Vec<Vec<String>> = Vec::new();
    let mut g: usize = 0;
    while g < gs.len()
        invariant
            g <= gs@.len(),
            forall|gx: int, k: int| 0 <= gx < gs.deep_view().len() && 0 <= k < gs.deep_view()[gx].len()
                ==> 0 <= #[trigger] gs.deep_view()[gx][k] < images@.len(),
            out.deep_view().len() == g,
            forall|gx: int| 0 <= gx < g
                ==> (#[trigger] out.deep_view()[gx]).len() == gs.deep_view()[gx].len(),
            forall|gx: int, k: int| 0 <= gx < g && 0 <= k < gs.deep_view()[gx].len()
                ==> #[trigger] out.deep_view()[gx][k] == images@[gs.deep_view()[gx][k] as int].image_path@,
        decreases gs@.len() - g,
    {
        let group = &gs[g];
        let mut row: Vec<String> = Vec::new();
        let mut k: usize = 0;
        while k < group.len()
            invariant
                k <= group@.len(),
                group@ == gs@[g as int]@,
                g < gs@.len(),
                forall|gx: int, kx: int| 0 <= gx < gs.deep_view().len() && 0 <= kx < gs.deep_view()[gx].len()
                    ==> 0 <= #[trigger] gs.deep_view()[gx][kx] < images@.len(),
                row.deep_view().len() == k,
                forall|kx: int| 0 <= kx < k
                    ==> #[trigger] row.deep_view()[kx] == images@[gs.deep_view()[g as int][kx] as int].image_path@,
            decreases group@.len() - k,
        {
            proof {
                assert(gs.deep_view()[g as int][k as int] == group@[k as int]);
            }
            let ghost rdv0 = row.deep_view();
            let idx = group[k];
            let path = images[idx].image_path.clone();
            let ghost pathv = path@;
            row.push(path);
            proof {
                assert(row.deep_view() =~~= rdv0.push(pathv));
                assert(pathv == images@[gs.deep_view()[g as int][k as int] as int].image_path@);
            }
            k = k + 1;
        }
        let ghost odv0 = out.deep_view();
        let ghost rowdv = row.deep_view();
        proof {
            assert(rowdv.len() == gs.deep_view()[g as int].len());
        }
        out.push(row);
        proof {
            assert(out.deep_view() =~~= odv0.push(rowdv));
        }
        g = g + 1;
    }
    out
}

/// Whether `x` occurs among the elements of `s`.
pub open spec fn has_member(s: Seq<usize>, x: int) -> bool {
    exists|k: int| 0 <= k < s.len() && s[k] == x
}

/// Whether index `i` occurs in group `g` of `gs`.
pub open spec fn in_group(gs: Seq<Seq<usize>>, g: int, i: int) -> bool {
    exists|k: int| 0 <= k < gs[g].len() && gs[g][k] == i
}

/// In a canonical grouping, a group holds exactly the appearing indices
/// related to its first member.
proof fn lemma_group_members(gs: Seq<Seq<usize>>, n: int, eq: spec_fn(int, int) -> bool, g: int, j: int)
    requires
        grouping_exact(gs, n, eq),
        0 <= g < gs.len(),
        0 <= j < n,
    ensures
        in_group(gs, g, j) <==> (appears(gs, j) && eq(gs[g][0] as int, j)),
{
    if in_group(gs, g, j) {
        let k = choose|k: int| 0 <= k < gs[g].len() && gs[g][k] == j;
        assert(appears(gs, j));
        assert(eq(gs[g][0] as int, gs[g][k] as int));
    }
    if appears(gs, j) && eq(gs[g][0] as int, j) {
        let (h, k) = choose|h: int, k: int| 0 <= h < gs.len() && 0 <= k < gs[h].len() && gs[h][k] == j;
        if h != g {
            assert(!eq(gs[g][0] as int, gs[h][k] as int));
            assert(false);
        }
        assert(in_group(gs, g, j));
    }
}

/// Two strictly increasing sequences with the same members are equal.
proof fn lemma_sorted_same_members(s1: Seq<usize>, s2: Seq<usize>)
    requires
        forall|k1: int, k2: int| #![trigger s1[k1], s1[k2]] 0 <= k1 < k2 < s1.len() ==> s1[k1] < s1[k2],
        forall|k1: int, k2: int| #![trigger s2[k1], s2[k2]] 0 <= k1 < k2 < s2.len() ==> s2[k1] < s2[k2],
        forall|x: int| #![trigger has_member(s1, x)] #![trigger has_member(s2, x)]
            has_member(s1, x) == has_member(s2, x),
    ensures
        s1 == s2,
    decreases s1.len(),
{
    if s1.len() == 0 {
        if s2.len() > 0 {
            assert(has_member(s2, s2[0] as int));
            let k = choose|k: int| 0 <= k < s1.len() && s1[k] == s2[0] as int;
            assert(false);
        }
        assert(s1 =~= s2);
    } else {
        assert(has_member(s1, s1[0] as int));
        if s2.len() == 0 {
            let k = choose|k: int| 0 <= k < s2.len() && s2[k] == s1[0] as int;
            assert(false);
        }
        let ka = choose|k: int| 0 <= k < s2.len() && s2[k] == s1[0] as int;
        assert(s2[0] <= s2[ka]);
        assert(has_member(s2, s2[0] as int));
        let kb = choose|k: int| 0 <= k < s1.len() && s1[k] == s2[0] as int;
        assert(s1[0] <= s1[kb]);
        assert(s1[0] == s2[0]);
        let t1 = s1.subrange(1, s1.len() as int);
        let t2 = s2.subrange(1, s2.len() as int);
        assert forall|x: int| #![trigger has_member(t1, x)] #![trigger has_member(t2, x)]
            has_member(t1, x) == has_member(t2, x) by {
            if has_member(t1, x) {
                let k = choose|k: int| 0 <= k < t1.len() && t1[k] == x;
                assert(s1[k + 1] == x);
                assert(has_member(s1, x));
                let k2 = choose|k2: int| 0 <= k2 < s2.len() && s2[k2] == x;
                assert(s1[0] < s1[k + 1]);
                assert(k2 > 0);
                assert(t2[k2 - 1] == x);
                assert(has_member(t2, x));
            }
            if has_member(t2, x) {
                let k = choose|k: int| 0 <= k < t2.len() && t2[k] == x;
                assert(s2[k + 1] == x);
                assert(has_member(s2, x));
                let k2 = choose|k2: int| 0 <= k2 < s1.len() && s1[k2] == x;
                assert(s2[0] < s2[k + 1]);
                assert(k2 > 0);
                assert(t1[k2 - 1] == x);
                assert(has_member(t1, x));
            }
        }
        lemma_sorted_same_members(t1, t2);
        assert(s1.len() == s2.len());
        assert forall|idx: int| 0 <= idx < s1.len() implies s1[idx] == s2[idx] by {
            if idx > 0 {
                assert(t1[idx - 1] == s1[idx]);
                assert(t2[idx - 1] == s2[idx]);
            }
        }
        assert(s1 =~= s2);
    }
}

proof fn lemma_grouping_unique_upto(gs1: Seq<Seq<usize>>, gs2: Seq<Seq<usize>>, n: int, eq: spec_fn(int, int) -> bool, g: int)
    requires
        grouping_exact(gs1, n, eq),
        grouping_exact(gs2, n, eq),
        0 <= g <= gs1.len(),
    ensures
        g <= gs2.len(),
        forall|h: int| 0 <= h < g ==> gs1[h] == gs2[h],
    decreases g,
{
    if g > 0 {
        lemma_grouping_unique_upto(gs1, gs2, n, eq, g - 1);
        let m = gs1[g - 1][0] as int;
        assert(gs1[g - 1].len() >= 2);
        assert(0 <= m < n);
        assert(appears(gs1, m));
        assert(exists|j: int| 0 <= j < n && j != m && #[trigger] eq(m, j));
        assert(appears(gs2, m));
        let (h2, k2) = choose|h2: int, k2: int|
            0 <= h2 < gs2.len() && 0 <= k2 < gs2[h2].len() && gs2[h2][k2] == m;
        if h2 < g - 1 {
            assert(gs2[h2] == gs1[h2]);
            assert(gs1[h2][k2] == m);
            assert(eq(gs1[g - 1][0] as int, gs1[g - 1][0] as int));
            assert(!eq(gs1[g - 1][0] as int, gs1[h2][k2] as int));
            assert(false);
        }
        assert(h2 >= g - 1);
        assert(g - 1 < gs2.len());
        let m2 = gs2[g - 1][0] as int;
        assert(0 <= m2 < n);
        assert(appears(gs2, m2));
        assert(exists|j: int| 0 <= j < n && j != m2 && #[trigger] eq(m2, j));
        assert(appears(gs1, m2));
        let (h1, k1) = choose|h1: int, k1: int|
            0 <= h1 < gs1.len() && 0 <= k1 < gs1[h1].len() && gs1[h1][k1] == m2;
        if h1 < g - 1 {
            assert(gs1[h1] == gs2[h1]);
            assert(gs2[h1][k1] == m2);
            assert(eq(gs2[g - 1][0] as int, gs2[g - 1][0] as int));
            assert(!eq(gs2[g - 1][0] as int, gs2[h1][k1] as int));
            assert(false);
        }
        assert(h1 >= g - 1);
        assert(gs2[g - 1][0] <= gs2[h2][0]);
        assert(gs2[h2][0] <= gs2[h2][k2]);
        assert(m2 <= m);
        assert(gs1[g - 1][0] <= gs1[h1][0]);
        assert(gs1[h1][0] <= gs1[h1][k1]);
        assert(m <= m2);
        assert(m == m2);
        if h2 != g - 1 {
            assert(gs2[g - 1][0] == m);
            assert(gs2[h2][k2] == m);
            assert(eq(gs2[g - 1][0] as int, gs2[g - 1][0] as int));
            assert(!eq(gs2[g - 1][0] as int, gs2[h2][k2] as int));
            assert(false);
        }
        let s1 = gs1[g - 1];
        let s2 = gs2[g - 1];
        assert forall|x: int| #![trigger has_member(s1, x)] #![trigger has_member(s2, x)]
            has_member(s1, x) == has_member(s2, x) by {
            if has_member(s1, x) {
                assert(in_group(gs1, g - 1, x));
                let k = choose|k: int| 0 <= k < s1.len() && s1[k] == x;
                assert(0 <= x < n);
                lemma_group_members(gs1, n, eq, g - 1, x);
                assert(appears(gs1, x) && eq(m, x));
                let j = choose|j: int| 0 <= j < n && j != x && #[trigger] eq(x, j);
                assert(appears(gs2, x));
                lemma_group_members(gs2, n, eq, g - 1, x);
                assert(in_group(gs2, g - 1, x));
                assert(has_member(s2, x));
            }
            if has_member(s2, x) {
                assert(in_group(gs2, g - 1, x));
                let k = choose|k: int| 0 <= k < s2.len() && s2[k] == x;
                assert(0 <= x < n);
                lemma_group_members(gs2, n, eq, g - 1, x);
                assert(appears(gs2, x) && eq(m, x));
                let j = choose|j: int| 0 <= j < n && j != x && #[trigger] eq(x, j);
                assert(appears(gs1, x));
                lemma_group_members(gs1, n, eq, g - 1, x);
                assert(in_group(gs1, g - 1, x));
                assert(has_member(s1, x));
            }
        }
        lemma_sorted_same_members(s1, s2);
    }
}

/// Grouping is canonical: two groupings of the same index range under the
/// same class relation are identical.  Assembling groups twice from one
/// partition state therefore yields exactly the same group list.
pub proof fn lemma_grouping_unique(gs1: Seq<Seq<usize>>, gs2: Seq<Seq<usize>>, n: int, eq: spec_fn(int, int) -> bool)
    requires
        grouping_exact(gs1, n, eq),
        grouping_exact(gs2, n, eq),
    ensures
        gs1 == gs2,
{
    lemma_grouping_unique_upto(gs1, gs2, n, eq, gs1.len() as int);
    lemma_grouping_unique_upto(gs2, gs1, n, eq, gs2.len() as int);
    assert(gs1 =~= gs2);
}


} // verus!
