//! Similarity clustering for perceptual image fingerprints.
//!
//! Given a list of images, each carrying a 64-bit perceptual fingerprint,
//! the library computes the Hamming distance between every pair, keeps the
//! pairs whose similarity `1 - distance/64` reaches a configurable threshold,
//! merges transitively similar images with a union-find partition, and
//! returns the groups of at least two paths.  Thresholds are exact rationals,
//! so the inclusive comparison against the similarity score carries no
//! rounding.

pub mod dsu;
pub mod fingerprint;
pub mod groups;
pub mod pairs;

use vstd::prelude::*;
use crate::dsu::DisjointSet;
pub use crate::fingerprint::Image;
use crate::groups::{grouping_exact, group_indices, lemma_grouping_congruence, paths_of_groups, root_eq};
use crate::pairs::{linked, merge_pairs, pairs_exact, similar_pairs};

verus! {

/// Error returned when the threshold `num / den` is not a rational in `[0, 1]`.
#[derive(Debug, Clone, Copy, PartialEq, Eq, Structural)]
pub struct InvalidThreshold;

/// Connectivity under all the pairs of `ps`, as a two-place relation.
pub open spec fn linked_eq(ps: Seq<(usize, usize)>) -> spec_fn(int, int) -> bool {
    |a: int, b: int| linked(ps, ps.len(), a, b)
}

/// `out` is `gs` with every index replaced by its image's path.
pub open spec fn paths_match(out: Seq<Seq<Seq<char>>>, gs: Seq<Seq<usize>>, images: Seq<Image>) -> bool {
    &&& out.len() == gs.len()
    &&& forall|g: int| 0 <= g < gs.len() ==> (#[trigger] out[g]).len() == gs[g].len()
    &&& forall|g: int, k: int| 0 <= g < gs.len() && 0 <= k < gs[g].len()
            ==> #[trigger] out[g][k] == images[gs[g][k] as int].image_path@
}

/// The output paths are witnessed by the exact retained-pair list and the
/// canonical grouping of the connectivity those pairs induce.
pub open spec fn clustering_ok(images: Seq<Image>, num: int, den: int, out: Seq<Seq<Seq<char>>>) -> bool {
    exists|ps: Seq<(usize, usize)>, gs: Seq<Seq<usize>>|
        #[trigger] pairs_exact(ps, images, num, den)
        && #[trigger] grouping_exact(gs, images.len() as int, linked_eq(ps))
        && paths_match(out, gs, images)
}

/// Cluster the images by perceptual similarity.
///
/// A threshold outside `[0, 1]` (that is, `den == 0` or `num > den`) is
/// rejected up front.  Otherwise every unordered pair of fingerprints at
/// similarity `num / den` or above (inclusively) is linked, transitively
/// linked images are grouped, and the groups of at least two paths are
/// returned; fewer than two images always yield an empty list.
pub fn find_similar_image_groups(images: &Vec<Image>, num: u64, den: u64) -> (res: Result<Vec<Vec<String>>, InvalidThreshold>)
    ensures
        res is Err <==> !(0 < den && num <= den),
        res matches Ok(out) ==> clustering_ok(images@, num as int, den as int, out.deep_view()),
        res matches Ok(out) ==> (images@.len() < 2 ==> out@.len() == 0),
{
    if !(den > 0 && num <= den) {
        return Err(InvalidThreshold);
    }
    let n = images.len();
    if n < 2 {
        let out: Vec<Vec<String>> = Vec::new();
        proof {
            let ps = Seq::<(usize, usize)>::empty();
            let gs = Seq::<Seq<usize>>::empty();
            assert(pairs_exact(ps, images@, num as int, den as int));
            assert(grouping_exact(gs, images@.len() as int, linked_eq(ps)));
            assert(paths_match(out.deep_view(), gs, images@));
        }
        return Ok(out);
    }
    let ps = similar_pairs(images, num, den);
    let mut d = DisjointSet::new(n);
    merge_pairs(&mut d, &ps);
    let ghost dm = d;
    let gs = group_indices(&mut d);
    proof {
        assert forall|a: int, b: int| 0 <= a < n && 0 <= b < n implies
            #[trigger] root_eq(dm)(a, b) == linked_eq(ps@)(a, b) by {
            assert(dm.same_set(a, b) <==> linked(ps@, ps@.len(), a, b));
        }
        lemma_grouping_congruence(gs.deep_view(), n as int, root_eq(dm), linked_eq(ps@));
    }
    let out = paths_of_groups(&gs, images);
    proof {
        assert(pairs_exact(ps@, images@, num as int, den as int));
        assert(grouping_exact(gs.deep_view(), images@.len() as int, linked_eq(ps@)));
        assert(paths_match(out.deep_view(), gs.deep_view(), images@));
    }
    Ok(out)
}

} // verus!
