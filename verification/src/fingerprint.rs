//! Fingerprints, Hamming distance and the similarity threshold test.

use vstd::prelude::*;

verus! {

/// Number of bits in a fingerprint; distances range over `0 ..= MAX_DISTANCE`.
pub const MAX_DISTANCE: u32 = 64;

/// An image path together with its 64-bit perceptual fingerprint.
pub struct Image {
    pub image_path: String,
    pub hash: u64,
}

/// Whether bit `i` of `x` is set (bits past 63 read as clear).
pub open spec fn bit_at(x: u64, i: u64) -> bool {
    (x >> i) & 1u64 == 1u64
}

/// Number of bit positions below `n` where `a` and `b` differ.
pub open spec fn diff_count(a: u64, b: u64, n: u64) -> nat
    decreases n,
{
    if n == 0 {
        0
    } else {
        diff_count(a, b, (n - 1) as u64) + if bit_at(a, (n - 1) as u64) != bit_at(b, (n - 1) as u64) { 1nat } else { 0nat }
    }
}

/// Hamming distance between two fingerprints: differing bits among the 64.
pub open spec fn hamming(a: u64, b: u64) -> nat {
    diff_count(a, b, 64)
}

/// Whether a distance `d` out of 64 reaches similarity `num / den`,
/// i.e. `1 - d/64 >= num/den`, compared exactly over the integers.
pub open spec fn sim_at_least(d: int, num: int, den: int) -> bool {
    (64 - d) * den >= 64 * num
}

/// Distance is symmetric in its two fingerprints, and with it every
/// similarity comparison.
pub proof fn lemma_distance_symmetric(a: u64, b: u64)
    ensures
        hamming(a, b) == hamming(b, a),
        forall|num: int, den: int|
            #[trigger] sim_at_least(hamming(a, b) as int, num, den)
                == sim_at_least(hamming(b, a) as int, num, den),
{
    lemma_diff_count_symmetric(a, b, 64);
}

/// A fingerprint is at distance zero from itself, so its self-similarity
/// is exactly one and reaches every threshold `num / den <= 1`.
pub proof fn lemma_self_distance_zero(a: u64, num: int, den: int)
    requires
        0 <= num <= den,
    ensures
        hamming(a, a) == 0,
        sim_at_least(hamming(a, a) as int, num, den),
{
    lemma_diff_count_self(a, 64);
}

/// Distances never exceed the fingerprint width.
pub proof fn lemma_distance_bounded(a: u64, b: u64)
    ensures
        hamming(a, b) <= 64,
{
    lemma_diff_count_bounded(a, b, 64);
}

proof fn lemma_diff_count_symmetric(a: u64, b: u64, n: u64)
    ensures
        diff_count(a, b, n) == diff_count(b, a, n),
    decreases n,
{
    if n > 0 {
        lemma_diff_count_symmetric(a, b, (n - 1) as u64);
    }
}

proof fn lemma_diff_count_self(a: u64, n: u64)
    ensures
        diff_count(a, a, n) == 0,
    decreases n,
{
    if n > 0 {
        lemma_diff_count_self(a, (n - 1) as u64);
    }
}

proof fn lemma_diff_count_bounded(a: u64, b: u64, n: u64)
    ensures
        diff_count(a, b, n) <= n,
    decreases n,
{
    if n > 0 {
        lemma_diff_count_bounded(a, b, (n - 1) as u64);
    }
}

/// Hamming distance between two fingerprints, counted bit by bit.
pub fn hamming_distance(a: u64, b: u64) -> (d: u32)
    ensures
        d == hamming(a, b),
        d <= MAX_DISTANCE,
{
    let mut d: u32 = 0;
    for i in 0..64u64
        invariant
            d == diff_count(a, b, i),
            d <= i,
    {
        let ab = (a >> i) & 1u64;
        let bb = (b >> i) & 1u64;
        proof {
            assert((a >> i) & 1u64 == 1u64 || (a >> i) & 1u64 == 0u64) by (bit_vector);
            assert((b >> i) & 1u64 == 1u64 || (b >> i) & 1u64 == 0u64) by (bit_vector);
        }
        if ab != bb {
            d = d + 1;
        }
    }
    d
}

/// Exact inclusive threshold test: does distance `d` (out of 64) reach
/// similarity `num / den`?  The products are taken in 128 bits, so no
/// intermediate value can overflow.
pub fn reaches_threshold(d: u32, num: u64, den: u64) -> (r: bool)
    requires
        d <= MAX_DISTANCE,
    ensures
        r == sim_at_least(d as int, num as int, den as int),
{
    let keep: u128 = (64 - d) as u128;
    let wide_den: u128 = den as u128;
    proof {
        assert(keep * wide_den <= 64 * wide_den) by (nonlinear_arith)
            requires
                keep <= 64,
                wide_den >= 0,
        ;
    }
    let left: u128 = keep * wide_den;
    let right: u128 = 64u128 * num as u128;
    left >= right
}

} // verus!
