//! The weighted color distance and nearest-centroid choice.
use crate::color::{blue, blue_of, green, green_of, red, red_of};
use vstd::prelude::*;

verus! {

/// Weighted squared distance between two colors, alpha ignored. The channel
/// weights 0.30, 0.59 and 0.11 are scaled by 100, so the value is the
/// sum of squared weighted differences times 10000.
pub open spec fn distance_spec(c1: u32, c2: u32) -> int {
    let dr = red_of(c1) - red_of(c2);
    let dg = green_of(c1) - green_of(c2);
    let db = blue_of(c1) - blue_of(c2);
    900 * (dr * dr) + 3481 * (dg * dg) + 121 * (db * db)
}

/// The index of the centroid nearest to `p` among the first `n` of `cents`;
/// of equally near ones, the lowest index.
pub open spec fn nearest_among(cents: Seq<u32>, p: u32, n: nat) -> nat
    decreases n,
{
    if n <= 1 {
        0
    } else {
        let j = nearest_among(cents, p, (n - 1) as nat);
        if distance_spec(p, cents[n - 1]) < distance_spec(p, cents[j as int]) {
            (n - 1) as nat
        } else {
            j
        }
    }
}

/// The index of the centroid nearest to `p`, lowest index on ties.
pub open spec fn nearest(cents: Seq<u32>, p: u32) -> nat {
    nearest_among(cents, p, cents.len())
}

/// The distance is never negative.
pub proof fn lemma_distance_nonneg(c1: u32, c2: u32)
    ensures
        distance_spec(c1, c2) >= 0,
{
    let dr = red_of(c1) - red_of(c2);
    let dg = green_of(c1) - green_of(c2);
    let db = blue_of(c1) - blue_of(c2);
    assert(dr * dr >= 0 && dg * dg >= 0 && db * db >= 0) by (nonlinear_arith);
}

/// The nearest index is one of the candidates, and no candidate is nearer.
pub proof fn lemma_nearest_among(cents: Seq<u32>, p: u32, n: nat)
    requires
        1 <= n <= cents.len(),
    ensures
        nearest_among(cents, p, n) < n,
        forall|j: int| 0 <= j < n ==> distance_spec(p, cents[nearest_among(cents, p, n) as int])
            <= #[trigger] distance_spec(p, cents[j]),
    decreases n,
{
    if n > 1 {
        lemma_nearest_among(cents, p, (n - 1) as nat);
    }
}

/// Weighted squared distance between two colors, scaled by 10000.
pub fn distance_sq(c1: u32, c2: u32) -> (d: u64)
    ensures
        d == distance_spec(c1, c2),
{
    let dr: i64 = red(c1) as i64 - red(c2) as i64;
    let dg: i64 = green(c1) as i64 - green(c2) as i64;
    let db: i64 = blue(c1) as i64 - blue(c2) as i64;
    assert(0 <= dr * dr <= 65025 && 0 <= dg * dg <= 65025 && 0 <= db * db <= 65025)
        by (nonlinear_arith)
        requires
            -255 <= dr <= 255,
            -255 <= dg <= 255,
            -255 <= db <= 255,
    ;
    let sr: u64 = (dr * dr) as u64;
    let sg: u64 = (dg * dg) as u64;
    let sb: u64 = (db * db) as u64;
    900 * sr + 3481 * sg + 121 * sb
}

/// The index of the centroid nearest to `p`, lowest index on ties.
pub fn nearest_centroid(cents: &Vec<u32>, p: u32) -> (r: usize)
    requires
        cents.len() >= 1,
    ensures
        r == nearest(cents@, p),
        r < cents.len(),
{
    let mut best: usize = 0;
    let mut best_dist: u64 = distance_sq(p, cents[0]);
    let mut i: usize = 1;
    while i < cents.len()
        invariant
            1 <= i <= cents.len(),
            best == nearest_among(cents@, p, i as nat),
            best < i,
            best_dist == distance_spec(p, cents@[best as int]),
        decreases cents.len() - i,
    {
        let d = distance_sq(p, cents[i]);
        if d < best_dist {
            best = i;
            best_dist = d;
        }
        i = i + 1;
    }
    best
}

} // verus!
