//! Initial centroids: colors of randomly drawn pixels, preferring colors not
//! yet chosen.
use crate::buffer::PixelBuffer;
use rand::Rng;
use vstd::prelude::*;

verus! {

/// After this many rejections in a row the drawn color is taken anyway.
pub const MAX_RETRIES: u32 = 3;

/// Whether a drawn color `c` becomes the next centroid: it is new, or the
/// current slot has already rejected `MAX_RETRIES` draws in a row.
pub open spec fn accepts(chosen: Seq<u32>, retries: nat, c: u32) -> bool {
    !chosen.contains(c) || retries >= MAX_RETRIES
}

/// Whether every drawn coordinate pair lies in the buffer.
pub open spec fn draws_in_range(buf: &PixelBuffer, draws: Seq<(u32, u32)>) -> bool {
    forall|j: int| 0 <= j < draws.len() ==> (#[trigger] draws[j]).0 < buf.spec_width() && draws[j].1 < buf.spec_height()
}

/// The centroids chosen and the current run of rejections after the draws
/// `draws` (coordinates `(x, y)`, in order), aiming at `k` centroids; draws
/// made once `k` are chosen change nothing.
pub open spec fn seed_state(buf: &PixelBuffer, k: nat, draws: Seq<(u32, u32)>) -> (Seq<u32>, nat)
    decreases draws.len(),
{
    if draws.len() == 0 {
        (Seq::empty(), 0)
    } else {
        let prev = seed_state(buf, k, draws.drop_last());
        let c = buf.color_at_spec(draws.last().0 as int, draws.last().1 as int);
        if prev.0.len() >= k {
            prev
        } else if accepts(prev.0, prev.1, c) {
            (prev.0.push(c), 0)
        } else {
            (prev.0, prev.1 + 1)
        }
    }
}

/// Whether the drawn color `c` becomes the next centroid.
pub fn accept_seed(chosen: &Vec<u32>, retries: u32, c: u32) -> (r: bool)
    ensures
        r == accepts(chosen@, retries as nat, c),
{
    if retries >= MAX_RETRIES {
        return true;
    }
    let mut j: usize = 0;
    while j < chosen.len()
        invariant
            j <= chosen.len(),
            retries < MAX_RETRIES,
            forall|i: int| 0 <= i < j ==> chosen@[i] != c,
        decreases chosen.len() - j,
    {
        if chosen[j] == c {
            assert(chosen@.contains(c));
            return false;
        }
        j = j + 1;
    }
    true
}

/// Chooses `k` centroids from the given draws; `None` when the draws run
/// out first.
pub fn seeds_from_draws(buf: &PixelBuffer, k: usize, draws: &Vec<(u32, u32)>) -> (r: Option<Vec<u32>>)
    requires
        draws_in_range(buf, draws@),
    ensures
        r is Some <==> seed_state(buf, k as nat, draws@).0.len() == k,
        r matches Some(v) ==> v@ == seed_state(buf, k as nat, draws@).0,
{
    let mut chosen: Vec<u32> = Vec::new();
    let mut retries: u32 = 0;
    let mut j: usize = 0;
    while j < draws.len()
        invariant
            draws_in_range(buf, draws@),
            j <= draws.len(),
            seed_state(buf, k as nat, draws@.take(j as int)) == (chosen@, retries as nat),
            chosen.len() <= k,
            retries <= MAX_RETRIES,
        decreases draws.len() - j,
    {
        proof {
            assert(draws@.take(j + 1).drop_last() =~= draws@.take(j as int));
            assert(draws@.take(j + 1).last() == draws@[j as int]);
        }
        if chosen.len() < k {
            let (x, y) = draws[j];
            let c = buf.color_at(x, y);
            if accept_seed(&chosen, retries, c) {
                chosen.push(c);
                retries = 0;
            } else {
                retries = retries + 1;
            }
        }
        j = j + 1;
    }
    assert(draws@.take(draws.len() as int) =~= draws@);
    if chosen.len() == k {
        Some(chosen)
    } else {
        None
    }
}

/// Relies on rand's `thread_rng().gen_range(0..n)`: a value drawn from
/// `0..n`; the range must not be empty.
#[verifier::external_body]
fn random_below(n: u32) -> (r: u32)
    requires
        n > 0,
    ensures
        r < n,
{
    rand::thread_rng().gen_range(0..n)
}

/// Chooses `k` centroids from randomly drawn pixels: the result is what
/// `seeds_from_draws` gives for some sequence of draws in the buffer.
pub fn seed_centroids(buf: &PixelBuffer, k: usize) -> (r: Vec<u32>)
    ensures
        r.len() == k,
        exists|d: Seq<(u32, u32)>| draws_in_range(buf, d) && #[trigger] seed_state(buf, k as nat, d).0 == r@,
{
    proof {
        use_type_invariant(buf);
    }
    let w = buf.width();
    let h = buf.height();
    let mut chosen: Vec<u32> = Vec::new();
    let mut retries: u32 = 0;
    let ghost mut draws: Seq<(u32, u32)> = Seq::empty();
    while chosen.len() < k
        invariant
            w == buf.spec_width(),
            h == buf.spec_height(),
            w > 0,
            h > 0,
            draws_in_range(buf, draws),
            seed_state(buf, k as nat, draws) == (chosen@, retries as nat),
            chosen.len() <= k,
            retries <= MAX_RETRIES,
        decreases 4 * (k - chosen.len()) + MAX_RETRIES - retries,
    {
        let x = random_below(w);
        let y = random_below(h);
        proof {
            let nd = draws.push((x, y));
            assert(nd.drop_last() =~= draws);
            draws = nd;
        }
        let c = buf.color_at(x, y);
        if accept_seed(&chosen, retries, c) {
            chosen.push(c);
            retries = 0;
        } else {
            retries = retries + 1;
        }
    }
    assert(draws_in_range(buf, draws) && seed_state(buf, k as nat, draws).0 == chosen@);
    chosen
}

} // verus!
