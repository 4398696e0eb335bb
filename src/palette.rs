//! The palette: the clustered colors, swapped to the caller's channel order,
//! with the number of pixels that each one covers.
use crate::buffer::PixelBuffer;
use crate::cluster::{cluster, lloyd};
use crate::color::{blue_of, green_of, opaque, red_of, rev_color};
use crate::error::ColorError;
use crate::seed::{draws_in_range, seed_centroids, seed_state, seeds_from_draws};
use vstd::prelude::*;

verus! {

/// Slot `i` covers `members[i]` of the `total` pixels with color `colors[i]`;
/// its coverage fraction is `members[i] / total`.
pub struct Palette {
    pub colors: Vec<u32>,
    pub members: Vec<u64>,
    pub total: u64,
}

/// `c` with red and blue exchanged, opaque.
pub open spec fn swapped(c: u32) -> u32 {
    opaque(blue_of(c), green_of(c), red_of(c))
}

/// Whether `p` is the palette that clustering `buf` from `seeds` gives.
pub open spec fn palette_of(p: Palette, buf: &PixelBuffer, seeds: Seq<u32>) -> bool {
    let res = lloyd(buf.pixels(), seeds, 0);
    &&& p.colors.len() == seeds.len()
    &&& p.members.len() == seeds.len()
    &&& p.total == buf.area()
    &&& forall|k: int| 0 <= k < seeds.len() ==> #[trigger] p.colors@[k] == swapped(res.0[k])
    &&& forall|k: int| 0 <= k < seeds.len() ==> #[trigger] p.members@[k] == res.1[k]
}

/// Whether `seeds` are `k` centroids that some draws within `buf` choose.
pub open spec fn seeded(buf: &PixelBuffer, k: nat, seeds: Seq<u32>) -> bool {
    &&& seeds.len() == k
    &&& exists|d: Seq<(u32, u32)>| draws_in_range(buf, d) && #[trigger] seed_state(buf, k, d).0 == seeds
}

/// Seeds `num_colors` centroids at random and clusters; returns the final
/// centroids and the member count of each.
pub fn kmeans(buf: &PixelBuffer, num_colors: usize) -> (res: (Vec<u32>, Vec<u64>))
    requires
        num_colors >= 1,
    ensures
        exists|seeds: Seq<u32>| {
            &&& #[trigger] seeded(buf, num_colors as nat, seeds)
            &&& res.0@ == lloyd(buf.pixels(), seeds, 0).0
            &&& res.1.len() == num_colors
            &&& forall|k: int| 0 <= k < num_colors ==> res.1@[k] == lloyd(buf.pixels(), seeds, 0).1[k]
        },
{
    let seeds = seed_centroids(buf, num_colors);
    let ghost s = seeds@;
    let res = cluster(buf, seeds);
    assert(seeded(buf, num_colors as nat, s));
    res
}

/// The palette that clustering from the given `seeds` gives; fails with
/// `InvalidParameter` when there are none.
pub fn palette_from_seeds(buf: &PixelBuffer, seeds: Vec<u32>) -> (r: Result<Palette, ColorError>)
    ensures
        seeds.len() == 0 <==> r is Err,
        r is Err ==> r == Err::<Palette, ColorError>(ColorError::InvalidParameter),
        r matches Ok(p) ==> palette_of(p, buf, seeds@),
{
    if seeds.len() == 0 {
        return Err(ColorError::InvalidParameter);
    }
    let ghost s = seeds@;
    let (cents, members) = cluster(buf, seeds);
    Ok(finish(buf, cents, members, Ghost(s)))
}

/// Swaps the channels of the final centroids and adds the pixel count.
fn finish(buf: &PixelBuffer, cents: Vec<u32>, members: Vec<u64>, Ghost(seeds): Ghost<Seq<u32>>) -> (p: Palette)
    requires
        seeds.len() >= 1,
        cents@ == lloyd(buf.pixels(), seeds, 0).0,
        members.len() == seeds.len(),
        forall|k: int| 0 <= k < seeds.len() ==> members@[k] == lloyd(buf.pixels(), seeds, 0).1[k],
    ensures
        palette_of(p, buf, seeds),
{
    proof {
        use_type_invariant(buf);
        crate::cluster::lemma_lloyd_len(buf.pixels(), seeds, 0);
    }
    let mut colors: Vec<u32> = Vec::new();
    let mut i: usize = 0;
    while i < cents.len()
        invariant
            i <= cents.len(),
            cents.len() == seeds.len(),
            colors.len() == i,
            forall|k: int| 0 <= k < i ==> colors@[k] == swapped(cents@[k]),
        decreases cents.len() - i,
    {
        colors.push(rev_color(cents[i]));
        i = i + 1;
    }
    let w = buf.width() as u64;
    let h = buf.height() as u64;
    proof {
        assert(w * h <= 0xFFFF_FFFF * 0xFFFF_FFFF) by (nonlinear_arith)
            requires
                w <= 0xFFFF_FFFF,
                h <= 0xFFFF_FFFF,
        ;
    }
    Palette { colors, members, total: w * h }
}

/// The palette of `num_colors` dominant colors of `buf`, seeded at random.
/// Fails with `InvalidParameter` when `num_colors` is zero or negative,
/// before any pixel is read.
pub fn dominant_colors(buf: &PixelBuffer, num_colors: i32) -> (r: Result<Palette, ColorError>)
    ensures
        num_colors <= 0 <==> r is Err,
        r is Err ==> r == Err::<Palette, ColorError>(ColorError::InvalidParameter),
        r matches Ok(p) ==> exists|seeds: Seq<u32>|
            #[trigger] seeded(buf, num_colors as nat, seeds) && palette_of(p, buf, seeds),
{
    if num_colors <= 0 {
        return Err(ColorError::InvalidParameter);
    }
    let (cents, members) = kmeans(buf, num_colors as usize);
    let ghost s = choose|s: Seq<u32>| {
        &&& #[trigger] seeded(buf, num_colors as nat, s)
        &&& cents@ == lloyd(buf.pixels(), s, 0).0
        &&& members.len() == num_colors
        &&& forall|k: int| 0 <= k < num_colors ==> members@[k] == lloyd(buf.pixels(), s, 0).1[k]
    };
    let p = finish(buf, cents, members, Ghost(s));
    assert(seeded(buf, num_colors as nat, s) && palette_of(p, buf, s));
    Ok(p)
}

/// The palette of `num_colors` colors seeded from the given draws (pixel
/// coordinates, used in order). Fails with `InvalidParameter` when
/// `num_colors` is zero or negative or a draw lies outside the buffer, and
/// when the draws run out before `num_colors` seeds are chosen.
pub fn dominant_colors_from_draws(buf: &PixelBuffer, num_colors: i32, draws: &Vec<(u32, u32)>) -> (r: Result<Palette, ColorError>)
    ensures
        r is Ok <==> {
            &&& num_colors > 0
            &&& draws_in_range(buf, draws@)
            &&& seed_state(buf, num_colors as nat, draws@).0.len() == num_colors
        },
        r is Err ==> r == Err::<Palette, ColorError>(ColorError::InvalidParameter),
        r matches Ok(p) ==> palette_of(p, buf, seed_state(buf, num_colors as nat, draws@).0),
{
    if num_colors <= 0 {
        return Err(ColorError::InvalidParameter);
    }
    let w = buf.width();
    let h = buf.height();
    let mut j: usize = 0;
    while j < draws.len()
        invariant
            j <= draws.len(),
            w == buf.spec_width(),
            h == buf.spec_height(),
            forall|i: int| 0 <= i < j ==> (#[trigger] draws@[i]).0 < w && draws@[i].1 < h,
        decreases draws.len() - j,
    {
        if draws[j].0 >= w || draws[j].1 >= h {
            return Err(ColorError::InvalidParameter);
        }
        j = j + 1;
    }
    match seeds_from_draws(buf, num_colors as usize, draws) {
        None => Err(ColorError::InvalidParameter),
        Some(seeds) => palette_from_seeds(buf, seeds),
    }
}

proof fn lemma_pixel_coords(w: int, h: int, i: int)
    requires
        w > 0,
        0 <= i < w * h,
    ensures
        0 <= i % w < w,
        0 <= i / w < h,
{
    vstd::arithmetic::div_mod::lemma_fundamental_div_mod(i, w);
    assert(0 <= i / w < h) by (nonlinear_arith)
        requires
            w > 0,
            0 <= i < w * h,
            i == w * (i / w) + i % w,
            0 <= i % w < w,
    ;
}

/// Two buffers of the same size that show the same color at every pixel,
/// whatever their row strides and padding, have the same pixels, choose the
/// same seeds from the same draws, and cluster to the same palette: the
/// outcome depends on the logical pixel content and the draws alone.
pub proof fn lemma_same_content(b1: &PixelBuffer, b2: &PixelBuffer, k: nat, draws: Seq<(u32, u32)>, seeds: Seq<u32>, p: Palette)
    requires
        b1.spec_width() == b2.spec_width(),
        b1.spec_height() == b2.spec_height(),
        forall|x: int, y: int|
            0 <= x < b1.spec_width() && 0 <= y < b1.spec_height() ==> #[trigger] b1.color_at_spec(x, y) == b2.color_at_spec(x, y),
    ensures
        b1.pixels() == b2.pixels(),
        draws_in_range(b1, draws) ==> seed_state(b1, k, draws) == seed_state(b2, k, draws),
        lloyd(b1.pixels(), seeds, 0) == lloyd(b2.pixels(), seeds, 0),
        palette_of(p, b1, seeds) <==> palette_of(p, b2, seeds),
{
    let w = b1.spec_width() as int;
    let h = b1.spec_height() as int;
    if w > 0 {
        assert forall|i: int| 0 <= i < b1.pixels().len() implies b1.pixels()[i] == b2.pixels()[i] by {
            lemma_pixel_coords(w, h, i);
        };
    }
    assert(b1.pixels() =~= b2.pixels());
    if draws_in_range(b1, draws) {
        lemma_same_seeds(b1, b2, k, draws);
    }
}

proof fn lemma_same_seeds(b1: &PixelBuffer, b2: &PixelBuffer, k: nat, draws: Seq<(u32, u32)>)
    requires
        b1.spec_width() == b2.spec_width(),
        b1.spec_height() == b2.spec_height(),
        forall|x: int, y: int|
            0 <= x < b1.spec_width() && 0 <= y < b1.spec_height() ==> #[trigger] b1.color_at_spec(x, y) == b2.color_at_spec(x, y),
        draws_in_range(b1, draws),
    ensures
        seed_state(b1, k, draws) == seed_state(b2, k, draws),
    decreases draws.len(),
{
    if draws.len() > 0 {
        let rest = draws.drop_last();
        assert(draws_in_range(b1, rest));
        lemma_same_seeds(b1, b2, k, rest);
        let d = draws.last();
        assert(draws[draws.len() - 1] == d);
        assert(b1.color_at_spec(d.0 as int, d.1 as int) == b2.color_at_spec(d.0 as int, d.1 as int));
    }
}

} // verus!
