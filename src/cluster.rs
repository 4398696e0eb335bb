//! Lloyd's iteration over a pixel buffer: assign each pixel to its nearest
//! centroid, move each centroid to the mean of its members, until no centroid
//! moves by more than one distance unit or the iteration cap is reached.
use crate::buffer::PixelBuffer;
use crate::color::{blue_of, cal_color, green_of, opaque, red_of};
use crate::metric::{distance_spec, distance_sq, lemma_nearest_among, nearest, nearest_centroid};
use vstd::prelude::*;
use vstd::set_lib::set_int_range;

verus! {

/// The centroid of a slot that received no pixel.
pub const EMPTY_CLUSTER: u32 = 0xFFFF_FFFF;

/// The largest centroid movement at which the iteration stops: 1.0, scaled
/// as the distance is.
pub const CONVERGED_ERROR: u64 = 10000;

/// At most this many assignment-and-update rounds are run.
pub const MAX_ITERATIONS: u32 = 100;

/// Running channel sums of the pixels assigned to one slot.
#[derive(Debug, Clone, Copy)]
pub struct ColorSum {
    pub r: u128,
    pub g: u128,
    pub b: u128,
}

/// Red, green or blue channel of `c`, by `ch` 0, 1 or 2.
pub open spec fn channel(c: u32, ch: int) -> int {
    if ch == 0 {
        red_of(c) as int
    } else if ch == 1 {
        green_of(c) as int
    } else {
        blue_of(c) as int
    }
}

/// How many of `px` are nearest to slot `k` of `cents`.
pub open spec fn members_of(px: Seq<u32>, cents: Seq<u32>, k: int) -> nat
    decreases px.len(),
{
    if px.len() == 0 {
        0
    } else {
        members_of(px.drop_last(), cents, k) + if nearest(cents, px.last()) == k {
            1nat
        } else {
            0nat
        }
    }
}

/// The sum of channel `ch` over those of `px` nearest to slot `k` of `cents`.
pub open spec fn channel_sum(px: Seq<u32>, cents: Seq<u32>, k: int, ch: int) -> int
    decreases px.len(),
{
    if px.len() == 0 {
        0
    } else {
        channel_sum(px.drop_last(), cents, k, ch) + if nearest(cents, px.last()) == k {
            channel(px.last(), ch)
        } else {
            0
        }
    }
}

/// The new centroid of slot `k`: the truncated channel-wise mean of its
/// members, opaque, or `EMPTY_CLUSTER` where it has none.
pub open spec fn next_centroid(px: Seq<u32>, cents: Seq<u32>, k: int) -> u32 {
    let n = members_of(px, cents, k);
    if n == 0 {
        EMPTY_CLUSTER
    } else {
        opaque(
            (channel_sum(px, cents, k, 0) / n as int) as u32,
            (channel_sum(px, cents, k, 1) / n as int) as u32,
            (channel_sum(px, cents, k, 2) / n as int) as u32,
        )
    }
}

/// The centroids after one round.
pub open spec fn step(px: Seq<u32>, cents: Seq<u32>) -> Seq<u32> {
    Seq::new(cents.len(), |k: int| next_centroid(px, cents, k))
}

/// The member counts of one round.
pub open spec fn counts(px: Seq<u32>, cents: Seq<u32>) -> Seq<nat> {
    Seq::new(cents.len(), |k: int| members_of(px, cents, k))
}

/// The largest distance between `old[k]` and `new[k]` over the first `n` slots
/// (0 for none).
pub open spec fn max_error(old: Seq<u32>, new: Seq<u32>, n: nat) -> int
    decreases n,
{
    if n == 0 {
        0
    } else {
        let m = max_error(old, new, (n - 1) as nat);
        let d = distance_spec(new[n - 1], old[n - 1]);
        if d > m {
            d
        } else {
            m
        }
    }
}

/// Whether a round from `old` to `new` ends the iteration.
pub open spec fn converged(old: Seq<u32>, new: Seq<u32>) -> bool {
    max_error(old, new, old.len()) <= CONVERGED_ERROR
}

/// The final centroids and member counts when round `i` (from 0) starts at `cents`.
pub open spec fn lloyd(px: Seq<u32>, cents: Seq<u32>, i: nat) -> (Seq<u32>, Seq<nat>)
    decreases MAX_ITERATIONS - i,
{
    let new = step(px, cents);
    if converged(cents, new) || i + 1 >= MAX_ITERATIONS {
        (new, counts(px, cents))
    } else {
        lloyd(px, new, i + 1)
    }
}

/// How many rounds are run when round `i` starts at `cents`.
pub open spec fn rounds(px: Seq<u32>, cents: Seq<u32>, i: nat) -> nat
    decreases MAX_ITERATIONS - i,
{
    let new = step(px, cents);
    if converged(cents, new) || i + 1 >= MAX_ITERATIONS {
        1
    } else {
        1 + rounds(px, new, i + 1)
    }
}

/// Slot `k`'s running sums and count over `px`.
pub open spec fn slot_accumulated(px: Seq<u32>, cents: Seq<u32>, s: ColorSum, m: u64, k: int) -> bool {
    &&& m == members_of(px, cents, k)
    &&& s.r == channel_sum(px, cents, k, 0)
    &&& s.g == channel_sum(px, cents, k, 1)
    &&& s.b == channel_sum(px, cents, k, 2)
}

/// Every slot's running sums and count over `px`.
pub open spec fn accumulated(px: Seq<u32>, cents: Seq<u32>, sums: Seq<ColorSum>, members: Seq<u64>) -> bool {
    forall|k: int| 0 <= k < cents.len() ==> #[trigger] slot_accumulated(px, cents, sums[k], members[k], k)
}

/// Both parts of the result have one entry per slot.
pub proof fn lemma_lloyd_len(px: Seq<u32>, cents: Seq<u32>, i: nat)
    ensures
        lloyd(px, cents, i).0.len() == cents.len(),
        lloyd(px, cents, i).1.len() == cents.len(),
    decreases MAX_ITERATIONS - i,
{
    let new = step(px, cents);
    if !(converged(cents, new) || i + 1 >= MAX_ITERATIONS) {
        lemma_lloyd_len(px, new, i + 1);
    }
}

proof fn lemma_members_bounds(px: Seq<u32>, cents: Seq<u32>, k: int)
    ensures
        members_of(px, cents, k) <= px.len(),
        0 <= channel_sum(px, cents, k, 0) <= 255 * members_of(px, cents, k),
        0 <= channel_sum(px, cents, k, 1) <= 255 * members_of(px, cents, k),
        0 <= channel_sum(px, cents, k, 2) <= 255 * members_of(px, cents, k),
    decreases px.len(),
{
    if px.len() > 0 {
        lemma_members_bounds(px.drop_last(), cents, k);
    }
}

/// One assignment pass: member counts and channel sums per slot.
fn assign(buf: &PixelBuffer, cents: &Vec<u32>) -> (res: (Vec<ColorSum>, Vec<u64>))
    requires
        buf.wf(),
        cents.len() >= 1,
    ensures
        res.0.len() == cents.len(),
        res.1.len() == cents.len(),
        accumulated(buf.pixels(), cents@, res.0@, res.1@),
{
    let ghost px = buf.pixels();
    let kk = cents.len();
    let mut sums: Vec<ColorSum> = Vec::new();
    let mut members: Vec<u64> = Vec::new();
    let mut j: usize = 0;
    while j < kk
        invariant
            kk == cents.len(),
            j <= kk,
            sums.len() == j,
            members.len() == j,
            forall|k: int| 0 <= k < j ==> members@[k] == 0 && sums@[k].r == 0 && sums@[k].g == 0 && sums@[k].b == 0,
        decreases kk - j,
    {
        sums.push(ColorSum { r: 0, g: 0, b: 0 });
        members.push(0);
        j = j + 1;
        assert(sums@[j - 1].r == 0 && members@[j - 1] == 0);
    }
    let w = buf.width();
    let h = buf.height();
    let ghost mut i: int = 0;
    assert forall|k: int| 0 <= k < kk implies slot_accumulated(px.take(i), cents@, sums@[k], members@[k], k) by {
        assert(px.take(0).len() == 0);
        assert(members@[k] == 0);
    };
    let mut y: u32 = 0;
    while y < h
        invariant
            buf.wf(),
            px == buf.pixels(),
            w == buf.spec_width(),
            h == buf.spec_height(),
            kk == cents.len(),
            kk >= 1,
            y <= h,
            i == y * w,
            sums.len() == kk,
            members.len() == kk,
            accumulated(px.take(i), cents@, sums@, members@),
        decreases h - y,
    {
        let mut x: u32 = 0;
        while x < w
            invariant
                buf.wf(),
                px == buf.pixels(),
                w == buf.spec_width(),
                h == buf.spec_height(),
                kk == cents.len(),
                kk >= 1,
                y < h,
                x <= w,
                i == y * w + x,
                sums.len() == kk,
                members.len() == kk,
                accumulated(px.take(i), cents@, sums@, members@),
            decreases w - x,
        {
            let p = buf.color_at(x, y);
            proof {
                lemma_pixel_index(w as int, h as int, x as int, y as int);
                assert(px[i] == p);
                lemma_wh_bound(w, h);
                assert(px.take(i + 1) =~= px.take(i).push(p));
            }
            add_pixel(&mut sums, &mut members, cents, p, Ghost(px.take(i)));
            proof {
                i = i + 1;
            }
            x = x + 1;
        }
        proof {
            assert((y + 1) * w == y * w + w) by (nonlinear_arith);
        }
        y = y + 1;
    }
    proof {
        assert(i == w * h) by (nonlinear_arith)
            requires
                i == y * w,
                y == h,
        ;
        assert(px.take(i) =~= px);
    }
    (sums, members)
}

/// The centroids that the sums and counts of one pass give, and the largest
/// distance by which a centroid moved.
fn update(cents: &Vec<u32>, sums: &Vec<ColorSum>, members: &Vec<u64>, Ghost(px): Ghost<Seq<u32>>) -> (res: (Vec<u32>, u64))
    requires
        sums.len() == cents.len(),
        members.len() == cents.len(),
        accumulated(px, cents@, sums@, members@),
    ensures
        res.0@ == step(px, cents@),
        res.1 == max_error(cents@, res.0@, cents.len() as nat),
{
    let kk = cents.len();
    let mut next: Vec<u32> = Vec::new();
    let mut err: u64 = 0;
    let mut k: usize = 0;
    while k < kk
        invariant
            kk == cents.len(),
            sums.len() == kk,
            members.len() == kk,
            accumulated(px, cents@, sums@, members@),
            k <= kk,
            next@ == step(px, cents@).take(k as int),
            err == max_error(cents@, step(px, cents@), k as nat),
        decreases kk - k,
    {
        let m = members[k];
        let s = sums[k];
        proof {
            assert(slot_accumulated(px, cents@, s, m, k as int));
            lemma_members_bounds(px, cents@, k as int);
        }
        let c: u32 = if m == 0 {
            EMPTY_CLUSTER
        } else {
            let mm = m as u128;
            proof {
                lemma_mean_bound(s.r as int, mm as int);
                lemma_mean_bound(s.g as int, mm as int);
                lemma_mean_bound(s.b as int, mm as int);
            }
            cal_color((s.r / mm) as u32, (s.g / mm) as u32, (s.b / mm) as u32)
        };
        assert(c == step(px, cents@)[k as int]);
        let d = distance_sq(c, cents[k]);
        if d > err {
            err = d;
        }
        next.push(c);
        proof {
            assert(next@ =~= step(px, cents@).take(k + 1));
        }
        k = k + 1;
    }
    assert(next@ =~= step(px, cents@));
    (next, err)
}

proof fn lemma_mean_bound(s: int, m: int)
    requires
        0 <= s <= 255 * m,
        m > 0,
    ensures
        0 <= s / m < 256,
{
    assert(0 <= s / m < 256) by (nonlinear_arith)
        requires
            0 <= s <= 255 * m,
            m > 0,
    ;
}

/// Runs Lloyd's iteration from `seeds`; returns the final centroids and the
/// member count of each slot in the last assignment.
pub fn cluster(buf: &PixelBuffer, seeds: Vec<u32>) -> (res: (Vec<u32>, Vec<u64>))
    requires
        seeds.len() >= 1,
    ensures
        res.0@ == lloyd(buf.pixels(), seeds@, 0).0,
        res.1.len() == seeds.len(),
        forall|k: int| 0 <= k < seeds.len() ==> res.1@[k] == lloyd(buf.pixels(), seeds@, 0).1[k],
{
    let ghost px = buf.pixels();
    proof {
        use_type_invariant(buf);
    }
    let mut cents = seeds;
    let mut index: u32 = 0;
    loop
        invariant
            buf.wf(),
            px == buf.pixels(),
            cents.len() == seeds.len(),
            cents.len() >= 1,
            index < MAX_ITERATIONS,
            lloyd(px, cents@, index as nat) == lloyd(px, seeds@, 0),
        decreases MAX_ITERATIONS - index,
    {
        let (sums, members) = assign(buf, &cents);
        let (next, err) = update(&cents, &sums, &members, Ghost(px));
        if err <= CONVERGED_ERROR || index + 1 >= MAX_ITERATIONS {
            proof {
                assert(lloyd(px, cents@, index as nat) == (step(px, cents@), counts(px, cents@)));
                assert forall|k: int| 0 <= k < seeds.len() implies members@[k] == lloyd(px, seeds@, 0).1[k] by {
                    assert(slot_accumulated(px, cents@, sums@[k], members@[k], k));
                };
            }
            return (next, members);
        }
        cents = next;
        index = index + 1;
    }
}

proof fn lemma_wh_bound(w: u32, h: u32)
    ensures
        w * h <= 0xFFFF_FFFF * 0xFFFF_FFFF,
{
    assert(w * h <= 0xFFFF_FFFF * 0xFFFF_FFFF) by (nonlinear_arith)
        requires
            w <= 0xFFFF_FFFF,
            h <= 0xFFFF_FFFF,
    ;
}

/// Adds pixel `p` to the running sums and count of its nearest slot.
fn add_pixel(sums: &mut Vec<ColorSum>, members: &mut Vec<u64>, cents: &Vec<u32>, p: u32, Ghost(seen): Ghost<Seq<u32>>)
    requires
        cents.len() >= 1,
        old(sums).len() == cents.len(),
        old(members).len() == cents.len(),
        accumulated(seen, cents@, old(sums)@, old(members)@),
        seen.len() < 0xFFFF_FFFF * 0xFFFF_FFFF,
    ensures
        final(sums).len() == cents.len(),
        final(members).len() == cents.len(),
        accumulated(seen.push(p), cents@, final(sums)@, final(members)@),
{
    let best = nearest_centroid(cents, p);
    proof {
        assert(slot_accumulated(seen, cents@, sums@[best as int], members@[best as int], best as int));
        lemma_members_bounds(seen, cents@, best as int);
        assert(seen.push(p).drop_last() =~= seen);
        assert(seen.push(p).last() == p);
    }
    let ghost old_sums = sums@;
    let ghost old_members = members@;
    let s = sums[best];
    let ch_r = crate::color::red(p);
    let ch_g = crate::color::green(p);
    let ch_b = crate::color::blue(p);
    sums.set(best, ColorSum { r: s.r + ch_r as u128, g: s.g + ch_g as u128, b: s.b + ch_b as u128 });
    let m = members[best];
    members.set(best, m + 1);
    proof {
        assert forall|k: int| 0 <= k < cents.len() implies #[trigger] slot_accumulated(seen.push(p), cents@, sums@[k], members@[k], k) by {
            assert(slot_accumulated(seen, cents@, old_sums[k], old_members[k], k));
        };
    }
}

proof fn lemma_pixel_index(w: int, h: int, x: int, y: int)
    requires
        0 <= x < w,
        0 <= y < h,
    ensures
        (y * w + x) % w == x,
        (y * w + x) / w == y,
        0 <= y * w + x < w * h,
{
    vstd::arithmetic::div_mod::lemma_fundamental_div_mod_converse(y * w + x, w, y, x);
    assert(y * w + x < w * h) by (nonlinear_arith)
        requires
            0 <= x < w,
            0 <= y < h,
    ;
}

/// The sum of a sequence of counts.
pub open spec fn total_of(s: Seq<nat>) -> nat
    decreases s.len(),
{
    if s.len() == 0 {
        0
    } else {
        total_of(s.drop_last()) + s.last()
    }
}

proof fn lemma_total_zero(s: Seq<nat>)
    requires
        forall|i: int| 0 <= i < s.len() ==> s[i] == 0,
    ensures
        total_of(s) == 0,
    decreases s.len(),
{
    if s.len() > 0 {
        lemma_total_zero(s.drop_last());
    }
}

proof fn lemma_total_bump(a: Seq<nat>, b: Seq<nat>, j: int)
    requires
        a.len() == b.len(),
        0 <= j < a.len(),
        a[j] == b[j] + 1,
        forall|i: int| 0 <= i < a.len() && i != j ==> a[i] == b[i],
    ensures
        total_of(a) == total_of(b) + 1,
    decreases a.len(),
{
    if j == a.len() - 1 {
        assert(a.drop_last() =~= b.drop_last());
    } else {
        lemma_total_bump(a.drop_last(), b.drop_last(), j);
    }
}

/// Each pixel is a member of exactly one slot: the member counts of a round
/// add up to the number of pixels, and none exceeds it.
pub proof fn lemma_counts_cover(px: Seq<u32>, cents: Seq<u32>)
    requires
        cents.len() >= 1,
    ensures
        total_of(counts(px, cents)) == px.len(),
        forall|k: int| 0 <= k < cents.len() ==> #[trigger] counts(px, cents)[k] <= px.len(),
    decreases px.len(),
{
    assert forall|k: int| 0 <= k < cents.len() implies #[trigger] counts(px, cents)[k] <= px.len() by {
        lemma_members_bounds(px, cents, k);
    };
    if px.len() == 0 {
        lemma_total_zero(counts(px, cents));
    } else {
        let rest = px.drop_last();
        lemma_counts_cover(rest, cents);
        lemma_nearest_among(cents, px.last(), cents.len());
        lemma_total_bump(counts(px, cents), counts(rest, cents), nearest(cents, px.last()) as int);
    }
}

/// The member counts of a run add up to the number of pixels, and none
/// exceeds it: the coverage fractions lie in [0, 1] and sum to 1.
pub proof fn lemma_members_cover_image(px: Seq<u32>, seeds: Seq<u32>, i: nat)
    requires
        seeds.len() >= 1,
    ensures
        lloyd(px, seeds, i).1.len() == seeds.len(),
        total_of(lloyd(px, seeds, i).1) == px.len(),
        forall|k: int| 0 <= k < seeds.len() ==> #[trigger] lloyd(px, seeds, i).1[k] <= px.len(),
    decreases MAX_ITERATIONS - i,
{
    let new = step(px, seeds);
    if converged(seeds, new) || i + 1 >= MAX_ITERATIONS {
        lemma_counts_cover(px, seeds);
    } else {
        lemma_members_cover_image(px, new, i + 1);
    }
}

/// The largest centroid movement of a round is never negative.
pub proof fn lemma_max_error_nonneg(old: Seq<u32>, new: Seq<u32>, n: nat)
    ensures
        max_error(old, new, n) >= 0,
    decreases n,
{
    if n > 0 {
        lemma_max_error_nonneg(old, new, (n - 1) as nat);
    }
}

/// A run that starts at round `i` ends after between one round and the
/// rounds left before the cap.
pub proof fn lemma_rounds_bounded(px: Seq<u32>, cents: Seq<u32>, i: nat)
    requires
        i < MAX_ITERATIONS,
    ensures
        1 <= rounds(px, cents, i) <= MAX_ITERATIONS - i,
    decreases MAX_ITERATIONS - i,
{
    let new = step(px, cents);
    if !(converged(cents, new) || i + 1 >= MAX_ITERATIONS) {
        lemma_rounds_bounded(px, new, i + 1);
    }
}

proof fn lemma_uniform_sums(px: Seq<u32>, c: u32, ch: int)
    requires
        forall|i: int| 0 <= i < px.len() ==> px[i] == c,
    ensures
        members_of(px, seq![c], 0) == px.len(),
        channel_sum(px, seq![c], 0, ch) == px.len() * channel(c, ch),
    decreases px.len(),
{
    if px.len() > 0 {
        let rest = px.drop_last();
        lemma_uniform_sums(rest, c, ch);
        let n = px.len() as int;
        let v = channel(c, ch);
        assert((n - 1) * v + v == n * v) by (nonlinear_arith);
    }
}

/// An image of one color, clustered into one slot seeded with that color,
/// converges in one round to the opaque form of the color, which covers
/// every pixel.
pub proof fn lemma_single_color(px: Seq<u32>, c: u32)
    requires
        px.len() >= 1,
        forall|i: int| 0 <= i < px.len() ==> px[i] == c,
    ensures
        rounds(px, seq![c], 0) == 1,
        lloyd(px, seq![c], 0).0 == seq![opaque(red_of(c), green_of(c), blue_of(c))],
        lloyd(px, seq![c], 0).1 == seq![px.len()],
{
    let cents = seq![c];
    let n = px.len() as int;
    lemma_uniform_sums(px, c, 0);
    lemma_uniform_sums(px, c, 1);
    lemma_uniform_sums(px, c, 2);
    vstd::arithmetic::div_mod::lemma_div_multiples_vanish(red_of(c) as int, n);
    vstd::arithmetic::div_mod::lemma_div_multiples_vanish(green_of(c) as int, n);
    vstd::arithmetic::div_mod::lemma_div_multiples_vanish(blue_of(c) as int, n);
    assert(n * red_of(c) == red_of(c) * n) by (nonlinear_arith);
    assert(n * green_of(c) == green_of(c) * n) by (nonlinear_arith);
    assert(n * blue_of(c) == blue_of(c) * n) by (nonlinear_arith);
    let o = opaque(red_of(c), green_of(c), blue_of(c));
    assert(next_centroid(px, cents, 0) == o);
    crate::color::lemma_pack_unpack(red_of(c), green_of(c), blue_of(c));
    assert(step(px, cents) =~= seq![o]);
    assert(distance_spec(o, c) == 0);
    assert(max_error(cents, step(px, cents), 0) == 0);
    assert(step(px, cents)[0] == o && cents[0] == c);
    assert(max_error(cents, step(px, cents), 1) == 0);
    assert(counts(px, cents) =~= seq![px.len()]);
}

proof fn lemma_member_witness(px: Seq<u32>, cents: Seq<u32>, k: int)
    requires
        members_of(px, cents, k) > 0,
    ensures
        exists|i: int| 0 <= i < px.len() && nearest(cents, #[trigger] px[i]) == k,
    decreases px.len(),
{
    let rest = px.drop_last();
    if nearest(cents, px.last()) != k {
        lemma_member_witness(rest, cents, k);
        let i = choose|i: int| 0 <= i < rest.len() && nearest(cents, #[trigger] rest[i]) == k;
        assert(px[i] == rest[i]);
    } else {
        assert(px[px.len() - 1] == px.last());
    }
}

/// The slots of a round that no pixel is nearest to.
pub open spec fn empty_slots(c: Seq<nat>) -> Set<int> {
    set_int_range(0, c.len() as int).filter(|k: int| c[k] == 0)
}

/// After a round, a slot with no members holds `EMPTY_CLUSTER`, and at most
/// as many slots have members as the image has distinct colors.
proof fn lemma_round_empty_slots(px: Seq<u32>, cents: Seq<u32>)
    ensures
        forall|k: int| 0 <= k < cents.len() && counts(px, cents)[k] == 0 ==> #[trigger] step(px, cents)[k] == EMPTY_CLUSTER,
        empty_slots(counts(px, cents)).finite(),
        empty_slots(counts(px, cents)).len() + px.to_set().len() >= cents.len(),
{
    let kk = cents.len() as int;
    let c = counts(px, cents);
    let range = set_int_range(0, kk);
    let empty = empty_slots(c);
    let full = range.filter(|k: int| c[k] != 0);
    let colors = px.to_set();
    let f = |p: u32| nearest(cents, p) as int;
    vstd::seq_lib::seq_to_set_is_finite(px);
    vstd::set_lib::lemma_map_size_bound(colors, colors.map(f), f);
    assert forall|k: int| full.contains(k) implies colors.map(f).contains(k) by {
        lemma_member_witness(px, cents, k);
        let i = choose|i: int| 0 <= i < px.len() && nearest(cents, #[trigger] px[i]) == k;
        assert(colors.contains(px[i]));
    };
    vstd::set_lib::lemma_len_subset(full, colors.map(f));
    vstd::set_lib::lemma_int_range(0, kk);
    range.lemma_len_filter(|k: int| c[k] == 0);
    assert(empty + full =~= range);
    vstd::set_lib::lemma_set_disjoint_lens(empty, full);
}

/// When there are more slots than distinct colors, the surplus slots end
/// empty: every slot without members holds `EMPTY_CLUSTER`, and at least
/// `seeds.len()` minus the number of distinct colors slots have none.
pub proof fn lemma_surplus_slots_empty(px: Seq<u32>, seeds: Seq<u32>, i: nat)
    ensures
        forall|k: int|
            0 <= k < seeds.len() && lloyd(px, seeds, i).1[k] == 0 ==> #[trigger] lloyd(px, seeds, i).0[k] == EMPTY_CLUSTER,
        empty_slots(lloyd(px, seeds, i).1).finite(),
        empty_slots(lloyd(px, seeds, i).1).len() + px.to_set().len() >= seeds.len(),
    decreases MAX_ITERATIONS - i,
{
    let new = step(px, seeds);
    if converged(seeds, new) || i + 1 >= MAX_ITERATIONS {
        lemma_round_empty_slots(px, seeds);
    } else {
        lemma_surplus_slots_empty(px, new, i + 1);
    }
}

} // verus!
