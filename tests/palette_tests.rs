use dominant_color::buffer::PixelBuffer;
use dominant_color::cluster::{cluster, EMPTY_CLUSTER};
use dominant_color::color::{blue, cal_color, green, red, rev_color};
use dominant_color::error::ColorError;
use dominant_color::metric::{distance_sq, nearest_centroid};
use dominant_color::palette::{dominant_colors, dominant_colors_from_draws, kmeans, palette_from_seeds, Palette};
use dominant_color::seed::{accept_seed, seed_centroids, seeds_from_draws};

/// Builds a buffer of `width` by `height` pixels given as (r, g, b, a), with
/// `pad` unused bytes at the end of each row.
fn image(width: u32, height: u32, pad: u32, pixels: &[(u8, u8, u8, u8)]) -> PixelBuffer {
    assert_eq!(pixels.len(), (width * height) as usize);
    let stride = width * 4 + pad;
    let mut data = Vec::new();
    for y in 0..height {
        for x in 0..width {
            let (r, g, b, a) = pixels[(y * width + x) as usize];
            data.extend_from_slice(&[r, g, b, a]);
        }
        for _ in 0..pad {
            data.push(0xAB);
        }
    }
    match PixelBuffer::new(width, height, stride, data) {
        Ok(b) => b,
        Err(e) => panic!("bad geometry: {:?}", e),
    }
}

fn ok(r: Result<Palette, ColorError>) -> Palette {
    match r {
        Ok(p) => p,
        Err(e) => panic!("no palette: {:?}", e),
    }
}

const RED: (u8, u8, u8, u8) = (255, 0, 0, 255);
const BLUE: (u8, u8, u8, u8) = (0, 0, 255, 255);

fn seventy_thirty() -> Vec<(u8, u8, u8, u8)> {
    let mut px = vec![RED; 7];
    px.extend(vec![BLUE; 3]);
    px
}

#[test]
fn channels_of_packed_color() {
    let c = 0x8040_2010u32;
    assert_eq!(red(c), 0x10);
    assert_eq!(green(c), 0x20);
    assert_eq!(blue(c), 0x40);
}

#[test]
fn pack_unpack_round_trip() {
    for &(r, g, b) in &[(0u32, 0u32, 0u32), (255, 255, 255), (1, 2, 3), (200, 17, 99), (0, 255, 0)] {
        let c = cal_color(r, g, b);
        assert_eq!((red(c), green(c), blue(c)), (r, g, b));
        assert_eq!(c >> 24, 0xFF);
    }
}

#[test]
fn pack_keeps_low_byte_only() {
    assert_eq!(cal_color(0x1FF, 0x100, 0x2AB), 0xFFAB_00FF);
    assert_eq!(cal_color(10, 20, 30), 0xFF1E_140A);
}

#[test]
fn swap_red_and_blue() {
    assert_eq!(rev_color(0x0011_2233), 0xFF33_2211);
    assert_eq!(rev_color(EMPTY_CLUSTER), EMPTY_CLUSTER);
}

#[test]
fn distance_weights() {
    assert_eq!(distance_sq(0, 0), 0);
    assert_eq!(distance_sq(0xFF, 0), 900 * 255 * 255);
    assert_eq!(distance_sq(0, 0xFF00), 3481 * 255 * 255);
    assert_eq!(distance_sq(0xFF_0000, 0), 121 * 255 * 255);
    assert_eq!(distance_sq(cal_color(1, 2, 3), cal_color(2, 0, 6)), 900 + 3481 * 4 + 121 * 9);
    // alpha is ignored
    assert_eq!(distance_sq(0x0000_0001, 0xFF00_0001), 0);
}

#[test]
fn nearest_prefers_lowest_index_on_ties() {
    let cents = vec![cal_color(10, 0, 0), cal_color(0, 0, 0), cal_color(0, 0, 0)];
    assert_eq!(nearest_centroid(&cents, cal_color(1, 0, 0)), 1);
    assert_eq!(nearest_centroid(&cents, cal_color(9, 0, 0)), 0);
    assert_eq!(nearest_centroid(&cents, cal_color(5, 0, 0)), 0);
}

#[test]
fn geometry_is_checked() {
    assert_eq!(PixelBuffer::new(2, 2, 8, vec![0; 16]).is_ok(), true);
    assert!(matches!(PixelBuffer::new(2, 2, 7, vec![0; 16]), Err(ColorError::UnreadablePixelSource)));
    assert!(matches!(PixelBuffer::new(2, 2, 8, vec![0; 15]), Err(ColorError::UnreadablePixelSource)));
    assert!(matches!(PixelBuffer::new(0, 2, 8, vec![0; 16]), Err(ColorError::UnreadablePixelSource)));
    assert!(matches!(PixelBuffer::new(2, 0, 8, vec![0; 16]), Err(ColorError::UnreadablePixelSource)));
}

#[test]
fn color_at_reads_rgba_bytes() {
    let b = image(2, 2, 4, &[(1, 2, 3, 4), (5, 6, 7, 8), (9, 10, 11, 12), (13, 14, 15, 16)]);
    assert_eq!(b.color_at(0, 0), 0x0403_0201);
    assert_eq!(b.color_at(1, 0), 0x0807_0605);
    assert_eq!(b.color_at(0, 1), 0x0C0B_0A09);
    assert_eq!(b.color_at(1, 1), 0x100F_0E0D);
    assert_eq!((b.width(), b.height(), b.stride()), (2, 2, 12));
}

#[test]
fn non_positive_palette_size_is_rejected() {
    let b = image(1, 1, 0, &[RED]);
    assert!(matches!(dominant_colors(&b, 0), Err(ColorError::InvalidParameter)));
    assert!(matches!(dominant_colors(&b, -3), Err(ColorError::InvalidParameter)));
    assert!(matches!(dominant_colors_from_draws(&b, 0, &vec![(0, 0)]), Err(ColorError::InvalidParameter)));
    assert!(matches!(palette_from_seeds(&b, vec![]), Err(ColorError::InvalidParameter)));
}

#[test]
fn single_color_converges_to_that_color() {
    let b = image(3, 2, 0, &[(10, 20, 30, 128); 6]);
    let p = ok(dominant_colors(&b, 1));
    assert_eq!(p.colors, vec![cal_color(30, 20, 10)]);
    assert_eq!(p.members, vec![6]);
    assert_eq!(p.total, 6);
}

#[test]
fn two_colors_in_known_proportions() {
    let b = image(5, 2, 0, &seventy_thirty());
    let p = ok(palette_from_seeds(&b, vec![b.color_at(0, 0), b.color_at(4, 1)]));
    assert_eq!(p.colors, vec![cal_color(0, 0, 255), cal_color(255, 0, 0)]);
    assert_eq!(p.members, vec![7, 3]);
    assert_eq!(p.total, 10);
}

#[test]
fn equal_seeds_leave_a_slot_empty() {
    // both seeds red: ties go to the first slot, and the emptied second slot
    // (white) stays farther from every pixel than the first slot's mean
    let b = image(5, 2, 0, &seventy_thirty());
    let (cents, members) = cluster(&b, vec![b.color_at(0, 0), b.color_at(1, 0)]);
    assert_eq!(cents, vec![cal_color(178, 0, 76), EMPTY_CLUSTER]);
    assert_eq!(members, vec![10, 0]);
}

#[test]
fn surplus_slots_end_empty() {
    let b = image(2, 2, 0, &[(40, 50, 60, 255); 4]);
    let p = ok(dominant_colors(&b, 3));
    assert_eq!(p.colors, vec![cal_color(60, 50, 40), EMPTY_CLUSTER, EMPTY_CLUSTER]);
    assert_eq!(p.members, vec![4, 0, 0]);
}

#[test]
fn random_run_covers_every_pixel() {
    let mut px = Vec::new();
    for i in 0..24u32 {
        px.push(((i * 37 % 256) as u8, (i * 91 % 256) as u8, (i * 13 % 256) as u8, 255));
    }
    let b = image(6, 4, 3, &px);
    let p = ok(dominant_colors(&b, 4));
    assert_eq!(p.colors.len(), 4);
    assert_eq!(p.members.len(), 4);
    assert_eq!(p.members.iter().sum::<u64>(), 24);
    assert_eq!(p.total, 24);
    let (cents, members) = kmeans(&b, 4);
    assert_eq!(cents.len(), 4);
    assert_eq!(members.iter().sum::<u64>(), 24);
}

#[test]
fn fixed_draws_give_identical_runs() {
    let mut px = Vec::new();
    for i in 0..12u32 {
        px.push(((i * 53 % 256) as u8, (i * 7 % 256) as u8, (i * 201 % 256) as u8, 255));
    }
    let b = image(4, 3, 0, &px);
    let draws = vec![(0, 0), (3, 2), (1, 1), (2, 0), (0, 2)];
    let first = ok(dominant_colors_from_draws(&b, 3, &draws));
    let second = ok(dominant_colors_from_draws(&b, 3, &draws));
    assert_eq!(first.colors, second.colors);
    assert_eq!(first.members, second.members);
    assert_eq!(first.members.iter().sum::<u64>(), 12);
}

#[test]
fn padded_rows_give_identical_results() {
    let mut px = Vec::new();
    for i in 0..15u32 {
        px.push(((i * 17 % 256) as u8, (i * 111 % 256) as u8, (i * 29 % 256) as u8, 255));
    }
    let tight = image(5, 3, 0, &px);
    let padded = image(5, 3, 12, &px);
    let draws = vec![(4, 2), (0, 0), (2, 1), (1, 2), (3, 0), (0, 1)];
    let first = ok(dominant_colors_from_draws(&tight, 3, &draws));
    let second = ok(dominant_colors_from_draws(&padded, 3, &draws));
    assert_eq!(first.colors, second.colors);
    assert_eq!(first.members, second.members);
}

#[test]
fn draws_outside_or_too_few_are_rejected() {
    let b = image(2, 2, 0, &[RED, RED, RED, RED]);
    assert!(matches!(dominant_colors_from_draws(&b, 1, &vec![(2, 0)]), Err(ColorError::InvalidParameter)));
    assert!(matches!(dominant_colors_from_draws(&b, 1, &vec![(0, 2)]), Err(ColorError::InvalidParameter)));
    assert!(matches!(dominant_colors_from_draws(&b, 2, &vec![(0, 0)]), Err(ColorError::InvalidParameter)));
}

#[test]
fn repeated_color_is_taken_after_three_rejections() {
    let b = image(2, 1, 0, &[RED, RED]);
    let c = b.color_at(0, 0);
    assert_eq!(seeds_from_draws(&b, 2, &vec![(0, 0); 4]), None);
    assert_eq!(seeds_from_draws(&b, 2, &vec![(0, 0); 5]), Some(vec![c, c]));
    assert_eq!(seeds_from_draws(&b, 0, &vec![]), Some(vec![]));
}

#[test]
fn distinct_color_is_taken_at_once() {
    let b = image(2, 1, 0, &[RED, BLUE]);
    let seeds = seeds_from_draws(&b, 2, &vec![(0, 0), (1, 0), (0, 0)]);
    assert_eq!(seeds, Some(vec![b.color_at(0, 0), b.color_at(1, 0)]));
    assert_eq!(accept_seed(&vec![1, 2], 0, 3), true);
    assert_eq!(accept_seed(&vec![1, 2], 2, 2), false);
    assert_eq!(accept_seed(&vec![1, 2], 3, 2), true);
}

#[test]
fn random_seeds_are_pixels_of_the_image() {
    let b = image(2, 2, 0, &[RED, BLUE, RED, BLUE]);
    let seeds = seed_centroids(&b, 5);
    assert_eq!(seeds.len(), 5);
    for s in seeds {
        assert!(s == b.color_at(0, 0) || s == b.color_at(1, 0));
    }
}
