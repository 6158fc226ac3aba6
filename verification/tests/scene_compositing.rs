use mazalot::dither::{bayer_level, BAYER};
use mazalot::scene::{composite_run, onscreen_span, plot, Tile};

fn blend(s: u8, d: u8, a: u8) -> u8 {
    ((s as u32 * a as u32 + d as u32 * (255 - a as u32)) / 255) as u8
}

#[test]
fn bayer_tiles_every_eight_pixels() {
    assert_eq!(bayer_level(0, 0), 0);
    assert_eq!(bayer_level(1, 0), 32);
    assert_eq!(bayer_level(7, 7), 21);
    for y in 0..8u32 {
        for x in 0..8u32 {
            assert_eq!(bayer_level(x, y), BAYER[(y * 8 + x) as usize]);
            assert_eq!(bayer_level(x + 8, y + 16), bayer_level(x, y));
        }
    }
    assert_eq!(bayer_level(u32::MAX, u32::MAX), bayer_level(7, 7));
}

#[test]
fn bayer_levels_are_a_permutation() {
    let mut seen = [false; 64];
    for y in 0..8 {
        for x in 0..8 {
            let l = bayer_level(x, y) as usize;
            assert!(l < 64 && !seen[l]);
            seen[l] = true;
        }
    }
}

#[test]
fn default_tile_is_empty() {
    let t = Tile::default();
    assert_eq!(t.size, 0);
    assert!(t.px.is_empty());
}

#[test]
fn ensure_reuses_a_fitting_buffer_and_resets_otherwise() {
    let mut t = Tile::default();
    t.ensure(3);
    assert_eq!(t.size, 3);
    assert_eq!(t.px, vec![0u8; 36]);
    t.px[5] = 77;
    t.ensure(3);
    assert_eq!(t.px[5], 77, "a fitting buffer is kept as it is");
    t.ensure(2);
    assert_eq!(t.px, vec![0u8; 16]);
    t.size = 4;
    t.ensure(2);
    assert_eq!(t.size, 2);
    assert_eq!(t.px.len(), 16);
}

#[test]
fn opaque_run_overwrites() {
    let mut out = vec![9u8; 16];
    composite_run(&mut out, 4, 2, [10, 20, 30, 255]);
    assert_eq!(out, vec![9, 9, 9, 9, 10, 20, 30, 255, 10, 20, 30, 255, 9, 9, 9, 9]);
}

#[test]
fn transparent_run_is_a_no_op() {
    let mut out: Vec<u8> = (0..16).collect();
    composite_run(&mut out, 0, 4, [200, 200, 200, 0]);
    assert_eq!(out, (0..16).collect::<Vec<u8>>());
}

#[test]
fn translucent_run_blends_each_pixel() {
    let mut out = vec![100u8, 0, 255, 40, 7, 8, 9, 10];
    composite_run(&mut out, 0, 2, [200, 50, 0, 128]);
    assert_eq!(
        out,
        vec![
            blend(200, 100, 128),
            blend(50, 0, 128),
            blend(0, 255, 128),
            255,
            blend(200, 7, 128),
            blend(50, 8, 128),
            blend(0, 9, 128),
            255
        ]
    );
    assert_eq!(out[0], 150);
}

#[test]
fn plot_adds_and_caps() {
    let (w, h) = (4u32, 3u32);
    let mut out = vec![0u8; (w * h * 4) as usize];
    out[(1 * w + 2) as usize * 4] = 100;
    plot(&mut out, w, h, 2, 1, [200, 10, 300], [220, 220, 235]);
    let i = (1 * w + 2) as usize * 4;
    assert_eq!(&out[i..i + 4], &[220, 10, 235, 0]);
    plot(&mut out, w, h, 2, 1, [0, 5, 0], [220, 220, 235]);
    assert_eq!(&out[i..i + 4], &[220, 15, 235, 0]);
    // A cap below the current value clamps the channel down to the cap.
    plot(&mut out, w, h, 2, 1, [0, 0, 0], [50, 50, 50]);
    assert_eq!(&out[i..i + 3], &[50, 15, 50]);
}

#[test]
fn plot_off_frame_is_ignored() {
    let mut out = vec![1u8; 4 * 3 * 4];
    for (x, y) in [(-1, 0), (0, -1), (4, 0), (0, 3), (i32::MIN, i32::MAX)] {
        plot(&mut out, 4, 3, x, y, [9, 9, 9], [255, 255, 255]);
    }
    assert_eq!(out, vec![1u8; 48]);
}

#[test]
fn onscreen_span_clips_both_edges() {
    // Fully on screen.
    assert_eq!(onscreen_span(10, 5, 100), (0, 5));
    // Hanging off the left edge.
    assert_eq!(onscreen_span(-3, 5, 100), (3, 5));
    // Hanging off the right edge.
    assert_eq!(onscreen_span(97, 5, 100), (0, 3));
    // Bigger than the screen on both sides.
    assert_eq!(onscreen_span(-10, 200, 100), (10, 110));
    // Missing the screen entirely: an empty span.
    let (lo, hi) = onscreen_span(150, 5, 100);
    assert!(hi <= lo);
    let (lo, hi) = onscreen_span(-20, 5, 100);
    assert!(hi <= lo);
}
