use mazalot::backdrop::{
    cloud_grid, exposed, layer_refresh, nebula_refresh, scroll, Refresh, GL_B_LAYER, GL_B_TINTS,
    GL_MAX_LAYERS, GL_MAX_TINTS, GL_UNIFORMS_LEN,
};

/// What a fresh paint with its corner at world unit `(ox, oy)` puts in each
/// element of a unit.
fn paint(ox: i32, oy: i32, x: u32, y: u32, e: usize) -> i64 {
    ((ox as i64 + x as i64) * 1000 + (oy as i64 + y as i64)) * 10 + e as i64
}

fn fresh(nw: u32, nh: u32, unit: usize, ox: i32, oy: i32) -> Vec<i64> {
    let mut v = Vec::new();
    for y in 0..nh {
        for x in 0..nw {
            for e in 0..unit {
                v.push(paint(ox, oy, x, y, e));
            }
        }
    }
    v
}

fn in_rect(r: [u32; 4], x: u32, y: u32) -> bool {
    r[0] <= x && x < r[2] && r[1] <= y && y < r[3]
}

/// Slide, then repaint only the exposed strips: the result is the fresh frame.
#[test]
fn scroll_then_repaint_matches_a_fresh_paint() {
    let (nw, nh, unit) = (7u32, 5u32, 3usize);
    for (dx, dy) in [(0, 0), (2, 0), (-3, 1), (1, -4), (-6, -4), (7, 0), (0, -5)] {
        let mut buf = fresh(nw, nh, unit, 100, 200);
        scroll(&mut buf, nw, nh, unit, dx, dy);
        let (ox, oy) = (100 + dx, 200 + dy);
        for r in exposed(nw, nh, dx, dy) {
            for y in r[1]..r[3] {
                for x in r[0]..r[2] {
                    for e in 0..unit {
                        buf[((y * nw + x) as usize) * unit + e] = paint(ox, oy, x, y, e);
                    }
                }
            }
        }
        assert_eq!(buf, fresh(nw, nh, unit, ox, oy), "scroll by ({dx}, {dy})");
    }
}

#[test]
fn exposed_strips_are_exactly_the_sourceless_units() {
    let (nw, nh) = (6u32, 4u32);
    for dx in -6..=6 {
        for dy in -4..=4 {
            let r = exposed(nw, nh, dx, dy);
            for y in 0..nh {
                for x in 0..nw {
                    let sx = x as i32 + dx;
                    let sy = y as i32 + dy;
                    let has_source = 0 <= sx && sx < nw as i32 && 0 <= sy && sy < nh as i32;
                    assert_eq!(has_source, !(in_rect(r[0], x, y) || in_rect(r[1], x, y)));
                }
            }
        }
    }
    assert_eq!(exposed(10, 8, 3, 0), [[7, 0, 10, 8], [0, 0, 0, 0]]);
    assert_eq!(exposed(10, 8, -3, -2), [[0, 0, 3, 8], [0, 0, 10, 2]]);
}

#[test]
fn nebula_cache_decisions() {
    let dims = Some([20, 10]);
    // Hit: same size, same origin.
    assert!(matches!(nebula_refresh(dims, Some([5, 5]), 200, 20, 10, [5, 5]), Refresh::Keep));
    // A small pan slides.
    assert!(matches!(
        nebula_refresh(dims, Some([5, 5]), 200, 20, 10, [7, 4]),
        Refresh::Slide { dx: 2, dy: -1 }
    ));
    // A jump past the field's extent rebuilds.
    assert!(matches!(nebula_refresh(dims, Some([5, 5]), 200, 20, 10, [25, 5]), Refresh::Rebuild));
    assert!(matches!(nebula_refresh(dims, Some([5, 5]), 200, 20, 10, [5, -5]), Refresh::Rebuild));
    // A resize, a short field, or an empty cache rebuilds.
    assert!(matches!(nebula_refresh(Some([21, 10]), Some([5, 5]), 200, 20, 10, [5, 5]), Refresh::Rebuild));
    assert!(matches!(nebula_refresh(dims, Some([5, 5]), 199, 20, 10, [5, 5]), Refresh::Rebuild));
    assert!(matches!(nebula_refresh(None, None, 0, 20, 10, [0, 0]), Refresh::Rebuild));
}

#[test]
fn layer_cache_decisions() {
    let key = [640, 360, 40];
    let len = 640 * 360 * 4;
    assert!(matches!(
        layer_refresh(Some(key), Some([3, 4]), len, key, len, [3, 4], 640, 360, true),
        Refresh::Keep
    ));
    assert!(matches!(
        layer_refresh(Some(key), Some([3, 4]), len, key, len, [13, 4], 640, 360, true),
        Refresh::Slide { dx: 10, dy: 0 }
    ));
    // A screen-pinned ground dither forbids sliding.
    assert!(matches!(
        layer_refresh(Some(key), Some([3, 4]), len, key, len, [13, 4], 640, 360, false),
        Refresh::Rebuild
    ));
    // A new fade is a new key.
    assert!(matches!(
        layer_refresh(Some([640, 360, 39]), Some([3, 4]), len, key, len, [3, 4], 640, 360, true),
        Refresh::Rebuild
    ));
    assert!(matches!(
        layer_refresh(Some(key), Some([3, 4]), len, key, len, [3, 364], 640, 360, true),
        Refresh::Rebuild
    ));
}

#[test]
fn cloud_grid_splits_the_drift_floorwise() {
    let g = cloud_grid(true, 100, 50, 8, 13, -13);
    assert_eq!((g.nw, g.nh), (14, 8));
    assert_eq!(g.org, [1, -2]);
    assert_eq!(g.sub, [5, 3]);
    assert_eq!(g.phase, [5, 3]);
    let g = cloud_grid(true, 96, 48, 8, -16, 0);
    assert_eq!((g.nw, g.nh), (13, 7));
    assert_eq!(g.org, [-2, 0]);
    assert_eq!(g.sub, [0, 0]);
    let g = cloud_grid(false, 100, 50, 8, 13, -13);
    assert_eq!((g.nw, g.nh, g.org, g.sub, g.phase), (1, 1, [0, 0], [0, 0], [0, 0]));
}

/// The uniform array is a wire format shared with the backdrop shader. This
/// crate does not carry the shader source, so the half of the pairing that
/// reads it — each `#define` slot, the array declaration and the shader's loop
/// bounds — is not checked here; what is checked is the Rust half: the layer
/// table and the tint table, at their caps, fit after their bases.
#[test]
fn gl_glsl_slot_indices_match_the_rust() {
    assert!(GL_B_LAYER + GL_MAX_LAYERS * 8 <= GL_B_TINTS, "the layer table overruns the tints");
    assert!(GL_B_TINTS + GL_MAX_TINTS * 4 <= GL_UNIFORMS_LEN, "the tint table overruns the array");
}
