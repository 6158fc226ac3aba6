//! The scrolling-sprite half of the backdrop cache.
//!
//! A scene's backdrop depends on where the camera is, never on what time it is,
//! so a frame is mostly the previous frame *moved*. Both cached layers — the
//! low-res cloud field and the full-res composite — are kept as 2D buffers of
//! fixed-size units and slid in place by [`scroll`] when the camera pans; only
//! the strips [`exposed`] reports, the units that had no source, are painted
//! anew. [`lemma_scroll_then_repaint_is_fresh`] is why that is sound: after the
//! slide every unit outside those strips already holds what a fresh paint at
//! the new position would put there.

use vstd::prelude::*;

verus! {

/// Flat index of element `e` of unit `(x, y)` in a buffer `nw` units wide with
/// `unit` elements per unit.
pub open spec fn uidx(nw: int, unit: int, x: int, y: int, e: int) -> int {
    (y * nw + x) * unit + e
}

/// Unit `(x, y)` of an `nw` × `nh` buffer has a source after a slide by
/// `(dx, dy)`: unit `(x + dx, y + dy)` lies inside the buffer.
pub open spec fn has_source(nw: int, nh: int, dx: int, dy: int, x: int, y: int) -> bool {
    0 <= x + dx < nw && 0 <= y + dy < nh
}

/// `new` is `old` slid by `(dx, dy)`: every unit with a source holds what its
/// source held, every other unit is left as it was.
pub open spec fn scrolled<T>(old: Seq<T>, new: Seq<T>, nw: int, nh: int, unit: int, dx: int, dy: int) -> bool {
    &&& new.len() == old.len()
    &&& forall|x: int, y: int, e: int|
        0 <= x < nw && 0 <= y < nh && 0 <= e < unit ==> #[trigger] new[uidx(nw, unit, x, y, e)] == if has_source(nw, nh, dx, dy, x, y) {
            old[uidx(nw, unit, x + dx, y + dy, e)]
        } else {
            old[uidx(nw, unit, x, y, e)]
        }
}

/// Unit `(x, y)` lies in the half-open rect `[x0, y0, x1, y1)`.
pub open spec fn in_rect(r: [u32; 4], x: int, y: int) -> bool {
    r@[0] <= x < r@[2] && r@[1] <= y < r@[3]
}

proof fn lemma_uidx_split(nw: int, unit: int, x: int, y: int, e: int)
    requires
        0 <= x < nw,
        0 <= e < unit,
        0 <= y,
    ensures
        uidx(nw, unit, x, y, e) == y * (nw * unit) + x * unit + e,
        y * (nw * unit) <= uidx(nw, unit, x, y, e) < (y + 1) * (nw * unit),
{
    assert(uidx(nw, unit, x, y, e) == y * (nw * unit) + x * unit + e) by (nonlinear_arith);
    assert(x * unit + e < nw * unit) by (nonlinear_arith)
        requires
            0 <= x < nw,
            0 <= e < unit,
    ;
    assert((y + 1) * (nw * unit) == y * (nw * unit) + nw * unit) by (nonlinear_arith);
    assert(x * unit >= 0) by (nonlinear_arith)
        requires
            0 <= x,
            0 <= e < unit,
    ;
}

proof fn lemma_uidx_bound(nw: int, nh: int, unit: int, x: int, y: int, e: int)
    requires
        0 <= x < nw,
        0 <= y < nh,
        0 <= e < unit,
    ensures
        0 <= uidx(nw, unit, x, y, e) < nw * nh * unit,
{
    lemma_uidx_split(nw, unit, x, y, e);
    assert((y + 1) * (nw * unit) <= nw * nh * unit) by (nonlinear_arith)
        requires
            y + 1 <= nh,
            nw * unit >= 0,
    ;
    assert(y * (nw * unit) >= 0) by (nonlinear_arith)
        requires
            y >= 0,
            nw * unit >= 0,
    ;
}

/// Copy `run` elements of `src` starting at `s` over `buf` starting at `d`.
fn copy_run<T: Copy>(buf: &mut [T], d: usize, src: &Vec<T>, s: usize, run: usize)
    requires
        d + run <= old(buf)@.len(),
        s + run <= src@.len(),
    ensures
        final(buf)@.len() == old(buf)@.len(),
        forall|k: int|
            0 <= k < old(buf)@.len() ==> #[trigger] final(buf)@[k] == if d <= k < d + run {
                src@[s + k - d]
            } else {
                old(buf)@[k]
            },
{
    let ghost before = buf@;
    let blen = buf.len();
    let slen = src.len();
    let mut i: usize = 0;
    while i < run
        invariant
            blen == buf@.len(),
            slen == src@.len(),
            i <= run,
            d + run <= buf@.len(),
            s + run <= src@.len(),
            buf@.len() == before.len(),
            forall|k: int|
                0 <= k < before.len() ==> #[trigger] buf@[k] == if d <= k < d + i {
                    src@[s + k - d]
                } else {
                    before[k]
                },
        decreases run - i,
    {
        buf[d + i] = src[s + i];
        i += 1;
    }
}

/// Slide a 2D buffer in place by `(dx, dy)` whole units — `unit` elements each,
/// `nw` × `nh` of them — so that afterwards unit `(x, y)` holds what unit
/// `(x + dx, y + dy)` did.
///
/// The units with no source, i.e. the strips that just scrolled into view, are
/// left holding stale data for the caller to repaint (see [`exposed`]). Shared
/// by both backdrop caches: the cloud field scrolls in cells, the composited
/// layer in RGBA pixels of four bytes.
pub fn scroll<T: Copy>(buf: &mut [T], nw: u32, nh: u32, unit: usize, dx: i32, dy: i32)
    requires
        old(buf)@.len() >= nw * nh * unit,
        nw <= i32::MAX,
        nh <= i32::MAX,
        dx > i32::MIN,
        dy > i32::MIN,
        nw - dx <= i32::MAX,
        nh + dy <= i32::MAX,
    ensures
        scrolled(old(buf)@, final(buf)@, nw as int, nh as int, unit as int, dx as int, dy as int),
        forall|k: int| nw * nh * unit <= k < old(buf)@.len() ==> #[trigger] final(buf)@[k] == old(buf)@[k],
{
    let ghost old_buf = buf@;
    let ghost (gw, gh, gu) = (nw as int, nh as int, unit as int);
    let (nwi, nhi) = (nw as i32, nh as i32);
    // Destination columns that have a source: x + dx must land inside the buffer.
    let (x0, x1) = ((-dx).max(0), (nwi - dx).min(nwi));
    if x1 <= x0 {
        assert forall|x: int, y: int, e: int|
            0 <= x < gw && 0 <= y < gh && 0 <= e < gu implies #[trigger] buf@[uidx(gw, gu, x, y, e)]
            == if has_source(gw, gh, dx as int, dy as int, x, y) {
            old_buf[uidx(gw, gu, x + dx, y + dy, e)]
        } else {
            old_buf[uidx(gw, gu, x, y, e)]
        } by {}
        return;
    }
    proof {
        assert(gw * gh * gu >= 0) by (nonlinear_arith)
            requires
                gw >= 0,
                gh >= 0,
                gu >= 0,
        ;
        if gh > 0 {
            assert(gw * gu <= gw * gh * gu) by (nonlinear_arith)
                requires
                    gh >= 1,
                    gw >= 0,
                    gu >= 0,
            ;
        }
    }
    let len = buf.len();
    let src_buf = vstd::slice::slice_to_vec(buf);
    let mut k: i32 = 0;
    while k < nhi
        invariant
            0 <= k <= nhi,
            nhi == gh,
            nwi == gw,
            gw == nw,
            gh == nh,
            gu == unit,
            len == buf@.len(),
            buf@.len() == old_buf.len(),
            src_buf@ == old_buf,
            old_buf.len() >= gw * gh * gu,
            gh > 0 ==> gw * gu <= gw * gh * gu,
            forall|j: int| gw * gh * gu <= j < old_buf.len() ==> #[trigger] buf@[j] == old_buf[j],
            0 <= x0 < x1 <= gw,
            x0 == if dx < 0 { -dx as int } else { 0 },
            x1 == if dx > 0 { gw - dx } else { gw },
            dy > i32::MIN,
            gh + dy <= i32::MAX,
            forall|x: int, y: int, e: int|
                0 <= x < gw && 0 <= y < gh && 0 <= e < gu ==> #[trigger] buf@[uidx(gw, gu, x, y, e)]
                    == if (if dy >= 0 { y < k } else { y >= gh - k }) && has_source(
                    gw,
                    gh,
                    dx as int,
                    dy as int,
                    x,
                    y,
                ) {
                    old_buf[uidx(gw, gu, x + dx, y + dy, e)]
                } else {
                    old_buf[uidx(gw, gu, x, y, e)]
                },
        decreases nhi - k,
    {
        // Walk rows away from the source, as an in-place memmove would.
        let y = if dy >= 0 { k } else { nhi - 1 - k };
        let sy = y + dy;
        if sy < 0 || sy >= nhi {
            // Scrolled in from off-buffer; the caller repaints it.
            k += 1;
            continue;
        }
        let ghost before = buf@;
        let ghost run_g = (x1 - x0) * gu;
        let ghost dst_g = y * (gw * gu) + x0 * gu;
        let ghost src_g = sy * (gw * gu) + (x0 + dx) * gu;
        proof {
            assert(dst_g + run_g <= (y + 1) * (gw * gu) && (y + 1) * (gw * gu) <= gw * gh * gu
                && dst_g >= 0) by (nonlinear_arith)
                requires
                    dst_g == y * (gw * gu) + x0 * gu,
                    run_g == (x1 - x0) * gu,
                    0 <= x0 < x1 <= gw,
                    0 <= y < gh,
                    gu >= 0,
            ;
            assert(0 <= x0 + dx && x1 + dx <= gw);
            assert(src_g + run_g == sy * (gw * gu) + (x1 + dx) * gu) by (nonlinear_arith)
                requires
                    src_g == sy * (gw * gu) + (x0 + dx) * gu,
                    run_g == (x1 - x0) * gu,
            ;
            assert((x1 + dx) * gu <= gw * gu) by (nonlinear_arith)
                requires
                    x1 + dx <= gw,
                    gu >= 0,
            ;
            assert((sy + 1) * (gw * gu) == sy * (gw * gu) + gw * gu) by (nonlinear_arith);
            assert((sy + 1) * (gw * gu) <= gw * gh * gu) by (nonlinear_arith)
                requires
                    sy + 1 <= gh,
                    gw * gu >= 0,
            ;
            assert(src_g >= 0) by (nonlinear_arith)
                requires
                    src_g == sy * (gw * gu) + (x0 + dx) * gu,
                    sy >= 0,
                    x0 + dx >= 0,
                    gw >= 0,
                    gu >= 0,
            ;
        }
        assert(gh > 0);
        assert(gw * gu <= len);
        assert(nw as int * unit as int == gw * gu);
        assert(dst_g <= len && y * (gw * gu) <= dst_g && x0 * gu <= dst_g) by (nonlinear_arith)
            requires
                dst_g == y * (gw * gu) + x0 * gu,
                dst_g + run_g <= len,
                run_g >= 0,
                y >= 0,
                x0 >= 0,
                gu >= 0,
                gw >= 0,
        ;
        let run = (x1 - x0) as usize * unit;
        let stride = nw as usize * unit;
        let dst = y as usize * stride + x0 as usize * unit;
        let src = sy as usize * stride + (x0 + dx) as usize * unit;
        copy_run(buf, dst, &src_buf, src, run);
        assert forall|x: int, yy: int, e: int|
            0 <= x < gw && 0 <= yy < gh && 0 <= e < gu implies #[trigger] buf@[uidx(gw, gu, x, yy, e)]
            == if (if dy >= 0 { yy < k + 1 } else { yy >= gh - (k + 1) }) && has_source(
            gw,
            gh,
            dx as int,
            dy as int,
            x,
            yy,
        ) {
            old_buf[uidx(gw, gu, x + dx, yy + dy, e)]
        } else {
            old_buf[uidx(gw, gu, x, yy, e)]
        } by {
            lemma_uidx_split(gw, gu, x, yy, e);
            lemma_uidx_bound(gw, gh, gu, x, yy, e);
            let f = uidx(gw, gu, x, yy, e);
            if yy == y {
                if x0 <= x < x1 {
                    assert(dst_g <= f < dst_g + run_g) by (nonlinear_arith)
                        requires
                            f == yy * (gw * gu) + x * gu + e,
                            dst_g == yy * (gw * gu) + x0 * gu,
                            run_g == (x1 - x0) * gu,
                            x0 <= x < x1,
                            0 <= e < gu,
                    ;
                    lemma_uidx_split(gw, gu, x + dx, sy as int, e);
                    assert(src_g + f - dst_g == uidx(gw, gu, x + dx, yy + dy, e)) by (nonlinear_arith)
                        requires
                            f == yy * (gw * gu) + x * gu + e,
                            dst_g == yy * (gw * gu) + x0 * gu,
                            src_g == (yy + dy) * (gw * gu) + (x0 + dx) * gu,
                            uidx(gw, gu, x + dx, yy + dy, e) == (yy + dy) * (gw * gu) + (x + dx)
                                * gu + e,
                    ;
                } else {
                    assert(!(dst_g <= f < dst_g + run_g)) by (nonlinear_arith)
                        requires
                            f == yy * (gw * gu) + x * gu + e,
                            dst_g == yy * (gw * gu) + x0 * gu,
                            run_g == (x1 - x0) * gu,
                            x < x0 || x >= x1,
                            0 <= e < gu,
                    ;
                }
            } else {
                assert(!(dst_g <= f < dst_g + run_g)) by (nonlinear_arith)
                    requires
                        yy * (gw * gu) <= f < (yy + 1) * (gw * gu),
                        dst_g + run_g <= (y + 1) * (gw * gu),
                        dst_g >= y * (gw * gu),
                        yy != y,
                        gw * gu >= 0,
                ;
            }
        }
        k += 1;
    }
}

/// The two strips a scroll of `(dx, dy)` exposes in an `nw` × `nh` buffer, as
/// half-open rects `[x0, y0, x1, y1)`. Either may be empty (`x0 == x1`).
///
/// When both axes moved the corner falls in both rects and is painted twice;
/// that is a few dozen units, not worth the bookkeeping to avoid.
pub fn exposed(nw: u32, nh: u32, dx: i32, dy: i32) -> (r: [[u32; 4]; 2])
    requires
        -nw <= dx <= nw,
        -nh <= dy <= nh,
        dx > i32::MIN,
        dy > i32::MIN,
    ensures
        r@[0]@ == (if dx > 0 {
            seq![(nw - dx) as u32, 0, nw, nh]
        } else if dx < 0 {
            seq![0, 0, (-dx) as u32, nh]
        } else {
            seq![0u32, 0, 0, 0]
        }),
        r@[1]@ == (if dy > 0 {
            seq![0, (nh - dy) as u32, nw, nh]
        } else if dy < 0 {
            seq![0, 0, nw, (-dy) as u32]
        } else {
            seq![0u32, 0, 0, 0]
        }),
        forall|x: int, y: int|
            0 <= x < nw && 0 <= y < nh ==> (#[trigger] has_source(
                nw as int,
                nh as int,
                dx as int,
                dy as int,
                x,
                y,
            ) <==> !(in_rect(r@[0], x, y) || in_rect(r@[1], x, y))),
{
    let col = if dx > 0 {
        [nw - dx as u32, 0, nw, nh]
    } else if dx < 0 {
        [0, 0, (-dx) as u32, nh]
    } else {
        [0, 0, 0, 0]
    };
    let row = if dy > 0 {
        [0, nh - dy as u32, nw, nh]
    } else if dy < 0 {
        [0, 0, nw, (-dy) as u32]
    } else {
        [0, 0, 0, 0]
    };
    let r = [col, row];
    assert(r@[0]@ =~= (if dx > 0 {
        seq![(nw - dx) as u32, 0, nw, nh]
    } else if dx < 0 {
        seq![0, 0, (-dx) as u32, nh]
    } else {
        seq![0u32, 0, 0, 0]
    }));
    assert(r@[1]@ =~= (if dy > 0 {
        seq![0, (nh - dy) as u32, nw, nh]
    } else if dy < 0 {
        seq![0, 0, nw, (-dy) as u32]
    } else {
        seq![0u32, 0, 0, 0]
    }));
    r
}

/// A buffer that holds, at every unit `(x, y)`, what `paint` puts at absolute
/// unit `(ox + x, oy + y)` — a layer painted with its origin at `(ox, oy)`.
pub open spec fn painted_at<T>(buf: Seq<T>, nw: int, nh: int, unit: int, paint: spec_fn(int, int, int) -> T, ox: int, oy: int) -> bool {
    forall|x: int, y: int, e: int|
        0 <= x < nw && 0 <= y < nh && 0 <= e < unit ==> #[trigger] buf[uidx(nw, unit, x, y, e)] == paint(ox + x, oy + y, e)
}

/// Sliding a painted layer is as good as repainting it: if `old` was painted
/// with its origin at `(ox, oy)` and `new` is `old` scrolled by `(dx, dy)`,
/// then every unit of `new` outside the two strips [`exposed`] reports already
/// holds what a fresh paint with its origin at `(ox + dx, oy + dy)` puts there.
/// Repainting just those strips therefore lands on exactly the fresh frame.
pub proof fn lemma_scroll_then_repaint_is_fresh<T>(
    old: Seq<T>,
    new: Seq<T>,
    nw: u32,
    nh: u32,
    unit: int,
    paint: spec_fn(int, int, int) -> T,
    ox: int,
    oy: int,
    dx: i32,
    dy: i32,
    strips: [[u32; 4]; 2],
)
    requires
        painted_at(old, nw as int, nh as int, unit, paint, ox, oy),
        scrolled(old, new, nw as int, nh as int, unit, dx as int, dy as int),
        forall|x: int, y: int|
            0 <= x < nw && 0 <= y < nh ==> (#[trigger] has_source(
                nw as int,
                nh as int,
                dx as int,
                dy as int,
                x,
                y,
            ) <==> !(in_rect(strips@[0], x, y) || in_rect(strips@[1], x, y))),
    ensures
        forall|x: int, y: int, e: int|
            0 <= x < nw && 0 <= y < nh && 0 <= e < unit && !in_rect(strips@[0], x, y) && !in_rect(
                strips@[1],
                x,
                y,
            ) ==> #[trigger] new[uidx(nw as int, unit, x, y, e)] == paint(ox + dx + x, oy + dy + y, e),
{
    assert forall|x: int, y: int, e: int|
        0 <= x < nw && 0 <= y < nh && 0 <= e < unit && !in_rect(strips@[0], x, y) && !in_rect(
            strips@[1],
            x,
            y,
        ) implies #[trigger] new[uidx(nw as int, unit, x, y, e)] == paint(ox + dx + x, oy + dy + y, e) by {
        assert(has_source(nw as int, nh as int, dx as int, dy as int, x, y));
        assert(old[uidx(nw as int, unit, x + dx, y + dy, e)] == paint(ox + (x + dx), oy + (y + dy), e));
        assert(ox + (x + dx) == ox + dx + x);
        assert(oy + (y + dy) == oy + dy + y);
    }
}


/// How a cached layer is brought to the view a frame asks for.
pub enum Refresh {
    /// It already shows this view: reuse it as it is.
    Keep,
    /// It shows a view `(dx, dy)` units away that still overlaps: [`scroll`]
    /// it and repaint the strips [`exposed`] reports.
    Slide { dx: i32, dy: i32 },
    /// Resized, moved too far to overlap, or not slidable: repaint it in full.
    Rebuild,
}

/// The refresh a layer needs: `fits` says whether its buffer is sized (and
/// keyed) for the new frame, `cached` is the origin it shows, `org` the origin
/// wanted, `nw` × `nh` its size in units; a slide is only taken when
/// `slidable` and the two views overlap.
pub open spec fn spec_refresh(fits: bool, cached: Option<[i32; 2]>, org: [i32; 2], nw: u32, nh: u32, slidable: bool) -> Refresh {
    if fits && cached == Some(org) {
        Refresh::Keep
    } else if fits && slidable && cached is Some && ({
        let p = cached->0;
        let (dx, dy) = (org[0] - p[0], org[1] - p[1]);
        -nw < dx < nw && -nh < dy < nh
    }) {
        let p = cached->0;
        Refresh::Slide { dx: (org[0] - p[0]) as i32, dy: (org[1] - p[1]) as i32 }
    } else {
        Refresh::Rebuild
    }
}

/// The offset between two origins fits the arithmetic the caches do on it.
pub open spec fn offset_fits(cached: Option<[i32; 2]>, org: [i32; 2]) -> bool {
    cached matches Some(p) ==> i32::MIN < org[0] - p[0] <= i32::MAX && i32::MIN < org[1] - p[1] <= i32::MAX
}

/// What a refresh decision is for: a cache is kept only when it is sized for
/// the frame and already shows the requested view; it is slid only when it is
/// sized for the frame, slidable, and shows a view whose offset to the
/// requested one is strictly less than its size on both axes — the slide is
/// then exactly that offset; a cache not sized for the frame is always
/// rebuilt.
pub proof fn lemma_refresh_needs_a_fitting_cache(
    fits: bool,
    cached: Option<[i32; 2]>,
    org: [i32; 2],
    nw: u32,
    nh: u32,
    slidable: bool,
)
    requires
        offset_fits(cached, org),
    ensures
        spec_refresh(fits, cached, org, nw, nh, slidable) is Keep <==> (fits && cached == Some(org)),
        spec_refresh(fits, cached, org, nw, nh, slidable) matches Refresh::Slide { dx, dy } ==> fits
            && slidable && cached is Some && dx == org[0] - cached->0[0] && dy == org[1] - cached->0[1]
            && -nw < dx < nw && -nh < dy < nh && cached != Some(org),
        !fits ==> spec_refresh(fits, cached, org, nw, nh, slidable) is Rebuild,
        fits && slidable && cached is Some && cached != Some(org) && -nw < org[0] - cached->0[0] < nw
            && -nh < org[1] - cached->0[1] < nh ==> spec_refresh(fits, cached, org, nw, nh, slidable) is Slide,
{
}

fn refresh(fits: bool, cached: Option<[i32; 2]>, org: [i32; 2], nw: u32, nh: u32, slidable: bool) -> (r: Refresh)
    requires
        offset_fits(cached, org),
        nw <= i32::MAX,
        nh <= i32::MAX,
    ensures
        r == spec_refresh(fits, cached, org, nw, nh, slidable),
        r is Keep <==> (fits && cached == Some(org)),
        r matches Refresh::Slide { dx, dy } ==> fits && slidable && cached is Some && dx
            == org[0] - cached->0[0] && dy == org[1] - cached->0[1] && -nw < dx < nw && -nh < dy < nh,
        !fits ==> r is Rebuild,
{
    match cached {
        Some(p) => {
            if fits && p[0] == org[0] && p[1] == org[1] {
                assert(cached == Some(org));
                return Refresh::Keep;
            }
            assert(cached != Some(org) || !fits);
            let dx = org[0] - p[0];
            let dy = org[1] - p[1];
            let (nwi, nhi) = (nw as i32, nh as i32);
            if fits && slidable && -nwi < dx && dx < nwi && -nhi < dy && dy < nhi {
                Refresh::Slide { dx, dy }
            } else {
                Refresh::Rebuild
            }
        },
        None => Refresh::Rebuild,
    }
}

/// What the cloud field cache must do to show the `nw` × `nh` cell field at
/// world cell origin `org`. It is reusable only if it was built for exactly
/// these dimensions and holds `nw * nh` cells; then it is kept when it is
/// already there and slid when the old and new views overlap.
pub fn nebula_refresh(
    cached_dims: Option<[i32; 2]>,
    cached_org: Option<[i32; 2]>,
    field_len: usize,
    nw: u32,
    nh: u32,
    org: [i32; 2],
) -> (r: Refresh)
    requires
        nw <= i32::MAX,
        nh <= i32::MAX,
        nw * nh <= u32::MAX,
        offset_fits(cached_org, org),
    ensures
        r == spec_refresh(
            cached_dims == Some([nw as i32, nh as i32]) && field_len == nw * nh,
            cached_org,
            org,
            nw,
            nh,
            true,
        ),
        r matches Refresh::Slide { dx, dy } ==> -nw < dx < nw && -nh < dy < nh,
        r matches Refresh::Slide { dx, dy } ==> cached_dims == Some([nw as i32, nh as i32])
            && field_len == nw * nh && cached_org is Some && dx == org[0] - cached_org->0[0] && dy
            == org[1] - cached_org->0[1],
        r is Keep <==> (cached_dims == Some([nw as i32, nh as i32]) && field_len == nw * nh
            && cached_org == Some(org)),
        !(cached_dims == Some([nw as i32, nh as i32]) && field_len == nw * nh) ==> r is Rebuild,
{
    let n = (nw * nh) as usize;
    let fits = match cached_dims {
        Some(d) => d[0] == nw as i32 && d[1] == nh as i32 && field_len == n,
        None => false,
    };
    assert(fits == (cached_dims == Some([nw as i32, nh as i32]) && field_len == nw * nh)) by {
        if let Some(d) = cached_dims {
            if d[0] == nw as i32 && d[1] == nh as i32 {
                assert(d =~= [nw as i32, nh as i32]);
            }
        }
    }
    refresh(fits, cached_org, org, nw, nh, true)
}

/// What the composited layer cache must do to show a `w` × `h` frame keyed by
/// `key` (its size and fade) at scroll offset `org`. It is reusable only if it
/// carries this key and holds `len` bytes; then it is copied out when it is
/// already at `org`, and slid when `slidable` (no screen-pinned dither under
/// the clouds) and the views overlap.
pub fn layer_refresh(
    cached_key: Option<[i32; 3]>,
    cached_org: Option<[i32; 2]>,
    layer_len: usize,
    key: [i32; 3],
    len: usize,
    org: [i32; 2],
    w: u32,
    h: u32,
    slidable: bool,
) -> (r: Refresh)
    requires
        w <= i32::MAX,
        h <= i32::MAX,
        offset_fits(cached_org, org),
    ensures
        r == spec_refresh(cached_key == Some(key) && layer_len == len, cached_org, org, w, h, slidable),
        r matches Refresh::Slide { dx, dy } ==> -w < dx < w && -h < dy < h,
        r matches Refresh::Slide { dx, dy } ==> cached_key == Some(key) && layer_len == len
            && slidable && cached_org is Some && dx == org[0] - cached_org->0[0] && dy == org[1] - cached_org->0[1],
        r is Keep <==> (cached_key == Some(key) && layer_len == len && cached_org == Some(org)),
        !(cached_key == Some(key) && layer_len == len) ==> r is Rebuild,
{
    let fits = match cached_key {
        Some(k) => k[0] == key[0] && k[1] == key[1] && k[2] == key[2] && layer_len == len,
        None => false,
    };
    assert(fits == (cached_key == Some(key) && layer_len == len)) by {
        if let Some(k) = cached_key {
            if k[0] == key[0] && k[1] == key[1] && k[2] == key[2] {
                assert(k =~= key);
            }
        }
    }
    refresh(fits, cached_org, org, w, h, slidable)
}

/// Where the cloud field sits for a frame: its size in cells (one spare column
/// and row for the sub-cell remainder), the world cell at its corner, the
/// sub-cell remainder of the drift, and the drift modulo the 8-px dither
/// period.
pub struct CloudGrid {
    pub nw: u32,
    pub nh: u32,
    pub org: [i32; 2],
    pub sub: [u32; 2],
    pub phase: [u32; 2],
}

/// Split the clouds' whole-pixel drift `(sx, sy)` over a `w` × `h` frame into
/// whole `cell`s and a remainder, floor-wise: `s == org * cell + sub` with
/// `0 <= sub < cell`. Without clouds (`show` false) the field is a single cell
/// at the origin.
pub fn cloud_grid(show: bool, w: u32, h: u32, cell: u32, sx: i32, sy: i32) -> (g: CloudGrid)
    requires
        show ==> 1 <= cell <= i32::MAX,
        show ==> w / cell + 2 <= u32::MAX,
        show ==> h / cell + 2 <= u32::MAX,
    ensures
        !show ==> g.nw == 1 && g.nh == 1 && g.org == [0i32, 0] && g.sub == [0u32, 0] && g.phase == [0u32, 0],
        show ==> {
            &&& g.nw == (w + cell - 1) / (cell as int) + 1
            &&& g.nh == (h + cell - 1) / (cell as int) + 1
            &&& sx == g.org[0] * cell + g.sub[0] && g.sub[0] < cell
            &&& sy == g.org[1] * cell + g.sub[1] && g.sub[1] < cell
            &&& g.phase[0] == sx % 8 && g.phase[1] == sy % 8
        },
{
    if !show {
        return CloudGrid { nw: 1, nh: 1, org: [0, 0], sub: [0, 0], phase: [0, 0] };
    }
    let c = cell as i32;
    let nw = w / cell + if w % cell != 0 { 1 } else { 0 } + 1;
    let nh = h / cell + if h % cell != 0 { 1 } else { 0 } + 1;
    proof {
        assert(nw == (w + cell - 1) / (cell as int) + 1 && nh == (h + cell - 1) / (cell as int) + 1) by (nonlinear_arith)
            requires
                cell >= 1,
                nw == w / cell + (if w % cell != 0 { 1int } else { 0 }) + 1,
                nh == h / cell + (if h % cell != 0 { 1int } else { 0 }) + 1,
        ;
    }
    proof {
        assert(i32::MIN <= sx / c <= i32::MAX && i32::MIN <= sy / c <= i32::MAX) by (nonlinear_arith)
            requires
                c >= 1,
                i32::MIN <= sx <= i32::MAX,
                i32::MIN <= sy <= i32::MAX,
        ;
    }
    let ox = sx.checked_div_euclid(c).unwrap();
    let oy = sy.checked_div_euclid(c).unwrap();
    let rx = sx.checked_rem_euclid(c).unwrap();
    let ry = sy.checked_rem_euclid(c).unwrap();
    let px = sx.checked_rem_euclid(8).unwrap();
    let py = sy.checked_rem_euclid(8).unwrap();
    proof {
        assert(sx == ox * cell + rx && 0 <= rx < cell) by (nonlinear_arith)
            requires
                cell >= 1,
                c == cell,
                ox == sx / c,
                rx == sx % c,
        ;
        assert(sy == oy * cell + ry && 0 <= ry < cell) by (nonlinear_arith)
            requires
                cell >= 1,
                c == cell,
                oy == sy / c,
                ry == sy % c,
        ;
    }
    CloudGrid { nw, nh, org: [ox, oy], sub: [rx as u32, ry as u32], phase: [px as u32, py as u32] }
}


/// Length of the backdrop's WebGL uniform array, in `f32`s.
pub const GL_UNIFORMS_LEN: usize = 96;
/// Most star layers any scene runs.
pub const GL_MAX_LAYERS: usize = 4;
/// Most tint stops the star palette may carry.
pub const GL_MAX_TINTS: usize = 8;
/// Slot of the ground colour (`vec3`).
pub const GL_B_BASE: usize = 0;
/// Slot of the ground dither.
pub const GL_B_DITHER: usize = 3;
/// Slot of the clouds-on flag.
pub const GL_B_SHOW: usize = 4;
/// Slot of the cloud cell size.
pub const GL_B_CELL: usize = 5;
/// Slot of the cloud drift, `(x, y)`.
pub const GL_B_SCROLL_X: usize = 6;
/// Slot of the dither phase, `(x, y)`.
pub const GL_B_PHASE_X: usize = 8;
/// Slot of the cloud strength.
pub const GL_B_STRENGTH: usize = 10;
/// Slot of the cloud dither.
pub const GL_B_NEB_DITHER: usize = 11;
/// Slot of the cloud fade.
pub const GL_B_NEB_AMT: usize = 12;
/// Slot of the two seeded noise planes.
pub const GL_B_ZA: usize = 13;
/// Slot of the first cloud tint (`vec3`).
pub const GL_B_TINT_A: usize = 15;
/// Slot of the second cloud tint (`vec3`).
pub const GL_B_TINT_B: usize = 18;
/// Slot of the star layer count.
pub const GL_B_NLAYERS: usize = 21;
/// Slot of the tint stop count.
pub const GL_B_NTINTS: usize = 22;
/// Slot of the star layer table: eight floats per layer.
pub const GL_B_LAYER: usize = 24;
/// Slot of the tint table: `(cut, r, g, b)` per stop.
pub const GL_B_TINTS: usize = 56;

/// The backdrop's uniform blocks follow one another without overlap: the
/// cloud slots end before the counts, the layer table (at its cap) ends
/// before the tint table, and the tint table (at its cap) fits the array.
pub proof fn lemma_backdrop_gl_layout_fits()
    ensures
        GL_B_BASE + 3 == GL_B_DITHER,
        GL_B_SCROLL_X + 2 == GL_B_PHASE_X,
        GL_B_PHASE_X + 2 == GL_B_STRENGTH,
        GL_B_ZA + 2 == GL_B_TINT_A,
        GL_B_TINT_A + 3 == GL_B_TINT_B,
        GL_B_TINT_B + 3 == GL_B_NLAYERS,
        GL_B_NTINTS < GL_B_LAYER,
        GL_B_LAYER + GL_MAX_LAYERS * 8 <= GL_B_TINTS,
        GL_B_TINTS + GL_MAX_TINTS * 4 <= GL_UNIFORMS_LEN,
{
}

} // verus!
