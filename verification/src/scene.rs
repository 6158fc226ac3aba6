//! The shared scene-compositor primitives: the seeded draw sequence, the
//! sprite tile a body renders into, and the integer blending that composites
//! sprites and additive points into an RGBA frame.

use vstd::prelude::*;
use crate::hash::{hash3_bits, spec_hash3};
use crate::sheet::at;

verus! {

/// The third hash axis every seeded draw uses.
pub const DRAW_SALT: i32 = 0x9e37;

/// Tiny deterministic draw sequence for scene generation: draw `k` (counting
/// from 1) of the sequence seeded with `seed` is the lattice hash of
/// `(seed, k, DRAW_SALT)`. Same seed => same scene.
pub struct Rng {
    pub seed: i32,
    pub ctr: i32,
}

/// The `k`-th draw of the sequence seeded with `seed`, as raw hash bits.
pub open spec fn spec_draw(seed: i32, k: i32) -> u32 {
    spec_hash3(seed, k, DRAW_SALT)
}

impl Rng {
    /// A fresh sequence: the seed reinterpreted as `i32`, no draws taken yet.
    pub fn new(seed: u32) -> (r: Rng)
        ensures
            r.seed == seed as i32,
            r.ctr == 0,
    {
        Rng { seed: seed as i32, ctr: 0 }
    }

    /// Takes the next draw, as raw hash bits (a generator divides by
    /// `u32::MAX` for a unit value). The counter wraps.
    pub fn next_bits(&mut self) -> (h: u32)
        ensures
            final(self).seed == old(self).seed,
            final(self).ctr == vstd::wrapping::i32_specs::wrapping_add(old(self).ctr, 1),
            h == spec_draw(old(self).seed, final(self).ctr),
    {
        self.ctr = self.ctr.wrapping_add(1);
        hash3_bits(self.seed, self.ctr, DRAW_SALT)
    }
}

/// A rendered body ready to blit: RGBA pixels plus its edge length. Alpha is 0
/// off-body, 255 on the opaque disc, and partial in soft halos.
pub struct Tile {
    pub px: Vec<u8>,
    pub size: u32,
}

impl Default for Tile {
    /// An empty tile — the starting point for a scene that keeps one around and
    /// lets each body renderer resize it.
    fn default() -> (t: Tile)
        ensures
            t.px@.len() == 0,
            t.size == 0,
            t.wf(),
    {
        Tile { px: Vec::new(), size: 0 }
    }
}

impl Tile {
    /// The buffer holds exactly `size`×`size` RGBA pixels.
    pub open spec fn wf(&self) -> bool {
        self.px@.len() == self.size * self.size * 4
    }

    /// Resize to `size`×`size` RGBA pixels, reusing the buffer — contents and
    /// all — when it already is that size; otherwise the buffer is cleared to
    /// zero at the new size.
    pub fn ensure(&mut self, size: u32)
        requires
            size * size * 4 <= u32::MAX,
        ensures
            final(self).size == size,
            final(self).px@.len() == size * size * 4,
            final(self).wf(),
            old(self).size == size && old(self).px@.len() == size * size * 4 ==> final(self).px@
                == old(self).px@,
            !(old(self).size == size && old(self).px@.len() == size * size * 4) ==> (forall|i: int|
                0 <= i < size * size * 4 ==> #[trigger] final(self).px@[i] == 0u8),
    {
        let len = (size * size * 4) as usize;
        if self.size != size || self.px.len() != len {
            self.px.clear();
            self.px.resize(len, 0u8);
            self.size = size;
        }
    }
}

/// One channel of a source pixel with coverage `a` laid over a destination
/// channel: `(s·a + d·(255 − a)) / 255`, rounded down.
pub open spec fn spec_blend(s: u8, d: u8, a: u8) -> int {
    (s * a + d * (255 - a)) / 255
}

/// Blending never leaves the range spanned by the source and the destination:
/// the result is a weighted average of the two.
pub proof fn lemma_blend_between(s: u8, d: u8, a: u8)
    ensures
        spec_blend(s, d, a) >= if s < d { s as int } else { d as int },
        spec_blend(s, d, a) <= if s < d { d as int } else { s as int },
        a == 255 ==> spec_blend(s, d, a) == s,
        a == 0 ==> spec_blend(s, d, a) == d,
{
    let lo: int = if s < d { s as int } else { d as int };
    let hi: int = if s < d { d as int } else { s as int };
    let t: int = s * a + d * (255 - a);
    if a == 255 {
        assert(t == s * 255) by (nonlinear_arith)
            requires
                t == s * a + d * (255 - a),
                a == 255,
        ;
    }
    if a == 0 {
        assert(t == d * 255) by (nonlinear_arith)
            requires
                t == s * a + d * (255 - a),
                a == 0,
        ;
    }
    assert(t >= lo * 255) by (nonlinear_arith)
        requires
            t == s * a + d * (255 - a),
            lo <= s,
            lo <= d,
            0 <= a <= 255,
            0 <= lo,
    ;
    assert(t <= hi * 255) by (nonlinear_arith)
        requires
            t == s * a + d * (255 - a),
            hi >= s,
            hi >= d,
            0 <= a <= 255,
    ;
    assert(t / 255 >= lo) by (nonlinear_arith)
        requires
            t >= lo * 255,
    ;
    assert(t / 255 <= hi) by (nonlinear_arith)
        requires
            t <= hi * 255,
            t >= 0,
    ;
}

/// Destination-local offset `dd` of a span `edge` px wide whose first pixel is
/// at screen coordinate `x0` is a pixel of the span that lies on a screen `w`
/// px wide.
pub open spec fn lands_on_screen(dd: int, edge: int, x0: int, w: int) -> bool {
    0 <= dd < edge && 0 <= x0 + dd < w
}

/// The on-screen slice of a destination span: a tile drawn `edge` px wide with
/// its left (or top) edge at screen coordinate `x0`, on a screen `w` px wide,
/// covers the destination-local offsets `[lo, hi)` — `lo = max(-x0, 0)`,
/// `hi = min(w - x0, edge)`. Empty (`hi <= lo`) when it misses the screen.
pub fn onscreen_span(x0: i32, edge: i32, w: u32) -> (r: (i32, i32))
    requires
        w <= i32::MAX,
        x0 > i32::MIN,
        w - x0 <= i32::MAX,
    ensures
        r.0 == if -x0 > 0 { -x0 } else { 0 },
        r.1 == if w - x0 < edge { w - x0 } else { edge as int },
        forall|dd: int| r.0 <= dd < r.1 <==> #[trigger] lands_on_screen(dd, edge as int, x0 as int, w as int),
{
    let lo = if -x0 > 0 { -x0 } else { 0 };
    let right = w as i32 - x0;
    let hi = if right < edge { right } else { edge };
    (lo, hi)
}

/// Byte `k` of `count` RGBA pixels starting at byte `di`, after a run of the
/// source pixel `px` was composited over `old`.
pub open spec fn spec_run_byte(old: Seq<u8>, di: int, count: int, px: [u8; 4], k: int) -> u8 {
    if di <= k < di + 4 * count && px@[3] != 0 {
        let c = (k - di) % 4;
        if c == 3 {
            255u8
        } else {
            spec_blend(px@[c], old[k], px@[3]) as u8
        }
    } else {
        old[k]
    }
}

/// Byte offset of channel `c` of pixel `j` of a run that starts at byte `di`.
pub open spec fn run_byte_index(di: int, j: int, c: int) -> int {
    di + 4 * j + c
}

/// What compositing a run does to each byte: a transparent source leaves every
/// byte as it was; otherwise each of the `count` pixels of the run is left
/// opaque, each of its colour channels is the floor of the source-over blend
/// `(s·a + d·(255 − a)) / 255` (so an opaque source is copied exactly), and
/// every byte outside the run is left as it was.
pub proof fn lemma_run_byte_law(old: Seq<u8>, di: int, count: int, px: [u8; 4], j: int, c: int, k: int)
    requires
        0 <= di,
        0 <= k < old.len(),
    ensures
        px@[3] == 0 ==> spec_run_byte(old, di, count, px, k) == old[k],
        !(di <= k < di + 4 * count) ==> spec_run_byte(old, di, count, px, k) == old[k],
        0 <= j < count && 0 <= c < 4 && k == run_byte_index(di, j, c) && px@[3] != 0 ==> {
            let r = spec_run_byte(old, di, count, px, k);
            &&& c == 3 ==> r == 255
            &&& c < 3 ==> r * 255 <= px@[c] * px@[3] + old[k] * (255 - px@[3]) < r * 255 + 255
            &&& c < 3 && px@[3] == 255 ==> r == px@[c]
        },
{
    if 0 <= j < count && 0 <= c < 4 && k == run_byte_index(di, j, c) && px@[3] != 0 {
        assert((k - di) % 4 == c) by (nonlinear_arith)
            requires
                k == di + 4 * j + c,
                0 <= c < 4,
                j >= 0,
        ;
        if c < 3 {
            lemma_blend_between(px@[c], old[k], px@[3]);
            let t: int = px@[c] * px@[3] + old[k] * (255 - px@[3]);
            assert(0 <= t);
            assert((t / 255) * 255 <= t < (t / 255) * 255 + 255) by (nonlinear_arith)
                requires
                    t >= 0,
            ;
            if px@[3] == 255 {
                assert(t == px@[c] * 255) by (nonlinear_arith)
                    requires
                        t == px@[c] * px@[3] + old[k] * (255 - px@[3]),
                        px@[3] == 255,
                ;
            }
        }
    }
}

/// Composite one run of `count` destination pixels, starting at byte `di`,
/// that all sample the same tile pixel `px` (RGBA). A transparent pixel leaves
/// the run untouched; otherwise every pixel of the run becomes the blend of
/// `px` over it at coverage `px[3]`, and is left opaque. The blend is computed
/// with the source side premultiplied once per run.
pub fn composite_run(out: &mut [u8], di: usize, count: usize, px: [u8; 4])
    requires
        di + 4 * count <= old(out)@.len(),
    ensures
        final(out)@.len() == old(out)@.len(),
        forall|k: int|
            0 <= k < old(out)@.len() ==> #[trigger] final(out)@[k] == spec_run_byte(
                old(out)@,
                di as int,
                count as int,
                px,
                k,
            ),
        px@[3] == 0 ==> final(out)@ == old(out)@,
        forall|k: int|
            0 <= k < old(out)@.len() && !(di <= k < di + 4 * count) ==> #[trigger] final(out)@[k]
                == old(out)@[k],
        forall|j: int, c: int|
            0 <= j < count && 0 <= c < 4 && px@[3] != 0 ==> {
                let k = run_byte_index(di as int, j, c);
                &&& c == 3 ==> #[trigger] final(out)@[run_byte_index(di as int, j, c)] == 255
                &&& c < 3 ==> final(out)@[k] * 255 <= px@[c] * px@[3] + old(out)@[k] * (255 - px@[3])
                    < final(out)@[k] * 255 + 255
                &&& c < 3 && px@[3] == 255 ==> final(out)@[k] == px@[c]
            },
{
    let a = px[3] as u32;
    if a == 0 {
        assert(out@ =~= old(out)@);
        return;
    }
    let ia = 255 - a;
    assert(px@[0] * a <= 255 * 255 && px@[1] * a <= 255 * 255 && px@[2] * a <= 255 * 255)
        by (nonlinear_arith)
        requires
            px@[0] <= 255,
            px@[1] <= 255,
            px@[2] <= 255,
            a <= 255,
    ;
    let (pr, pg, pb) = (px[0] as u32 * a, px[1] as u32 * a, px[2] as u32 * a);
    let ghost old_out = out@;
    let len = out.len();
    let mut j: usize = 0;
    while j < count
        invariant
            j <= count,
            len == out@.len(),
            di + 4 * count <= out@.len(),
            out@.len() == old_out.len(),
            a == px@[3] as u32,
            a != 0,
            ia == 255 - a,
            pr == px@[0] * a,
            pg == px@[1] * a,
            pb == px@[2] * a,
            forall|k: int|
                0 <= k < old_out.len() ==> #[trigger] out@[k] == if k < di + 4 * j {
                    spec_run_byte(old_out, di as int, count as int, px, k)
                } else {
                    old_out[k]
                },
        decreases count - j,
    {
        assert(di + 4 * j + 4 <= out@.len());
        let p = di + 4 * j;
        let d0 = out[p] as u32;
        let d1 = out[p + 1] as u32;
        let d2 = out[p + 2] as u32;
        assert(d0 * ia <= 255 * 255 && d1 * ia <= 255 * 255 && d2 * ia <= 255 * 255) by (nonlinear_arith)
            requires
                d0 <= 255,
                d1 <= 255,
                d2 <= 255,
                ia <= 255,
        ;
        proof {
            lemma_blend_between(px@[0], d0 as u8, px@[3]);
            lemma_blend_between(px@[1], d1 as u8, px@[3]);
            lemma_blend_between(px@[2], d2 as u8, px@[3]);
        }
        out[p] = ((pr + d0 * ia) / 255) as u8;
        out[p + 1] = ((pg + d1 * ia) / 255) as u8;
        out[p + 2] = ((pb + d2 * ia) / 255) as u8;
        out[p + 3] = 255;
        assert forall|k: int| 0 <= k < old_out.len() implies #[trigger] out@[k] == if k < di + 4 * (
        j + 1) {
            spec_run_byte(old_out, di as int, count as int, px, k)
        } else {
            old_out[k]
        } by {
            if p <= k < p + 4 {
                assert((k - di) % 4 == k - p) by (nonlinear_arith)
                    requires
                        p == di + 4 * j,
                        p <= k < p + 4,
                ;
            }
        }
        j += 1;
    }
    proof {
        assert forall|jj: int, c: int| 0 <= jj < count && 0 <= c < 4 && px@[3] != 0 implies {
            let k = run_byte_index(di as int, jj, c);
            &&& c == 3 ==> #[trigger] out@[run_byte_index(di as int, jj, c)] == 255
            &&& c < 3 ==> out@[k] * 255 <= px@[c] * px@[3] + old_out[k] * (255 - px@[3]) < out@[k]
                * 255 + 255
            &&& c < 3 && px@[3] == 255 ==> out@[k] == px@[c]
        } by {
            let k = run_byte_index(di as int, jj, c);
            assert(di <= k < di + 4 * count);
            assert((k - di) % 4 == c) by (nonlinear_arith)
                requires
                    k == di + 4 * jj + c,
                    0 <= c < 4,
                    jj >= 0,
            ;
            assert(out@[k] == spec_run_byte(old_out, di as int, count as int, px, k));
            if c < 3 {
                lemma_blend_between(px@[c], old_out[k], px@[3]);
                let t: int = px@[c] * px@[3] + old_out[k] * (255 - px@[3]);
                assert(0 <= t);
                assert(spec_blend(px@[c], old_out[k], px@[3]) == t / 255);
                assert(out@[k] == t / 255);
                assert((t / 255) * 255 <= t < (t / 255) * 255 + 255) by (nonlinear_arith)
                    requires
                        t >= 0,
                ;
                if px@[3] == 255 {
                    assert(t == px@[c] * 255) by (nonlinear_arith)
                        requires
                            t == px@[c] * px@[3] + old_out[k] * (255 - px@[3]),
                            px@[3] == 255,
                    ;
                }
            }
        }
    }
}

/// Add `add` to the RGB of pixel `(px, py)` of a `w`-wide RGBA frame, each
/// channel becoming `min(old + add, cap)` — so a channel already above its cap
/// is brought down to the cap. Off-frame points and the alpha byte are left
/// alone.
pub fn plot(out: &mut [u8], w: u32, h: u32, px: i32, py: i32, add: [u16; 3], cap: [u8; 3])
    requires
        w * h * 4 <= old(out)@.len(),
        w * h * 4 <= u32::MAX,
        forall|c: int| 0 <= c < 3 ==> add@[c] <= u16::MAX - 255,
    ensures
        final(out)@.len() == old(out)@.len(),
        forall|k: int|
            0 <= k < old(out)@.len() ==> #[trigger] final(out)@[k] == if 0 <= px < w && 0 <= py < h
                && (py * w + px) * 4 <= k < (py * w + px) * 4 + 3 {
                spec_plot_channel(
                    old(out)@[k],
                    add@[k - (py * w + px) * 4],
                    cap@[k - (py * w + px) * 4],
                )
            } else {
                old(out)@[k]
            },
        0 <= px < w && 0 <= py < h ==> forall|c: int|
            0 <= c < 3 ==> {
                &&& #[trigger] final(out)@[at(w as int, px as int, py as int, c)] <= cap@[c]
                &&& final(out)@[at(w as int, px as int, py as int, c)] <= old(out)@[at(
                    w as int,
                    px as int,
                    py as int,
                    c,
                )] + add@[c]
                &&& (final(out)@[at(w as int, px as int, py as int, c)] == cap@[c] || final(out)@[at(w as int, px as int, py as int, c)] == old(out)@[at(
                    w as int,
                    px as int,
                    py as int,
                    c,
                )] + add@[c])
            },
{
    proof {
        if h > 0 {
            assert(w * 4 <= u32::MAX) by (nonlinear_arith)
                requires
                    w * h * 4 <= u32::MAX,
                    h >= 1,
            ;
        }
        if w > 0 {
            assert(h * 4 <= u32::MAX) by (nonlinear_arith)
                requires
                    w * h * 4 <= u32::MAX,
                    w >= 1,
            ;
        }
    }
    if px < 0 || py < 0 || px >= w as i32 || py >= h as i32 {
        return;
    }
    assert((py * w + px) * 4 + 3 < w * h * 4) by (nonlinear_arith)
        requires
            0 <= px < w,
            0 <= py < h,
    ;
    let idx = ((py as u32 * w + px as u32) * 4) as usize;
    let a0 = out[idx] as u16;
    let a1 = out[idx + 1] as u16;
    let a2 = out[idx + 2] as u16;
    out[idx] = plot_channel(a0, add[0], cap[0]);
    out[idx + 1] = plot_channel(a1, add[1], cap[1]);
    out[idx + 2] = plot_channel(a2, add[2], cap[2]);
    proof {
        assert forall|c: int| 0 <= c < 3 implies {
            &&& #[trigger] out@[at(w as int, px as int, py as int, c)] <= cap@[c]
            &&& out@[at(w as int, px as int, py as int, c)] <= old(out)@[at(
                w as int,
                px as int,
                py as int,
                c,
            )] + add@[c]
            &&& (out@[at(w as int, px as int, py as int, c)] == cap@[c] || out@[at(
                w as int,
                px as int,
                py as int,
                c,
            )] == old(out)@[at(w as int, px as int, py as int, c)] + add@[c])
        } by {
            let k = at(w as int, px as int, py as int, c);
            assert(k == (py * w + px) * 4 + c);
            lemma_plot_channel_is_min(old(out)@[k], add@[c], cap@[c]);
        }
    }
}

/// What a plotted channel becomes: `min(old + add, cap)`, i.e. never above
/// the cap, never above the sum, and equal to one of the two.
pub proof fn lemma_plot_channel_is_min(old: u8, add: u16, cap: u8)
    ensures
        spec_plot_channel(old, add, cap) <= cap,
        spec_plot_channel(old, add, cap) <= old + add,
        spec_plot_channel(old, add, cap) == cap || spec_plot_channel(old, add, cap) == old + add,
{
}

/// One channel of [`plot`]: `min(old + add, cap)`.
pub open spec fn spec_plot_channel(old: u8, add: u16, cap: u8) -> u8 {
    if old + add < cap { (old + add) as u8 } else { cap }
}

fn plot_channel(old: u16, add: u16, cap: u8) -> (r: u8)
    requires
        old <= 255,
        add <= u16::MAX - 255,
    ensures
        r == spec_plot_channel(old as u8, add, cap),
        r <= cap,
        r <= old + add,
        r == cap || r == old + add,
{
    let s = old + add;
    if s < cap as u16 { s as u8 } else { cap }
}

} // verus!
