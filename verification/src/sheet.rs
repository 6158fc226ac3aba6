//! Frame and sheet assembly for the renderers' outputs: RGBA pictures, the
//! grid layout shared by the contact sheets and the combined spinning GIFs, the
//! nearest-neighbour upscale, and the GIF frame parameters.
//!
//! Pixel compositing and resampling are the `image` crate's; this module lays
//! the cells out and hands each placement to it.

use vstd::prelude::*;

verus! {

/// An RGBA8 picture: `width * height` pixels, row-major, four bytes each.
pub struct Picture {
    pub px: Vec<u8>,
    pub width: u32,
    pub height: u32,
}

/// Byte offset of channel `c` of pixel `(x, y)` in a row-major RGBA buffer
/// `w` pixels wide.
pub open spec fn at(w: int, x: int, y: int, c: int) -> int {
    (y * w + x) * 4 + c
}

/// A pixel's channel lies inside the buffer, at its channel slot.
pub proof fn lemma_at_bounds(w: int, h: int, x: int, y: int, c: int)
    requires
        0 <= x < w,
        0 <= y < h,
        0 <= c < 4,
    ensures
        0 <= at(w, x, y, c) < w * h * 4,
        at(w, x, y, c) % 4 == c,
{
    assert(0 <= y * w + x < w * h) by (nonlinear_arith)
        requires
            0 <= x < w,
            0 <= y < h,
    ;
    assert(((y * w + x) * 4 + c) % 4 == c) by (nonlinear_arith)
        requires
            0 <= c < 4,
            y * w + x >= 0,
    ;
}

impl Picture {
    /// The buffer holds exactly the picture's pixels.
    pub open spec fn wf(&self) -> bool {
        self.px@.len() == self.width * self.height * 4
    }

    /// A picture of one solid colour.
    pub fn filled(width: u32, height: u32, colour: [u8; 4]) -> (p: Picture)
        requires
            width * height * 4 <= usize::MAX,
        ensures
            p.wf(),
            p.width == width,
            p.height == height,
            forall|k: int| 0 <= k < p.px@.len() ==> #[trigger] p.px@[k] == colour[k % 4],
    {
        let len = width as usize * height as usize * 4;
        let mut px: Vec<u8> = Vec::with_capacity(len);
        let mut k: usize = 0;
        while k < len
            invariant
                k <= len,
                px@.len() == k,
                forall|j: int| 0 <= j < k ==> #[trigger] px@[j] == colour[j % 4],
            decreases len - k,
        {
            px.push(colour[k % 4]);
            k += 1;
        }
        Picture { px, width, height }
    }
}

/// What `image::imageops::overlay` leaves in `bottom` (a `bw`×`bh` RGBA
/// buffer) after compositing `top` (`tw`×`th`) over it with its corner at
/// `(x, y)`.
pub uninterp spec fn overlay_px(
    bottom: Seq<u8>,
    bw: u32,
    bh: u32,
    top: Seq<u8>,
    tw: u32,
    th: u32,
    x: i64,
    y: i64,
) -> Seq<u8>;

/// Pixel `(bx, by)` of the bottom picture lies under the top one placed at
/// `(x, y)`.
pub open spec fn covered(bx: int, by: int, x: int, y: int, tw: int, th: int) -> bool {
    x <= bx < x + tw && y <= by < y + th
}

/// Composites `top` over `bottom` with its corner at `(x, y)`, through
/// `image::imageops::overlay` on RGBA8 buffers.
///
/// Trusted, from the crate's source: only the bottom pixels under the placed
/// top picture (clipped to the bottom) are rewritten; under a fully
/// transparent top pixel the bottom pixel stays, and under a fully opaque one
/// it becomes the top pixel. Partial alpha goes through the crate's float
/// src-over blend, which is left unsaid beyond the name `overlay_px`.
#[verifier::external_body]
fn overlay(bottom: &mut Picture, top: &Picture, x: i64, y: i64)
    requires
        old(bottom).wf(),
        top.wf(),
    ensures
        final(bottom).width == old(bottom).width,
        final(bottom).height == old(bottom).height,
        final(bottom).px@ == overlay_px(
            old(bottom).px@,
            old(bottom).width,
            old(bottom).height,
            top.px@,
            top.width,
            top.height,
            x,
            y,
        ),
        final(bottom).px@.len() == old(bottom).px@.len(),
        forall|bx: int, by: int, c: int|
            0 <= bx < old(bottom).width && 0 <= by < old(bottom).height && 0 <= c < 4 && !covered(
                bx,
                by,
                x as int,
                y as int,
                top.width as int,
                top.height as int,
            ) ==> #[trigger] final(bottom).px@[at(old(bottom).width as int, bx, by, c)]
                == old(bottom).px@[at(old(bottom).width as int, bx, by, c)],
        forall|bx: int, by: int, c: int|
            0 <= bx < old(bottom).width && 0 <= by < old(bottom).height && 0 <= c < 4 && covered(
                bx,
                by,
                x as int,
                y as int,
                top.width as int,
                top.height as int,
            ) && top.px@[at(top.width as int, bx - x, by - y, 3)] == 255 ==> #[trigger] final(bottom).px@[at(old(bottom).width as int, bx, by, c)] == top.px@[at(
                top.width as int,
                bx - x,
                by - y,
                c,
            )],
        forall|bx: int, by: int, c: int|
            0 <= bx < old(bottom).width && 0 <= by < old(bottom).height && 0 <= c < 4 && covered(
                bx,
                by,
                x as int,
                y as int,
                top.width as int,
                top.height as int,
            ) && top.px@[at(top.width as int, bx - x, by - y, 3)] == 0 ==> #[trigger] final(bottom).px@[at(old(bottom).width as int, bx, by, c)] == old(bottom).px@[at(
                old(bottom).width as int,
                bx,
                by,
                c,
            )],
{
    let b = image::ImageBuffer::<image::Rgba<u8>, &mut [u8]>::from_raw(bottom.width, bottom.height, bottom.px.as_mut_slice());
    let t = image::ImageBuffer::<image::Rgba<u8>, &[u8]>::from_raw(top.width, top.height, top.px.as_slice());
    let mut b = b.expect("a well-formed picture fills its buffer");
    let t = t.expect("a well-formed picture fills its buffer");
    image::imageops::overlay(&mut b, &t, x, y);
}

/// What `image::imageops::resize` with `FilterType::Nearest` makes of a
/// `w`×`h` RGBA buffer at `nw`×`nh`.
pub uninterp spec fn nearest_resize(px: Seq<u8>, w: u32, h: u32, nw: u32, nh: u32) -> Seq<u8>;

/// Resamples `img` to `nw`×`nh` through `image::imageops::resize` with the
/// nearest filter.
///
/// Trusted, from the crate's source: the result is an `nw`×`nh` RGBA buffer,
/// and a resize to the same dimensions is a plain copy. Which source pixel
/// each output pixel takes comes from the crate's float kernel sampling and is
/// left unsaid beyond the name `nearest_resize`.
#[verifier::external_body]
fn resize_nearest(img: &Picture, nw: u32, nh: u32) -> (r: Picture)
    requires
        img.wf(),
        nw * nh * 4 <= usize::MAX,
        img.width * nh * 4 <= usize::MAX,
    ensures
        r.width == nw,
        r.height == nh,
        r.px@ == nearest_resize(img.px@, img.width, img.height, nw, nh),
        r.px@.len() == nw * nh * 4,
        nw == img.width && nh == img.height ==> r.px@ == img.px@,
{
    let view = image::ImageBuffer::<image::Rgba<u8>, &[u8]>::from_raw(img.width, img.height, img.px.as_slice());
    let view = view.expect("a well-formed picture fills its buffer");
    let out = image::imageops::resize(&view, nw, nh, image::imageops::FilterType::Nearest);
    Picture { px: out.into_raw(), width: nw, height: nh }
}

/// Nearest-neighbour integer upscale to `s` times the size, through the
/// `image` crate's nearest resize. Which source pixel each output pixel takes
/// is the crate's float kernel sampling, known here only by the name
/// `nearest_resize`; scaling by 1 leaves the picture as it is.
pub fn upscale_nearest(img: &Picture, s: u32) -> (r: Picture)
    requires
        img.wf(),
        img.width * s <= u32::MAX,
        img.height * s <= u32::MAX,
        (img.width * s) * (img.height * s) * 4 <= usize::MAX,
    ensures
        r.wf(),
        r.width == img.width * s,
        r.height == img.height * s,
        r.px@ == nearest_resize(img.px@, img.width, img.height, r.width, r.height),
        s == 1 ==> r.px@ == img.px@,
{
    let nw = img.width * s;
    let nh = img.height * s;
    proof {
        assert(s >= 1 ==> img.width <= nw) by (nonlinear_arith)
            requires
                nw == img.width * s,
        ;
        assert(s == 0 ==> nh == 0) by (nonlinear_arith)
            requires
                nh == img.height * s,
        ;
        assert(img.width * nh * 4 <= nw * nh * 4) by (nonlinear_arith)
            requires
                s == 0 ==> nh == 0,
                s >= 1 ==> img.width <= nw,
                nh >= 0,
        ;
    }
    resize_nearest(img, nw, nh)
}

/// Geometry of a grid of `count` cells, `cols` wide, each on a `cw` pitch
/// (cell edge plus gutter), with a `gutter` border: the canvas size.
pub open spec fn grid_rows(count: int, cols: int) -> int {
    (count + cols - 1) / cols
}

/// Left edge of cell `i` of a `cols`-wide grid.
pub open spec fn cell_x(i: int, cols: int, gutter: int, cw: int) -> int {
    gutter + (i % cols) * cw
}

/// Top edge of cell `i` of a `cols`-wide grid.
pub open spec fn cell_y(i: int, cols: int, gutter: int, cw: int) -> int {
    gutter + (i / cols) * cw
}

/// The canvas after laying the first `k` cells, in order, over the background.
pub open spec fn composed(
    cells: Seq<Picture>,
    cols: u32,
    gutter: u32,
    cw: u32,
    base: Seq<u8>,
    gw: u32,
    gh: u32,
    k: int,
) -> Seq<u8>
    decreases k,
{
    if k <= 0 {
        base
    } else {
        overlay_px(
            composed(cells, cols, gutter, cw, base, gw, gh, k - 1),
            gw,
            gh,
            cells[k - 1].px@,
            cells[k - 1].width,
            cells[k - 1].height,
            cell_x(k - 1, cols as int, gutter as int, cw as int) as i64,
            cell_y(k - 1, cols as int, gutter as int, cw as int) as i64,
        )
    }
}

/// The size requirements of a grid: a positive column count, and a canvas
/// whose edges fit `u32` and whose buffer fits memory.
pub open spec fn grid_fits(count: int, cols: int, gutter: int, cell: int) -> bool {
    let cw = cell + gutter;
    &&& cols >= 1
    &&& count + cols <= u32::MAX
    &&& cw <= u32::MAX
    &&& gutter + cols * cw <= u32::MAX
    &&& gutter + grid_rows(count, cols) * cw <= u32::MAX
    &&& (gutter + cols * cw) * (gutter + grid_rows(count, cols) * cw) * 4 <= usize::MAX
}

proof fn lemma_cell_origin_bounds(i: int, count: int, cols: int, gutter: int, cw: int)
    requires
        0 <= i < count,
        cols >= 1,
        gutter >= 0,
        cw >= 0,
    ensures
        gutter <= cell_x(i, cols, gutter, cw),
        cell_x(i, cols, gutter, cw) + cw <= gutter + cols * cw,
        gutter <= cell_y(i, cols, gutter, cw),
        cell_y(i, cols, gutter, cw) + cw <= gutter + grid_rows(count, cols) * cw,
{
    let c = i % cols;
    let r = i / cols;
    assert(0 <= c < cols && i == r * cols + c && r >= 0) by (nonlinear_arith)
        requires
            cols >= 1,
            i >= 0,
            c == i % cols,
            r == i / cols,
    ;
    assert(c * cw + cw <= cols * cw) by (nonlinear_arith)
        requires
            c < cols,
            cw >= 0,
    ;
    let rows = grid_rows(count, cols);
    assert(r + 1 <= rows) by (nonlinear_arith)
        requires
            cols >= 1,
            i == r * cols + i % cols,
            0 <= i % cols < cols,
            i < count,
            rows == (count + cols - 1) / cols,
    ;
    assert(r * cw + cw <= rows * cw) by (nonlinear_arith)
        requires
            r + 1 <= rows,
            cw >= 0,
    ;
    assert(0 <= c * cw && 0 <= r * cw) by (nonlinear_arith)
        requires
            c >= 0,
            r >= 0,
            cw >= 0,
    ;
}

/// Every cell slot of a grid lies inside the canvas, and two different cells'
/// slots never overlap: a slot is `cw` wide and tall at its origin, and the
/// origins of distinct cells differ by at least `cw` in some direction.
pub proof fn lemma_grid_slots(count: int, cols: int, gutter: int, cw: int, i: int, j: int)
    requires
        cols >= 1,
        gutter >= 0,
        cw >= 0,
        0 <= i < count,
        0 <= j < count,
    ensures
        gutter <= cell_x(i, cols, gutter, cw),
        cell_x(i, cols, gutter, cw) + cw <= gutter + cols * cw,
        gutter <= cell_y(i, cols, gutter, cw),
        cell_y(i, cols, gutter, cw) + cw <= gutter + grid_rows(count, cols) * cw,
        i != j ==> cell_x(i, cols, gutter, cw) + cw <= cell_x(j, cols, gutter, cw) || cell_x(
            j,
            cols,
            gutter,
            cw,
        ) + cw <= cell_x(i, cols, gutter, cw) || cell_y(i, cols, gutter, cw) + cw <= cell_y(
            j,
            cols,
            gutter,
            cw,
        ) || cell_y(j, cols, gutter, cw) + cw <= cell_y(i, cols, gutter, cw),
{
    lemma_cell_origin_bounds(i, count, cols, gutter, cw);
    lemma_cell_origin_bounds(j, count, cols, gutter, cw);
    if i != j {
        let (ci, ri, cj, rj) = (i % cols, i / cols, j % cols, j / cols);
        assert(i == ri * cols + ci && j == rj * cols + cj && 0 <= ci < cols && 0 <= cj < cols)
            by (nonlinear_arith)
            requires
                cols >= 1,
                i >= 0,
                j >= 0,
                ci == i % cols,
                ri == i / cols,
                cj == j % cols,
                rj == j / cols,
        ;
        if ci != cj {
            if ci < cj {
                assert(ci * cw + cw <= cj * cw) by (nonlinear_arith)
                    requires
                        ci + 1 <= cj,
                        cw >= 0,
                ;
            } else {
                assert(cj * cw + cw <= ci * cw) by (nonlinear_arith)
                    requires
                        cj + 1 <= ci,
                        cw >= 0,
                ;
            }
        } else {
            assert(ri != rj) by (nonlinear_arith)
                requires
                    i == ri * cols + ci,
                    j == rj * cols + cj,
                    ci == cj,
                    i != j,
            ;
            if ri < rj {
                assert(ri * cw + cw <= rj * cw) by (nonlinear_arith)
                    requires
                        ri + 1 <= rj,
                        cw >= 0,
                ;
            } else {
                assert(rj * cw + cw <= ri * cw) by (nonlinear_arith)
                    requires
                        rj + 1 <= ri,
                        cw >= 0,
                ;
            }
        }
    }
}

/// Every cell has the first cell's size, is no taller than the pitch, and is
/// fully opaque — the stills a contact sheet is made of.
pub open spec fn uniform_opaque(cells: Seq<Picture>, gutter: int) -> bool {
    &&& cells.len() >= 1
    &&& cells[0].height <= cells[0].width + gutter
    &&& forall|i: int|
        0 <= i < cells.len() ==> (#[trigger] cells[i]).width == cells[0].width && cells[i].height
            == cells[0].height
    &&& forall|i: int, x: int, y: int|
        0 <= i < cells.len() && 0 <= x < cells[0].width && 0 <= y < cells[0].height ==> #[trigger] cells[i].px@[at(
            cells[0].width as int,
            x,
            y,
            3,
        )] == 255
}

/// Cell `j`'s pixels stand verbatim in the canvas `g` (`gw` wide).
pub open spec fn shows_cell(g: Seq<u8>, gw: int, cells: Seq<Picture>, j: int, cols: int, gutter: int) -> bool {
    let cw = cells[0].width + gutter;
    forall|x: int, y: int, c: int|
        0 <= x < cells[0].width && 0 <= y < cells[0].height && 0 <= c < 4 ==> g[at(
            gw,
            cell_x(j, cols, gutter, cw) + x,
            cell_y(j, cols, gutter, cw) + y,
            c,
        )] == #[trigger] cells[j].px@[at(cells[0].width as int, x, y, c)]
}

/// Overlaying cell `i` at its slot keeps every earlier cell verbatim (their
/// slots are disjoint from cell `i`'s) and shows cell `i` verbatim (it is
/// opaque).
proof fn lemma_shows_after_overlay(
    prev: Seq<u8>,
    next: Seq<u8>,
    gw: int,
    gh: int,
    cells: Seq<Picture>,
    i: int,
    count: int,
    cols: int,
    gutter: int,
)
    requires
        uniform_opaque(cells, gutter),
        count == cells.len(),
        0 <= i < count,
        cols >= 1,
        gutter >= 0,
        gw == gutter + cols * (cells[0].width + gutter),
        gh == gutter + grid_rows(count, cols) * (cells[0].width + gutter),
        forall|j: int| 0 <= j < cells.len() ==> (#[trigger] cells[j]).wf(),
        forall|j: int| 0 <= j < i ==> #[trigger] shows_cell(prev, gw, cells, j, cols, gutter),
        forall|bx: int, by: int, c: int|
            0 <= bx < gw && 0 <= by < gh && 0 <= c < 4 && !covered(
                bx,
                by,
                cell_x(i, cols, gutter, cells[0].width + gutter),
                cell_y(i, cols, gutter, cells[0].width + gutter),
                cells[i].width as int,
                cells[i].height as int,
            ) ==> #[trigger] next[at(gw, bx, by, c)] == prev[at(gw, bx, by, c)],
        forall|bx: int, by: int, c: int|
            0 <= bx < gw && 0 <= by < gh && 0 <= c < 4 && covered(
                bx,
                by,
                cell_x(i, cols, gutter, cells[0].width + gutter),
                cell_y(i, cols, gutter, cells[0].width + gutter),
                cells[i].width as int,
                cells[i].height as int,
            ) && cells[i].px@[at(
                cells[i].width as int,
                bx - cell_x(i, cols, gutter, cells[0].width + gutter),
                by - cell_y(i, cols, gutter, cells[0].width + gutter),
                3,
            )] == 255 ==> #[trigger] next[at(gw, bx, by, c)] == cells[i].px@[at(
                cells[i].width as int,
                bx - cell_x(i, cols, gutter, cells[0].width + gutter),
                by - cell_y(i, cols, gutter, cells[0].width + gutter),
                c,
            )],
    ensures
        forall|j: int| 0 <= j < i + 1 ==> #[trigger] shows_cell(next, gw, cells, j, cols, gutter),
{
    let w0 = cells[0].width as int;
    let h0 = cells[0].height as int;
    let cw = w0 + gutter;
    assert(cells[i].width == w0 && cells[i].height == h0);
    assert(gw == gutter + cols * cw);
    assert(gh == gutter + grid_rows(count, cols) * cw);
    assert forall|j: int| 0 <= j < i + 1 implies #[trigger] shows_cell(next, gw, cells, j, cols, gutter) by {
        lemma_grid_slots(count, cols, gutter, cw, i, j);
        lemma_cell_origin_bounds(j, count, cols, gutter, cw);
        assert(cells[j].width == w0);
        assert forall|x: int, y: int, c: int|
            0 <= x < w0 && 0 <= y < h0 && 0 <= c < 4 implies next[at(
                gw,
                cell_x(j, cols, gutter, cw) + x,
                cell_y(j, cols, gutter, cw) + y,
                c,
            )] == #[trigger] cells[j].px@[at(w0, x, y, c)] by {
            let bx = cell_x(j, cols, gutter, cw) + x;
            let by = cell_y(j, cols, gutter, cw) + y;
            assert(0 <= bx < gw && 0 <= by < gh);
            if j < i {
                assert(shows_cell(prev, gw, cells, j, cols, gutter));
                assert(!covered(bx, by, cell_x(i, cols, gutter, cw), cell_y(i, cols, gutter, cw), w0, h0));
                assert(next[at(gw, bx, by, c)] == prev[at(gw, bx, by, c)]);
            } else {
                assert(bx - cell_x(i, cols, gutter, cw) == x);
                assert(by - cell_y(i, cols, gutter, cw) == y);
                assert(cells[i].px@[at(w0, x, y, 3)] == 255);
                assert(next[at(gw, bx, by, c)] == cells[i].px@[at(w0, x, y, c)]);
            }
        }
    }
}

/// Lay `cells` out `cols` wide over a solid `background`: the pitch is the
/// first cell's width plus `gutter`, the canvas is `gutter + cols * pitch` by
/// `gutter + rows * pitch`, and cell `i` is composited with its corner at
/// `(gutter + (i % cols) * pitch, gutter + (i / cols) * pitch)`, in order.
/// The same layout serves the contact sheets and the combined spinning GIFs.
pub fn compose_cells(cells: &Vec<Picture>, cols: u32, gutter: u32, background: [u8; 4]) -> (grid: Picture)
    requires
        cells@.len() >= 1,
        forall|i: int| 0 <= i < cells@.len() ==> (#[trigger] cells@[i]).wf(),
        grid_fits(cells@.len() as int, cols as int, gutter as int, cells@[0].width as int),
    ensures
        grid.wf(),
        ({
            let cw = cells@[0].width + gutter;
            &&& grid.width == gutter + cols * cw
            &&& grid.height == gutter + grid_rows(cells@.len() as int, cols as int) * cw
            &&& grid.px@ == composed(
                cells@,
                cols,
                gutter,
                cw as u32,
                Seq::new(grid.px@.len(), |k: int| background[k % 4]),
                grid.width,
                grid.height,
                cells@.len() as int,
            )
        }),
        forall|x: int, y: int, c: int|
            0 <= x < grid.width && 0 <= y < grid.height && 0 <= c < 4 && (forall|i: int|
                0 <= i < cells@.len() ==> !covered(
                    x,
                    y,
                    cell_x(i, cols as int, gutter as int, cells@[0].width + gutter),
                    cell_y(i, cols as int, gutter as int, cells@[0].width + gutter),
                    #[trigger] cells@[i].width as int,
                    cells@[i].height as int,
                )) ==> #[trigger] grid.px@[at(grid.width as int, x, y, c)] == background[c],
        uniform_opaque(cells@, gutter as int) ==> forall|j: int|
            0 <= j < cells@.len() ==> #[trigger] shows_cell(
                grid.px@,
                grid.width as int,
                cells@,
                j,
                cols as int,
                gutter as int,
            ),
{
    let count = cells.len();
    let cw = cells[0].width + gutter;
    let n32 = count as u32;
    assert(n32 == count);
    let rows = (n32 + cols - 1) / cols;
    let gw = gutter + cols * cw;
    let gh = gutter + rows * cw;
    proof {
        assert(gw * gh * 4 <= usize::MAX);
    }
    let mut grid = Picture::filled(gw, gh, background);
    let ghost base = grid.px@;
    assert(base =~= Seq::new(grid.px@.len(), |k: int| background[k % 4]));
    assert forall|x: int, y: int, c: int|
        0 <= x < gw && 0 <= y < gh && 0 <= c < 4 implies #[trigger] grid.px@[at(gw as int, x, y, c)]
        == background[c] by {
        lemma_at_bounds(gw as int, gh as int, x, y, c);
    }
    let mut i: usize = 0;
    while i < count
        invariant
            count == cells@.len(),
            count >= 1,
            i <= count,
            forall|j: int| 0 <= j < cells@.len() ==> (#[trigger] cells@[j]).wf(),
            grid_fits(count as int, cols as int, gutter as int, cells@[0].width as int),
            cw == cells@[0].width + gutter,
            rows == grid_rows(count as int, cols as int),
            gw == gutter + cols * cw,
            gh == gutter + rows * cw,
            grid.wf(),
            grid.width == gw,
            grid.height == gh,
            base.len() == grid.px@.len(),
            forall|k: int| 0 <= k < base.len() ==> #[trigger] base[k] == background[k % 4],
            grid.px@ == composed(cells@, cols, gutter, cw, base, gw, gh, i as int),
            forall|x: int, y: int, c: int|
                0 <= x < gw && 0 <= y < gh && 0 <= c < 4 && (forall|j: int|
                    0 <= j < i ==> !covered(
                        x,
                        y,
                        cell_x(j, cols as int, gutter as int, cw as int),
                        cell_y(j, cols as int, gutter as int, cw as int),
                        #[trigger] cells@[j].width as int,
                        cells@[j].height as int,
                    )) ==> #[trigger] grid.px@[at(gw as int, x, y, c)] == background[c],
            uniform_opaque(cells@, gutter as int) ==> forall|j: int|
                0 <= j < i ==> #[trigger] shows_cell(grid.px@, gw as int, cells@, j, cols as int, gutter as int),
        decreases count - i,
    {
        proof {
            lemma_cell_origin_bounds(i as int, count as int, cols as int, gutter as int, cw as int);
        }
        let x = gutter + (i as u32 % cols) * cw;
        let y = gutter + (i as u32 / cols) * cw;
        let ghost prev = grid.px@;
        overlay(&mut grid, &cells[i], x as i64, y as i64);
        proof {
            assert forall|px: int, py: int, c: int|
                0 <= px < gw && 0 <= py < gh && 0 <= c < 4 && (forall|j: int|
                    0 <= j < i + 1 ==> !covered(
                        px,
                        py,
                        cell_x(j, cols as int, gutter as int, cw as int),
                        cell_y(j, cols as int, gutter as int, cw as int),
                        #[trigger] cells@[j].width as int,
                        cells@[j].height as int,
                    )) implies #[trigger] grid.px@[at(gw as int, px, py, c)] == background[c] by {
                assert(!covered(
                    px,
                    py,
                    cell_x(i as int, cols as int, gutter as int, cw as int),
                    cell_y(i as int, cols as int, gutter as int, cw as int),
                    cells@[i as int].width as int,
                    cells@[i as int].height as int,
                ));
                assert(forall|j: int|
                    0 <= j < i ==> !covered(
                        px,
                        py,
                        cell_x(j, cols as int, gutter as int, cw as int),
                        cell_y(j, cols as int, gutter as int, cw as int),
                        #[trigger] cells@[j].width as int,
                        cells@[j].height as int,
                    ));
                assert(prev[at(gw as int, px, py, c)] == background[c]);
            }
            if uniform_opaque(cells@, gutter as int) {
                lemma_shows_after_overlay(prev, grid.px@, gw as int, gh as int, cells@, i as int, count as int, cols as int, gutter as int);
            }
        }
        i += 1;
    }
    grid
}

/// A GIF frame's geometry could not be stored: an edge exceeds `u16::MAX`.
pub enum FrameSizeError {
    TooLarge,
}

/// The delay a GIF frame stores for `delay_ms`: whole centiseconds, truncated,
/// saturating at `u16::MAX`.
pub open spec fn gif_delay(delay_ms: u32) -> u16 {
    if delay_ms / 10 <= u16::MAX {
        (delay_ms / 10) as u16
    } else {
        u16::MAX
    }
}

/// Frame geometry and delay for a GIF of `frames`: the first frame's width and
/// height, and the delay rounded as `image`'s encoder rounds it. `None` for no
/// frames; an error when the first frame is too large for the format.
pub fn gif_params(frames: &Vec<Picture>, delay_ms: u32) -> (r: Result<Option<(u16, u16, u16)>, FrameSizeError>)
    ensures
        frames@.len() == 0 ==> r == Ok::<Option<(u16, u16, u16)>, FrameSizeError>(None),
        frames@.len() > 0 && frames@[0].width <= u16::MAX && frames@[0].height <= u16::MAX ==> r
            == Ok::<Option<(u16, u16, u16)>, FrameSizeError>(
            Some((frames@[0].width as u16, frames@[0].height as u16, gif_delay(delay_ms))),
        ),
        frames@.len() > 0 && (frames@[0].width > u16::MAX || frames@[0].height > u16::MAX) ==> r
            is Err,
{
    if frames.len() == 0 {
        return Ok(None);
    }
    let d = delay_ms / 10;
    let delay: u16 = if d <= 0xffff {
        d as u16
    } else {
        0xffff
    };
    let w = frames[0].width;
    let h = frames[0].height;
    if w > 0xffff || h > 0xffff {
        return Err(FrameSizeError::TooLarge);
    }
    Ok(Some((w as u16, h as u16, delay)))
}


/// What `gif::Frame::from_rgba_speed` makes of `width`×`height` RGBA pixels at
/// sampling `speed`: the palette (RGB triples), one palette index per pixel,
/// and the index of the transparent colour if there is one.
pub uninterp spec fn rgba_quantized(px: Seq<u8>, width: u16, height: u16, speed: i32) -> (Seq<u8>, Seq<u8>, Option<u8>);

/// Reduces RGBA pixels to a palette and indices through
/// `gif::Frame::from_rgba_speed`.
///
/// Trusted, from the crate's source: one index per pixel, and a palette of
/// whole RGB triples. Which palette the exact-colour path or NeuQuant builds
/// is left unsaid beyond the name `rgba_quantized`.
#[verifier::external_body]
fn quantize_rgba(width: u16, height: u16, px: Vec<u8>, speed: i32) -> (r: (Vec<u8>, Vec<u8>, Option<u8>))
    requires
        px@.len() == width * height * 4,
        1 <= speed <= 30,
    ensures
        (r.0@, r.1@, r.2) == rgba_quantized(px@, width, height, speed),
        r.1@.len() == width * height,
        r.0@.len() % 3 == 0,
{
    let mut px = px;
    let frame = gif::Frame::from_rgba_speed(width, height, &mut px, speed);
    let palette = frame.palette.expect("a quantized frame carries its own palette");
    (palette, frame.buffer.into_owned(), frame.transparent)
}

/// A GIF frame as palette indices, ready for the encoder.
pub struct IndexedFrame {
    pub width: u16,
    pub height: u16,
    /// RGB triples.
    pub palette: Vec<u8>,
    /// One palette index per pixel, row-major.
    pub indices: Vec<u8>,
    pub transparent: Option<u8>,
    /// Display time in centiseconds.
    pub delay: u16,
    /// The frame's area is cleared to the background before the next frame.
    pub dispose_background: bool,
}

/// One frame's palette reduction: `img`, exactly `width`×`height`, quantized by
/// the `gif` crate at its slowest (best) sampling speed, shown for `delay`
/// centiseconds and cleared to the background afterwards.
pub fn quantize(img: Picture, width: u16, height: u16, delay: u16) -> (f: IndexedFrame)
    requires
        img.px@.len() == width * height * 4,
    ensures
        f.width == width,
        f.height == height,
        f.delay == delay,
        f.dispose_background,
        (f.palette@, f.indices@, f.transparent) == rgba_quantized(img.px@, width, height, 1),
        f.indices@.len() == width * height,
        f.palette@.len() % 3 == 0,
{
    let (palette, indices, transparent) = quantize_rgba(width, height, img.px, 1);
    IndexedFrame { width, height, palette, indices, transparent, delay, dispose_background: true }
}

} // verus!
