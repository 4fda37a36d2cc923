//! Per-frame ball detection: background estimate from the frame corners,
//! foreground mask, 4-connected component labelling, and measurements of
//! the largest component (centroid, bounding box, interior mean colour).
use vstd::prelude::*;
use crate::ast::{Color, Number};
use crate::stats::{median_of_u8, median_u8};
use crate::union_find::{merged, UnionFind};

verus! {

/// A decoded video frame: non-premultiplied RGBA8, row-major.
pub struct VideoFrame {
    pub width: u32,
    pub height: u32,
    /// Non-premultiplied RGBA8.
    pub pixels: Vec<u8>,
    /// Frame delay in milliseconds.
    pub delay_ms: u32,
}

/// Side of the square sampled at each corner for the background estimate.
pub const CORNER_BLOCK: i32 = 5;

impl VideoFrame {
    /// The pixel buffer holds `width * height` RGBA pixels, and every byte
    /// offset of the image fits in an `i32`.
    pub open spec fn well_formed(&self) -> bool {
        &&& self.width * self.height * 4 <= self.pixels@.len()
        &&& self.width * self.height * 4 <= i32::MAX
    }
}

// --------------------------------------------------------------------
// Pixel sums
// --------------------------------------------------------------------

/// Channel `c` of the pixel at column `x`, row `y` of an image `w` wide.
pub open spec fn channel(px: Seq<u8>, w: int, x: int, y: int, c: int) -> int {
    px[(y * w + x) * 4 + c] as int
}

/// Sum of channel `c` over columns `x0 .. x1` of row `y`.
pub open spec fn row_sum(px: Seq<u8>, w: int, y: int, x0: int, x1: int, c: int) -> int
    decreases x1 - x0,
{
    if x1 <= x0 {
        0
    } else {
        row_sum(px, w, y, x0, x1 - 1, c) + channel(px, w, x1 - 1, y, c)
    }
}

/// Sum of channel `c` over the rectangle `x0 .. x1` × `y0 .. y1`.
pub open spec fn rect_sum(px: Seq<u8>, w: int, x0: int, x1: int, y0: int, y1: int, c: int) -> int
    decreases y1 - y0,
{
    if y1 <= y0 {
        0
    } else {
        rect_sum(px, w, x0, x1, y0, y1 - 1, c) + row_sum(px, w, y1 - 1, x0, x1, c)
    }
}

pub open spec fn min_int(a: int, b: int) -> int {
    if a <= b { a } else { b }
}

pub open spec fn max_int(a: int, b: int) -> int {
    if a >= b { a } else { b }
}

/// Mean RGB of the block `bw` × `bh` at (`x0`, `y0`), clipped to the frame;
/// `None` when the clipped block is empty. Each mean is rounded down.
pub open spec fn block_avg(f: VideoFrame, x0: int, y0: int, bw: int, bh: int) -> Option<(u8, u8, u8)> {
    let fw = f.width as int;
    let x1 = min_int(x0 + bw, fw);
    let y1 = min_int(y0 + bh, f.height as int);
    if x0 >= x1 || y0 >= y1 {
        None
    } else {
        let n = (x1 - x0) * (y1 - y0);
        Some(
            (
                (rect_sum(f.pixels@, fw, x0, x1, y0, y1, 0) / n) as u8,
                (rect_sum(f.pixels@, fw, x0, x1, y0, y1, 1) / n) as u8,
                (rect_sum(f.pixels@, fw, x0, x1, y0, y1, 2) / n) as u8,
            ),
        )
    }
}

proof fn lemma_pixel_offset(x: int, y: int, w: int, h: int)
    requires
        0 <= x < w,
        0 <= y < h,
    ensures
        0 <= y * w + x,
        y * w + x < w * h,
        (y * w + x) * 4 + 3 < w * h * 4,
        (y * w + x) * 4 == y * w * 4 + x * 4,
{
    assert(y * w + x < w * h) by (nonlinear_arith)
        requires
            0 <= x < w,
            0 <= y < h,
    ;
    assert(0 <= y * w) by (nonlinear_arith)
        requires
            0 <= x < w,
            0 <= y < h,
    ;
}

proof fn lemma_row_sum_bound(px: Seq<u8>, w: int, y: int, x0: int, x1: int, c: int)
    requires
        x0 <= x1,
        forall|x: int| x0 <= x < x1 ==> 0 <= #[trigger] ((y * w + x) * 4 + c) < px.len(),
    ensures
        0 <= row_sum(px, w, y, x0, x1, c) <= 255 * (x1 - x0),
    decreases x1 - x0,
{
    if x1 > x0 {
        lemma_row_sum_bound(px, w, y, x0, x1 - 1, c);
        assert(0 <= (y * w + (x1 - 1)) * 4 + c < px.len());
    }
}

proof fn lemma_rect_avg_bound(s: int, n: int)
    requires
        0 <= s <= 255 * n,
        n > 0,
    ensures
        0 <= s / n <= 255,
{
    assert(s / n <= 255) by (nonlinear_arith)
        requires
            0 <= s <= 255 * n,
            n > 0,
    ;
}

/// Mean RGB of a `w` × `h` block at (`x0`, `y0`), clipped to the frame;
/// `None` when nothing of the block lies inside the frame.
pub fn sample_block_avg(f: &VideoFrame, x0: i32, y0: i32, w: i32, h: i32) -> (r: Option<(u8, u8, u8)>)
    requires
        f.well_formed(),
        0 <= x0,
        0 <= y0,
        0 <= w,
        0 <= h,
        x0 + w <= i32::MAX,
        y0 + h <= i32::MAX,
        w * h <= 16843009,
    ensures
        r == block_avg(*f, x0 as int, y0 as int, w as int, h as int),
{
    let fw: i64 = f.width as i64;
    let fh: i64 = f.height as i64;
    let x1: i64 = if (x0 + w) as i64 <= fw { (x0 + w) as i64 } else { fw };
    let y1: i64 = if (y0 + h) as i64 <= fh { (y0 + h) as i64 } else { fh };
    if x0 as i64 >= x1 || y0 as i64 >= y1 {
        return None;
    }
    let ghost px = f.pixels@;
    let ghost wi = fw as int;
    let mut sr: u64 = 0;
    let mut sg: u64 = 0;
    let mut sb: u64 = 0;
    let mut n: u64 = 0;
    let mut y: i64 = y0 as i64;
    while y < y1
        invariant
            f.well_formed(),
            px == f.pixels@,
            wi == fw,
            fw == f.width,
            fh == f.height,
            0 <= x0 < x1 <= fw,
            0 <= y0 < y1 <= fh,
            y0 <= y <= y1,
            x1 - x0 <= w,
            y1 - y0 <= h,
            w * h <= 16843009,
            n == (y - y0) * (x1 - x0),
            sr == rect_sum(px, wi, x0 as int, x1 as int, y0 as int, y as int, 0),
            sg == rect_sum(px, wi, x0 as int, x1 as int, y0 as int, y as int, 1),
            sb == rect_sum(px, wi, x0 as int, x1 as int, y0 as int, y as int, 2),
            0 <= sr <= 255 * n,
            0 <= sg <= 255 * n,
            0 <= sb <= 255 * n,
        decreases y1 - y,
    {
        let mut x: i64 = x0 as i64;
        let ghost rr = sr as int;
        let ghost rg = sg as int;
        let ghost rb = sb as int;
        proof {
            assert((y - y0 + 1) * (x1 - x0) <= w * h) by (nonlinear_arith)
                requires
                    y - y0 + 1 <= h,
                    x1 - x0 <= w,
                    0 <= y - y0,
                    0 <= x1 - x0,
            ;
        }
        while x < x1
            invariant
                f.well_formed(),
                px == f.pixels@,
                wi == fw,
                fw == f.width,
                fh == f.height,
                0 <= x0 < x1 <= fw,
                0 <= y0 <= y < y1 <= fh,
                x0 <= x <= x1,
                (y - y0 + 1) * (x1 - x0) <= 16843009,
                n == (y - y0) * (x1 - x0) + (x - x0),
                sr == rr + row_sum(px, wi, y as int, x0 as int, x as int, 0),
                sg == rg + row_sum(px, wi, y as int, x0 as int, x as int, 1),
                sb == rb + row_sum(px, wi, y as int, x0 as int, x as int, 2),
                0 <= sr <= 255 * n,
                0 <= sg <= 255 * n,
                0 <= sb <= 255 * n,
            decreases x1 - x,
        {
            proof {
                lemma_pixel_offset(x as int, y as int, fw as int, fh as int);
                assert(fw * fh * 4 <= px.len());
                assert((y - y0) * (x1 - x0) + (x - x0) + 1 <= (y - y0 + 1) * (x1 - x0))
                    by (nonlinear_arith)
                    requires
                        x < x1,
                        x0 <= x,
                ;
            }
            let i: usize = ((y * fw + x) * 4) as usize;
            sr = sr + f.pixels[i] as u64;
            sg = sg + f.pixels[i + 1] as u64;
            sb = sb + f.pixels[i + 2] as u64;
            n = n + 1;
            x = x + 1;
        }
        proof {
            assert(n == (y + 1 - y0) * (x1 - x0)) by (nonlinear_arith)
                requires
                    n == (y - y0) * (x1 - x0) + (x1 - x0),
            ;
        }
        y = y + 1;
    }
    proof {
        assert(n > 0) by (nonlinear_arith)
            requires
                n == (y1 - y0) * (x1 - x0),
                y1 - y0 > 0,
                x1 - x0 > 0,
        ;
        lemma_rect_avg_bound(sr as int, n as int);
        lemma_rect_avg_bound(sg as int, n as int);
        lemma_rect_avg_bound(sb as int, n as int);
        assert(n == (x1 - x0) * (y1 - y0)) by (nonlinear_arith)
            requires
                n == (y1 - y0) * (x1 - x0),
        ;
    }
    Some(((sr / n) as u8, (sg / n) as u8, (sb / n) as u8))
}

// --------------------------------------------------------------------
// Background estimate
// --------------------------------------------------------------------

pub open spec fn push_some(s: Seq<(u8, u8, u8)>, o: Option<(u8, u8, u8)>) -> Seq<(u8, u8, u8)> {
    match o {
        Some(c) => s.push(c),
        None => s,
    }
}

/// The mean colours of the four corner blocks that lie (partly) inside
/// the frame: top-left, top-right, bottom-left, bottom-right.
pub open spec fn corner_samples(f: VideoFrame) -> Seq<(u8, u8, u8)> {
    let b = CORNER_BLOCK as int;
    let xr = max_int(f.width - b, 0);
    let yb = max_int(f.height - b, 0);
    push_some(
        push_some(
            push_some(push_some(Seq::empty(), block_avg(f, 0, 0, b, b)), block_avg(f, xr, 0, b, b)),
            block_avg(f, 0, yb, b, b),
        ),
        block_avg(f, xr, yb, b, b),
    )
}

pub open spec fn reds(s: Seq<(u8, u8, u8)>) -> Seq<u8> {
    s.map_values(|c: (u8, u8, u8)| c.0)
}

pub open spec fn greens(s: Seq<(u8, u8, u8)>) -> Seq<u8> {
    s.map_values(|c: (u8, u8, u8)| c.1)
}

pub open spec fn blues(s: Seq<(u8, u8, u8)>) -> Seq<u8> {
    s.map_values(|c: (u8, u8, u8)| c.2)
}

/// The background colour of a frame: the per-channel median of the
/// corner samples, opaque; black when the frame is empty.
pub open spec fn background_of(f: VideoFrame) -> Color {
    let s = corner_samples(f);
    if s.len() == 0 {
        Color { r: 0, g: 0, b: 0, a: 255 }
    } else {
        Color { r: median_u8(reds(s)), g: median_u8(greens(s)), b: median_u8(blues(s)), a: 255 }
    }
}

/// The background estimate is robust to one outlier corner: when the mean
/// colours of three of the four corner blocks agree, the estimate is that
/// colour.
pub proof fn lemma_background_ignores_one_corner(f: VideoFrame, k: int, c: (u8, u8, u8))
    requires
        corner_samples(f).len() == 4,
        0 <= k < 4,
        forall|j: int| 0 <= j < 4 && j != k ==> corner_samples(f)[j] == c,
    ensures
        background_of(f) == (Color { r: c.0, g: c.1, b: c.2, a: 255 }),
{
    let s = corner_samples(f);
    crate::stats::lemma_median_ignores_one_outlier(reds(s), k, c.0);
    crate::stats::lemma_median_ignores_one_outlier(greens(s), k, c.1);
    crate::stats::lemma_median_ignores_one_outlier(blues(s), k, c.2);
}

/// The per-channel medians of a non-empty list of colour samples.
fn median_rgb(samples: &Vec<(u8, u8, u8)>) -> (c: Color)
    requires
        samples@.len() > 0,
    ensures
        c == (Color {
            r: median_u8(reds(samples@)),
            g: median_u8(greens(samples@)),
            b: median_u8(blues(samples@)),
            a: 255,
        }),
{
    let mut rs: Vec<u8> = Vec::new();
    let mut gs: Vec<u8> = Vec::new();
    let mut bs: Vec<u8> = Vec::new();
    let mut k: usize = 0;
    while k < samples.len()
        invariant
            0 <= k <= samples@.len(),
            rs@ == reds(samples@.subrange(0, k as int)),
            gs@ == greens(samples@.subrange(0, k as int)),
            bs@ == blues(samples@.subrange(0, k as int)),
        decreases samples@.len() - k,
    {
        let c = samples[k];
        rs.push(c.0);
        gs.push(c.1);
        bs.push(c.2);
        proof {
            assert(samples@.subrange(0, k + 1) == samples@.subrange(0, k as int).push(c));
        }
        k = k + 1;
    }
    proof {
        assert(samples@.subrange(0, samples@.len() as int) == samples@);
    }
    Color::rgb(median_of_u8(&rs), median_of_u8(&gs), median_of_u8(&bs))
}

/// Background colour estimate: the per-channel median of the mean colours
/// of `5 × 5` blocks at the four corners.
pub fn estimate_background(f: &VideoFrame) -> (c: Color)
    requires
        f.well_formed(),
    ensures
        c == background_of(*f),
{
    if f.width == 0 || f.height == 0 {
        return Color::rgb(0, 0, 0);
    }
    proof {
        assert(f.width <= f.width * f.height) by (nonlinear_arith)
            requires
                f.height >= 1,
        ;
        assert(f.height <= f.width * f.height) by (nonlinear_arith)
            requires
                f.width >= 1,
        ;
    }
    let w: i32 = f.width as i32;
    let h: i32 = f.height as i32;
    let block: i32 = CORNER_BLOCK;
    let xr: i32 = if w - block > 0 { w - block } else { 0 };
    let yb: i32 = if h - block > 0 { h - block } else { 0 };
    let mut samples: Vec<(u8, u8, u8)> = Vec::new();
    let c0 = sample_block_avg(f, 0, 0, block, block);
    if let Some(c) = c0 {
        samples.push(c);
    }
    let c1 = sample_block_avg(f, xr, 0, block, block);
    if let Some(c) = c1 {
        samples.push(c);
    }
    let c2 = sample_block_avg(f, 0, yb, block, block);
    if let Some(c) = c2 {
        samples.push(c);
    }
    let c3 = sample_block_avg(f, xr, yb, block, block);
    if let Some(c) = c3 {
        samples.push(c);
    }
    proof {
        assert(samples@ == corner_samples(*f));
    }
    if samples.len() == 0 {
        return Color::rgb(0, 0, 0);
    }
    median_rgb(&samples)
}

// --------------------------------------------------------------------
// 4-connectivity
// --------------------------------------------------------------------

/// Pixels `i` and `j` of a grid `w` wide and `n` pixels long are
/// horizontal or vertical neighbours.
pub open spec fn adjacent4(w: int, n: int, i: int, j: int) -> bool {
    &&& 0 <= i < n
    &&& 0 <= j < n
    &&& {
        ||| j == i + 1 && i % w + 1 < w
        ||| i == j + 1 && j % w + 1 < w
        ||| j == i + w
        ||| i == j + w
    }
}

/// `p` is a walk through foreground pixels from 4-neighbour to
/// 4-neighbour.
pub open spec fn fg_walk(mask: Seq<bool>, w: int, p: Seq<int>) -> bool {
    &&& p.len() >= 1
    &&& forall|k: int| 0 <= k < p.len() ==> 0 <= #[trigger] p[k] < mask.len() && mask[p[k]]
    &&& forall|k: int| 0 <= k < p.len() - 1 ==> adjacent4(w, mask.len() as int, #[trigger] p[k], p[k + 1])
}

/// Foreground pixels `i` and `j` are joined by a walk through foreground.
pub open spec fn connected(mask: Seq<bool>, w: int, i: int, j: int) -> bool {
    exists|p: Seq<int>| #[trigger] fg_walk(mask, w, p) && p[0] == i && p.last() == j
}

proof fn lemma_connected_refl(mask: Seq<bool>, w: int, i: int)
    requires
        0 <= i < mask.len(),
        mask[i],
    ensures
        connected(mask, w, i, i),
{
    let p = seq![i];
    assert(fg_walk(mask, w, p));
}

proof fn lemma_connected_step(mask: Seq<bool>, w: int, i: int, j: int)
    requires
        adjacent4(w, mask.len() as int, i, j),
        mask[i],
        mask[j],
    ensures
        connected(mask, w, i, j),
{
    let p = seq![i, j];
    assert(fg_walk(mask, w, p));
}

proof fn lemma_connected_sym(mask: Seq<bool>, w: int, i: int, j: int)
    requires
        connected(mask, w, i, j),
    ensures
        connected(mask, w, j, i),
{
    let p = choose|p: Seq<int>| #[trigger] fg_walk(mask, w, p) && p[0] == i && p.last() == j;
    let q = Seq::new(p.len(), |k: int| p[p.len() - 1 - k]);
    assert forall|k: int| 0 <= k < q.len() implies 0 <= #[trigger] q[k] < mask.len() && mask[q[k]] by {
        assert(q[k] == p[p.len() - 1 - k]);
    }
    assert forall|k: int| 0 <= k < q.len() - 1 implies adjacent4(w, mask.len() as int, #[trigger] q[k], q[k + 1]) by {
        let a = p.len() - 2 - k;
        assert(adjacent4(w, mask.len() as int, p[a], p[a + 1]));
        assert(q[k] == p[a + 1]);
        assert(q[k + 1] == p[a]);
    }
    assert(fg_walk(mask, w, q));
}

proof fn lemma_connected_trans(mask: Seq<bool>, w: int, i: int, j: int, k: int)
    requires
        connected(mask, w, i, j),
        connected(mask, w, j, k),
    ensures
        connected(mask, w, i, k),
{
    let p = choose|p: Seq<int>| #[trigger] fg_walk(mask, w, p) && p[0] == i && p.last() == j;
    let q = choose|q: Seq<int>| #[trigger] fg_walk(mask, w, q) && q[0] == j && q.last() == k;
    let r = p + q.drop_first();
    assert forall|x: int| 0 <= x < r.len() implies 0 <= #[trigger] r[x] < mask.len() && mask[r[x]] by {
        if x < p.len() {
            assert(r[x] == p[x]);
        } else {
            assert(r[x] == q[x - p.len() + 1]);
        }
    }
    assert forall|x: int| 0 <= x < r.len() - 1 implies adjacent4(w, mask.len() as int, #[trigger] r[x], r[x + 1]) by {
        if x < p.len() - 1 {
            assert(adjacent4(w, mask.len() as int, p[x], p[x + 1]));
        } else if x == p.len() - 1 {
            assert(r[x] == j);
            assert(r[x + 1] == q[1]);
            assert(adjacent4(w, mask.len() as int, q[0], q[1]));
        } else {
            let y = x - p.len() + 1;
            assert(r[x] == q[y]);
            assert(r[x + 1] == q[y + 1]);
            assert(adjacent4(w, mask.len() as int, q[y], q[y + 1]));
        }
    }
    if q.len() == 1 {
        assert(r =~= p);
    }
    assert(fg_walk(mask, w, r));
    assert(r[0] == i);
    assert(r.last() == k);
}

// --------------------------------------------------------------------
// Connected components (4-neighbourhood)
// --------------------------------------------------------------------

/// Pixels `i` and `i + 1` are horizontal neighbours in foreground.
pub open spec fn fg_right(mask: Seq<bool>, w: int, i: int) -> bool {
    &&& 0 <= i
    &&& i % w + 1 < w
    &&& mask[i]
    &&& mask[i + 1]
}

/// Pixels `i` and `i + w` are vertical neighbours in foreground.
pub open spec fn fg_down(mask: Seq<bool>, w: int, i: int) -> bool {
    &&& 0 <= i
    &&& mask[i]
    &&& mask[i + w]
}

/// `labels` marks background with `0`, foreground with a non-zero label,
/// and gives 4-adjacent foreground pixels the same label.
pub open spec fn labels_components(mask: Seq<bool>, w: int, h: int, labels: Seq<u32>) -> bool {
    &&& labels.len() == w * h
    &&& forall|i: int| 0 <= i < w * h ==> (#[trigger] labels[i] == 0 <==> !mask[i])
    &&& forall|i: int| i + 1 < w * h && #[trigger] fg_right(mask, w, i) ==> labels[i] == labels[i + 1]
    &&& forall|i: int| i + w < w * h && #[trigger] fg_down(mask, w, i) ==> labels[i] == labels[i + w]
    &&& forall|i: int, j: int|
        0 <= i < w * h && 0 <= j < w * h && #[trigger] labels[i] == #[trigger] labels[j] && labels[i]
            != 0 ==> connected(mask, w, i, j)
}

/// Row-major coordinates: `i = y·w + x` with `0 <= x < w` gives
/// `i % w == x` and `i / w == y`.
pub proof fn lemma_coords(i: int, w: int, x: int, y: int)
    requires
        i == y * w + x,
        0 <= x < w,
        0 <= y,
    ensures
        i % w == x,
        i / w == y,
{
    vstd::arithmetic::div_mod::lemma_fundamental_div_mod_converse(i, w, y, x);
}

/// Merging the sets of `a` and `b`, whose anchors are connected, keeps
/// every label's anchor connected to the anchor of its root.
proof fn lemma_union_links(
    m: Seq<bool>,
    w: int,
    anchor: Seq<int>,
    roots: Seq<int>,
    a: int,
    b: int,
    next: int,
)
    requires
        1 <= a < next,
        1 <= b < next,
        roots.len() == next,
        anchor.len() == next,
        forall|l: int| 1 <= l < next ==> 1 <= #[trigger] roots[l] < next,
        forall|l: int| 1 <= l < next ==> connected(m, w, anchor[l], anchor[#[trigger] roots[l]]),
        connected(m, w, anchor[a], anchor[b]),
    ensures
        forall|l: int|
            1 <= l < next ==> connected(
                m,
                w,
                anchor[l],
                anchor[#[trigger] merged(roots, roots[a], roots[b])[l]],
            ),
{
    let ra = roots[a];
    let rb = roots[b];
    assert(connected(m, w, anchor[a], anchor[ra]));
    assert(connected(m, w, anchor[b], anchor[rb]));
    lemma_connected_sym(m, w, anchor[a], anchor[ra]);
    lemma_connected_trans(m, w, anchor[ra], anchor[a], anchor[b]);
    lemma_connected_trans(m, w, anchor[ra], anchor[b], anchor[rb]);
    lemma_connected_sym(m, w, anchor[ra], anchor[rb]);
    assert forall|l: int| 1 <= l < next implies connected(
        m,
        w,
        anchor[l],
        anchor[#[trigger] merged(roots, ra, rb)[l]],
    ) by {
        let r = roots[l];
        assert(connected(m, w, anchor[l], anchor[r]));
        if r == ra || r == rb {
            let lo = if ra <= rb { ra } else { rb };
            assert(merged(roots, ra, rb)[l] == lo);
            if r != lo {
                if r == ra {
                    lemma_connected_trans(m, w, anchor[l], anchor[ra], anchor[rb]);
                } else {
                    lemma_connected_trans(m, w, anchor[l], anchor[rb], anchor[ra]);
                }
            }
        } else {
            assert(merged(roots, ra, rb)[l] == r);
        }
    }
}

/// Along a foreground walk, a component labelling keeps one label.
proof fn lemma_walk_same_label(mask: Seq<bool>, w: int, h: int, labels: Seq<u32>, p: Seq<int>, k: int)
    requires
        labels_components(mask, w, h, labels),
        mask.len() == w * h,
        fg_walk(mask, w, p),
        0 <= k < p.len(),
    ensures
        labels[p[k]] == labels[p[0]],
    decreases k,
{
    if k > 0 {
        lemma_walk_same_label(mask, w, h, labels, p, k - 1);
        let a = p[k - 1];
        let b = p[k];
        assert(adjacent4(w, mask.len() as int, a, b));
        assert(mask[a] && mask[b]);
        if b == a + 1 && a % w + 1 < w {
            assert(fg_right(mask, w, a));
        } else if a == b + 1 && b % w + 1 < w {
            assert(fg_right(mask, w, b));
        } else if b == a + w {
            assert(fg_down(mask, w, a));
        } else {
            assert(fg_down(mask, w, b));
        }
    }
}

/// Under a component labelling, two foreground pixels carry the same
/// label exactly when a foreground walk joins them: labels are the
/// 4-connected components.
pub proof fn lemma_labels_are_components(
    mask: Seq<bool>,
    w: int,
    h: int,
    labels: Seq<u32>,
    i: int,
    j: int,
)
    requires
        labels_components(mask, w, h, labels),
        mask.len() == w * h,
        0 <= i < w * h,
        0 <= j < w * h,
        mask[i],
        mask[j],
    ensures
        labels[i] == labels[j] <==> connected(mask, w, i, j),
{
    if connected(mask, w, i, j) {
        let p = choose|p: Seq<int>| #[trigger] fg_walk(mask, w, p) && p[0] == i && p.last() == j;
        lemma_walk_same_label(mask, w, h, labels, p, p.len() - 1);
    }
    if labels[i] == labels[j] {
        assert(labels[i] != 0);
    }
}

/// Left neighbour's provisional label, if it is foreground.
pub open spec fn left_label(m: Seq<bool>, w: int, labels: Seq<u32>, i: int) -> u32 {
    if i % w > 0 && m[i - 1] { labels[i - 1] } else { 0 }
}

/// Upper neighbour's provisional label, if it is foreground.
pub open spec fn up_label(m: Seq<bool>, w: int, labels: Seq<u32>, i: int) -> u32 {
    if i >= w && m[i - w] { labels[i - w] } else { 0 }
}

/// What the raster scan of the labelling keeps true after `i` pixels:
/// provisional labels mark exactly the foreground scanned so far;
/// scanned 4-neighbours have labels with the same root; every label's
/// anchor pixel is connected to each pixel of the label and to the anchor
/// of the label's root.
#[verifier::opaque]
pub open spec fn scan_inv(
    m: Seq<bool>,
    w: int,
    i: int,
    labels: Seq<u32>,
    roots: Seq<int>,
    anchor: Seq<int>,
    next: int,
) -> bool {
    let n = m.len() as int;
    &&& w >= 1
    &&& labels.len() == n
    &&& 0 <= i <= n
    &&& 1 <= next <= i + 1
    &&& roots.len() == next
    &&& anchor.len() == next
    &&& forall|l: int| 1 <= l < next ==> 1 <= #[trigger] roots[l] < next
    &&& forall|l: int| 1 <= l < next ==> 0 <= #[trigger] anchor[l] < i
    &&& forall|j: int| i <= j < n ==> #[trigger] labels[j] == 0
    &&& forall|j: int| 0 <= j < i ==> ((#[trigger] labels[j] == 0) <==> !m[j]) && labels[j] < next
    &&& forall|j: int|
        j + 1 < i && #[trigger] fg_right(m, w, j) ==> roots[labels[j] as int] == roots[labels[j
            + 1] as int]
    &&& forall|j: int|
        j + w < i && #[trigger] fg_down(m, w, j) ==> roots[labels[j] as int] == roots[labels[j
            + w] as int]
    &&& forall|j: int| 0 <= j < i && m[j] ==> connected(m, w, j, anchor[#[trigger] labels[j] as int])
    &&& forall|l: int| 1 <= l < next ==> connected(m, w, anchor[l], anchor[#[trigger] roots[l]])
}

/// A background pixel keeps label 0.
proof fn lemma_scan_background(
    m: Seq<bool>,
    w: int,
    i: int,
    labels: Seq<u32>,
    roots: Seq<int>,
    anchor: Seq<int>,
    next: int,
)
    requires
        scan_inv(m, w, i, labels, roots, anchor, next),
        0 <= i < m.len(),
        !m[i],
    ensures
        scan_inv(m, w, i + 1, labels, roots, anchor, next),
{
    reveal(scan_inv);
    assert forall|j: int| j + 1 < i + 1 && #[trigger] fg_right(m, w, j) implies roots[labels[j] as int]
        == roots[labels[j + 1] as int] by {
        assert(j + 1 != i);
    }
    assert forall|j: int| j + w < i + 1 && #[trigger] fg_down(m, w, j) implies roots[labels[j] as int]
        == roots[labels[j + w] as int] by {
        assert(j + w != i);
    }
}

/// Facts on the neighbours of pixel `i` at column `i % w`.
proof fn lemma_neighbours(m: Seq<bool>, w: int, i: int)
    requires
        w >= 1,
        0 <= i < m.len(),
    ensures
        i % w > 0 ==> i >= 1,
        i % w > 0 ==> (i - 1) % w + 1 < w && (i - 1) % w == i % w - 1,
        i % w == 0 && i > 0 ==> (i - 1) % w + 1 == w,
        i >= w ==> (i - w) % w == i % w,
{
    let x = i % w;
    let y = i / w;
    vstd::arithmetic::div_mod::lemma_fundamental_div_mod(i, w);
    assert(i == w * y + x);
    assert(0 <= x < w);
    assert(w * y == y * w) by (nonlinear_arith);
    if x > 0 {
        lemma_coords(i - 1, w, x - 1, y);
    }
    if x == 0 && i > 0 {
        assert(y >= 1) by (nonlinear_arith)
            requires
                i == y * w,
                i > 0,
                w >= 1,
        ;
        assert(i - 1 == (y - 1) * w + (w - 1)) by (nonlinear_arith)
            requires
                i == y * w,
        ;
        lemma_coords(i - 1, w, w - 1, y - 1);
    }
    if i >= w {
        assert(y >= 1) by (nonlinear_arith)
            requires
                i == y * w + x,
                i >= w,
                x < w,
                w >= 1,
        ;
        assert(i - w == (y - 1) * w + x) by (nonlinear_arith)
            requires
                i == y * w + x,
        ;
        lemma_coords(i - w, w, x, y - 1);
    }
}

/// A foreground pixel whose left and upper neighbours are background
/// starts a new label, the root of its own set.
proof fn lemma_scan_new(
    m: Seq<bool>,
    w: int,
    i: int,
    labels: Seq<u32>,
    roots: Seq<int>,
    anchor: Seq<int>,
    next: int,
)
    requires
        scan_inv(m, w, i, labels, roots, anchor, next),
        0 <= i < m.len(),
        m[i],
        left_label(m, w, labels, i) == 0,
        up_label(m, w, labels, i) == 0,
        next < u32::MAX,
    ensures
        scan_inv(
            m,
            w,
            i + 1,
            labels.update(i, next as u32),
            roots.push(next),
            anchor.push(i),
            next + 1,
        ),
{
    reveal(scan_inv);
    lemma_neighbours(m, w, i);
    let nl = labels.update(i, next as u32);
    let nr = roots.push(next);
    let na = anchor.push(i);
    lemma_connected_refl(m, w, i);
    assert forall|j: int| j + 1 < i + 1 && #[trigger] fg_right(m, w, j) implies nr[nl[j] as int]
        == nr[nl[j + 1] as int] by {
        if j + 1 == i {
            assert(labels[i - 1] != 0);
        } else {
            assert(roots[labels[j] as int] == roots[labels[j + 1] as int]);
        }
    }
    assert forall|j: int| j + w < i + 1 && #[trigger] fg_down(m, w, j) implies nr[nl[j] as int]
        == nr[nl[j + w] as int] by {
        if j + w == i {
            assert(labels[i - w] != 0);
        } else {
            assert(roots[labels[j] as int] == roots[labels[j + w] as int]);
        }
    }
    assert forall|j: int| 0 <= j < i + 1 && m[j] implies connected(m, w, j, na[#[trigger] nl[j] as int]) by {
        if j < i {
            assert(connected(m, w, j, anchor[labels[j] as int]));
        }
    }
    assert forall|l: int| 1 <= l < next + 1 implies connected(m, w, na[l], na[#[trigger] nr[l]]) by {
        if l < next {
            assert(connected(m, w, anchor[l], anchor[roots[l]]));
        }
    }
}

/// The connectivity part of [`lemma_scan_join`].
proof fn lemma_join_links(
    m: Seq<bool>,
    w: int,
    i: int,
    labels: Seq<u32>,
    roots: Seq<int>,
    anchor: Seq<int>,
    next: int,
    a: u32,
    b: u32,
)
    requires
        w >= 1,
        0 <= i < m.len(),
        m[i],
        labels.len() == m.len(),
        roots.len() == next,
        anchor.len() == next,
        forall|l: int| 1 <= l < next ==> 1 <= #[trigger] roots[l] < next,
        forall|j: int| 0 <= j < i && m[j] ==> connected(m, w, j, anchor[#[trigger] labels[j] as int]),
        forall|l: int| 1 <= l < next ==> connected(m, w, anchor[l], anchor[#[trigger] roots[l]]),
        forall|j: int| 0 <= j < i ==> ((#[trigger] labels[j] == 0) <==> !m[j]) && labels[j] < next,
        a == left_label(m, w, labels, i),
        b == up_label(m, w, labels, i),
    ensures
        a != 0 ==> connected(m, w, i, anchor[a as int]),
        b != 0 ==> connected(m, w, i, anchor[b as int]),
        a != 0 && b != 0 ==> forall|l: int|
            1 <= l < next ==> connected(
                m,
                w,
                anchor[l],
                anchor[#[trigger] merged(roots, roots[a as int], roots[b as int])[l]],
            ),
{
    lemma_neighbours(m, w, i);
    let n = m.len() as int;
    if a != 0 {
        assert(adjacent4(w, n, i, i - 1));
        lemma_connected_step(m, w, i, i - 1);
        assert(connected(m, w, i - 1, anchor[labels[i - 1] as int]));
        lemma_connected_trans(m, w, i, i - 1, anchor[a as int]);
    }
    if b != 0 {
        assert(adjacent4(w, n, i, i - w));
        lemma_connected_step(m, w, i, i - w);
        assert(connected(m, w, i - w, anchor[labels[i - w] as int]));
        lemma_connected_trans(m, w, i, i - w, anchor[b as int]);
    }
    if a != 0 && b != 0 {
        lemma_connected_sym(m, w, i, anchor[a as int]);
        lemma_connected_trans(m, w, anchor[a as int], i, anchor[b as int]);
        lemma_union_links(m, w, anchor, roots, a as int, b as int, next);
    }
}

/// A foreground pixel that takes the label `lab` of a foreground
/// neighbour, after the sets of the two neighbours' labels were merged
/// into `nr`.
#[verifier::spinoff_prover]
#[verifier::rlimit(40)]
proof fn lemma_scan_join(
    m: Seq<bool>,
    w: int,
    i: int,
    labels: Seq<u32>,
    roots: Seq<int>,
    anchor: Seq<int>,
    next: int,
    lab: u32,
    nr: Seq<int>,
)
    requires
        scan_inv(m, w, i, labels, roots, anchor, next),
        0 <= i < m.len(),
        m[i],
        left_label(m, w, labels, i) != 0 || up_label(m, w, labels, i) != 0,
        ({
            let a = left_label(m, w, labels, i);
            let b = up_label(m, w, labels, i);
            &&& (a == 0 ==> lab == b && nr == roots)
            &&& (b == 0 ==> lab == a && nr == roots)
            &&& (a != 0 && b != 0 ==> (lab == a || lab == b) && nr == merged(
                roots,
                roots[a as int],
                roots[b as int],
            ))
        }),
    ensures
        scan_inv(m, w, i + 1, labels.update(i, lab), nr, anchor, next),
{
    reveal(scan_inv);
    lemma_neighbours(m, w, i);
    let a = left_label(m, w, labels, i);
    let b = up_label(m, w, labels, i);
    let nl = labels.update(i, lab);
    lemma_join_links(m, w, i, labels, roots, anchor, next, a, b);
    assert forall|l: int| 1 <= l < next implies 1 <= #[trigger] nr[l] < next by {
        assert(1 <= roots[l] < next);
    }
    assert forall|j: int| j + 1 < i + 1 && #[trigger] fg_right(m, w, j) implies nr[nl[j] as int]
        == nr[nl[j + 1] as int] by {
        assert(roots[labels[j] as int] == roots[labels[j + 1] as int] || j + 1 == i);
    }
    assert forall|j: int| j + w < i + 1 && #[trigger] fg_down(m, w, j) implies nr[nl[j] as int]
        == nr[nl[j + w] as int] by {
        assert(roots[labels[j] as int] == roots[labels[j + w] as int] || j + w == i);
    }
    assert forall|j: int| 0 <= j < i + 1 && m[j] implies connected(m, w, j, anchor[#[trigger] nl[j] as int]) by {
        if j < i {
            assert(connected(m, w, j, anchor[labels[j] as int]));
        }
    }
    assert forall|j: int| 0 <= j < i + 1 implies ((#[trigger] nl[j] == 0) <==> !m[j]) && nl[j] < next by {
        if j < i {
            assert((labels[j] == 0) <==> !m[j]);
        }
    }
}

/// Pixel `j` is foreground and neither its left nor its upper neighbour
/// is: the raster scan opens a new provisional label there.
pub open spec fn opens_label(m: Seq<bool>, w: int, j: int) -> bool {
    &&& m[j]
    &&& !(j % w > 0 && m[j - 1])
    &&& !(j >= w && m[j - w])
}

/// Number of pixels among the first `k` that open a label.
pub open spec fn opened_before(m: Seq<bool>, w: int, k: int) -> nat
    decreases k,
{
    if k <= 0 {
        0
    } else {
        opened_before(m, w, k - 1) + if opens_label(m, w, k - 1) { 1nat } else { 0nat }
    }
}

/// The order in which the raster scan opens labels: the labels opened so
/// far are `1 .. next`, in raster order of their anchors, and a pixel that
/// opens a label is that label's anchor and gets the next number.
#[verifier::opaque]
pub open spec fn scan_order(m: Seq<bool>, w: int, i: int, labels: Seq<u32>, anchor: Seq<int>, next: int) -> bool {
    &&& next == 1 + opened_before(m, w, i)
    &&& forall|l1: int, l2: int| 1 <= l1 < l2 < next ==> #[trigger] anchor[l1] < #[trigger] anchor[l2]
    &&& forall|j: int|
        0 <= j < i && #[trigger] opens_label(m, w, j) ==> anchor[labels[j] as int] == j && labels[j]
            == 1 + opened_before(m, w, j)
}

proof fn lemma_order_background(m: Seq<bool>, w: int, i: int, labels: Seq<u32>, anchor: Seq<int>, next: int)
    requires
        scan_order(m, w, i, labels, anchor, next),
        0 <= i < m.len(),
        !m[i],
    ensures
        scan_order(m, w, i + 1, labels, anchor, next),
{
    reveal(scan_order);
}

proof fn lemma_order_new(
    m: Seq<bool>,
    w: int,
    i: int,
    labels: Seq<u32>,
    roots: Seq<int>,
    anchor: Seq<int>,
    next: int,
)
    requires
        scan_inv(m, w, i, labels, roots, anchor, next),
        scan_order(m, w, i, labels, anchor, next),
        0 <= i < m.len(),
        m[i],
        left_label(m, w, labels, i) == 0,
        up_label(m, w, labels, i) == 0,
        next < u32::MAX,
    ensures
        scan_order(m, w, i + 1, labels.update(i, next as u32), anchor.push(i), next + 1),
{
    reveal(scan_inv);
    reveal(scan_order);
    lemma_neighbours(m, w, i);
    if i % w > 0 && m[i - 1] {
        assert(labels[i - 1] != 0);
    }
    if i >= w && m[i - w] {
        assert(labels[i - w] != 0);
    }
    assert(opens_label(m, w, i));
    let nl = labels.update(i, next as u32);
    let na = anchor.push(i);
    assert forall|l1: int, l2: int| 1 <= l1 < l2 < next + 1 implies #[trigger] na[l1] < #[trigger] na[l2] by {
        if l2 == next {
            assert(anchor[l1] < i);
        }
    }
    assert forall|j: int| 0 <= j < i + 1 && #[trigger] opens_label(m, w, j) implies na[nl[j] as int] == j
        && nl[j] == 1 + opened_before(m, w, j) by {
        if j < i {
            assert(labels[j] < next);
        }
    }
}

proof fn lemma_order_join(
    m: Seq<bool>,
    w: int,
    i: int,
    labels: Seq<u32>,
    roots: Seq<int>,
    anchor: Seq<int>,
    next: int,
    lab: u32,
)
    requires
        scan_inv(m, w, i, labels, roots, anchor, next),
        scan_order(m, w, i, labels, anchor, next),
        0 <= i < m.len(),
        m[i],
        left_label(m, w, labels, i) != 0 || up_label(m, w, labels, i) != 0,
    ensures
        scan_order(m, w, i + 1, labels.update(i, lab), anchor, next),
{
    reveal(scan_inv);
    reveal(scan_order);
    assert(!opens_label(m, w, i));
    let nl = labels.update(i, lab);
    assert forall|j: int| 0 <= j < i + 1 && #[trigger] opens_label(m, w, j) implies anchor[nl[j] as int] == j
        && nl[j] == 1 + opened_before(m, w, j) by {
        assert(j < i);
    }
}

/// Two-pass labelling: provisional labels in raster order, merged through
/// a union-find wherever the left and upper neighbours disagree, then each
/// label replaced by the root of its set.
pub fn label_components_4(mask: &[bool], w: usize, h: usize) -> (labels: Vec<u32>)
    requires
        w * h <= mask@.len(),
        w * h < u32::MAX,
    ensures
        labels_components(mask@.subrange(0, (w * h) as int), w as int, h as int, labels@),
        forall|i: int| 0 <= i < w * h ==> #[trigger] labels@[i] <= w * h,
        forall|f: int|
            0 <= f < w * h && mask@[f] && (forall|g: int|
                0 <= g < f ==> !#[trigger] connected(mask@.subrange(0, (w * h) as int), w as int, f, g))
                ==> #[trigger] labels@[f] == 1 + opened_before(
                mask@.subrange(0, (w * h) as int),
                w as int,
                f,
            ),
{
    let ghost m = mask@.subrange(0, (w * h) as int);
    let n: usize = w * h;
    let mut labels: Vec<u32> = Vec::new();
    let mut k: usize = 0;
    while k < n
        invariant
            k <= n,
            labels@.len() == k,
            forall|j: int| 0 <= j < k ==> labels@[j] == 0,
        decreases n - k,
    {
        labels.push(0);
        k = k + 1;
    }
    if n == 0 {
        proof {
            assert(labels_components(m, w as int, h as int, labels@));
        }
        return labels;
    }
    proof {
        assert(w >= 1) by (nonlinear_arith)
            requires
                n == w * h,
                n > 0,
        ;
    }
    let mut uf = UnionFind::new();
    let mut next: u32 = 1;
    let mut i: usize = 0;
    let mut x: usize = 0;
    let ghost mut anchor: Seq<int> = seq![0int];
    proof {
        reveal(scan_inv);
        reveal(scan_order);
        assert(scan_inv(m, w as int, 0, labels@, uf@, anchor, 1));
        assert(scan_order(m, w as int, 0, labels@, anchor, 1));
    }
    while i < n
        invariant
            n == w * h,
            n < u32::MAX,
            n <= mask@.len(),
            w >= 1,
            m == mask@.subrange(0, n as int),
            m.len() == n,
            labels@.len() == n,
            0 <= i <= n,
            x < w,
            x == (i as int) % (w as int),
            1 <= next <= i + 1,
            uf.wf(),
            scan_inv(m, w as int, i as int, labels@, uf@, anchor, next as int),
            scan_order(m, w as int, i as int, labels@, anchor, next as int),
        decreases n - i,
    {
        proof {
            assert(m[i as int] == mask@[i as int]);
            lemma_neighbours(m, w as int, i as int);
            reveal(scan_inv);
        }
        if mask[i] {
            let left: u32 = if x > 0 && mask[i - 1] { labels[i - 1] } else { 0 };
            let up: u32 = if i >= w && mask[i - w] { labels[i - w] } else { 0 };
            proof {
                assert(left == left_label(m, w as int, labels@, i as int));
                assert(up == up_label(m, w as int, labels@, i as int));
            }
            let ghost l0 = labels@;
            let ghost r0 = uf@;
            if left == 0 && up == 0 {
                labels.set(i, next);
                uf.make_set(next);
                proof {
                    assert(uf@ =~= r0.push(next as int));
                    lemma_order_new(m, w as int, i as int, l0, r0, anchor, next as int);
                    lemma_scan_new(m, w as int, i as int, l0, r0, anchor, next as int);
                    anchor = anchor.push(i as int);
                }
                next = next + 1;
            } else {
                let lab: u32 = if up == 0 {
                    left
                } else if left == 0 {
                    up
                } else if left < up {
                    left
                } else {
                    up
                };
                labels.set(i, lab);
                if left != 0 && up != 0 && left != up {
                    uf.union(left, up);
                }
                proof {
                    if left != 0 && up != 0 && left == up {
                        assert(merged(r0, r0[left as int], r0[up as int]) =~= r0);
                    }
                    lemma_order_join(m, w as int, i as int, l0, r0, anchor, next as int, lab);
                    lemma_scan_join(m, w as int, i as int, l0, r0, anchor, next as int, lab, uf@);
                }
            }
        } else {
            proof {
                lemma_order_background(m, w as int, i as int, labels@, anchor, next as int);
                lemma_scan_background(m, w as int, i as int, labels@, uf@, anchor, next as int);
            }
        }
        i = i + 1;
        if x + 1 == w {
            x = 0;
        } else {
            x = x + 1;
        }
        proof {
            lemma_next_column(i as int, w as int, x as int);
        }
    }
    let mut j: usize = 0;
    let ghost prov = labels@;
    let ghost roots = uf@;
    proof {
        reveal(scan_inv);
        reveal(scan_order);
        uf.lemma_roots_are_roots();
    }
    while j < n
        invariant
            n == w * h,
            uf@ == roots,
            labels@.len() == n,
            prov.len() == n,
            uf.wf(),
            uf@.len() == next,
            forall|l: int| 1 <= l < next ==> 1 <= #[trigger] uf@[l] < next,
            forall|q: int| 0 <= q < n ==> #[trigger] prov[q] < next,
            0 <= j <= n,
            forall|q: int| j <= q < n ==> labels@[q] == prov[q],
            forall|q: int|
                0 <= q < j ==> labels@[q] == (if prov[q] == 0 { 0 } else { uf@[prov[q] as int] }),
        decreases n - j,
    {
        if labels[j] != 0 {
            proof {
                assert(labels@[j as int] == prov[j as int]);
                assert(prov[j as int] < next);
            }
            let r = uf.find(labels[j]);
            labels.set(j, r);
        }
        j = j + 1;
    }
    proof {
        assert forall|q: int| 0 <= q < w * h implies #[trigger] labels@[q] <= w * h by {
            if prov[q] != 0 {
                assert(roots[prov[q] as int] < next);
            }
        }
        assert forall|q: int| 0 <= q < w * h implies (#[trigger] labels@[q] == 0 <==> !m[q]) by {
            if prov[q] != 0 {
                assert(roots[prov[q] as int] >= 1);
            }
        }
        assert forall|q: int| q + 1 < w * h && #[trigger] fg_right(m, w as int, q) implies labels@[q]
            == labels@[q + 1] by {
            assert(roots[prov[q] as int] == roots[prov[q + 1] as int]);
        }
        assert forall|q: int| q + w < w * h && #[trigger] fg_down(m, w as int, q) implies labels@[q]
            == labels@[q + w] by {
            assert(roots[prov[q] as int] == roots[prov[q + w] as int]);
        }
        assert forall|q1: int, q2: int|
            0 <= q1 < w * h && 0 <= q2 < w * h && #[trigger] labels@[q1] == #[trigger] labels@[q2]
                && labels@[q1] != 0 implies connected(m, w as int, q1, q2) by {
            assert(prov[q1] != 0 && prov[q2] != 0);
            let r = roots[prov[q1] as int];
            assert(roots[prov[q2] as int] == r);
            assert(connected(m, w as int, q1, anchor[prov[q1] as int]));
            assert(connected(m, w as int, anchor[prov[q1] as int], anchor[roots[prov[q1] as int]]));
            assert(connected(m, w as int, q2, anchor[prov[q2] as int]));
            assert(connected(m, w as int, anchor[prov[q2] as int], anchor[roots[prov[q2] as int]]));
            lemma_connected_trans(m, w as int, q1, anchor[prov[q1] as int], anchor[r]);
            lemma_connected_trans(m, w as int, q2, anchor[prov[q2] as int], anchor[r]);
            lemma_connected_sym(m, w as int, q2, anchor[r]);
            lemma_connected_trans(m, w as int, q1, anchor[r], q2);
        }
        assert forall|f: int|
            0 <= f < w * h && mask@[f] && (forall|g: int| 0 <= g < f ==> !#[trigger] connected(m, w as int, f, g))
                implies #[trigger] labels@[f] == 1 + opened_before(m, w as int, f) by {
            let wi = w as int;
            assert(m[f] == mask@[f]);
            lemma_neighbours(m, wi, f);
            if f % wi > 0 && m[f - 1] {
                assert(adjacent4(wi, n as int, f, f - 1));
                lemma_connected_step(m, wi, f, f - 1);
            }
            if f >= wi && m[f - wi] {
                assert(adjacent4(wi, n as int, f, f - wi));
                lemma_connected_step(m, wi, f, f - wi);
            }
            assert(opens_label(m, wi, f));
            let l = prov[f] as int;
            assert(anchor[l] == f);
            assert(1 <= l < next);
            let r = roots[l];
            assert(r <= l);
            assert(connected(m, wi, anchor[l], anchor[r]));
            if r < l {
                assert(anchor[r] < anchor[l]);
                assert(!connected(m, wi, f, anchor[r]));
            }
        }
    }
    labels
}

/// Stepping the column counter along with the pixel index.
proof fn lemma_next_column(i: int, w: int, x: int)
    requires
        w >= 1,
        i >= 1,
        0 <= x < w,
        x == 0 ==> (i - 1) % w == w - 1,
        x > 0 ==> (i - 1) % w == x - 1,
    ensures
        x == i % w,
{
    let q = (i - 1) / w;
    vstd::arithmetic::div_mod::lemma_fundamental_div_mod(i - 1, w);
    assert(w * q == q * w) by (nonlinear_arith);
    if x == 0 {
        assert(i == (q + 1) * w + 0) by (nonlinear_arith)
            requires
                i - 1 == q * w + (w - 1),
        ;
        lemma_coords(i, w, 0, q + 1);
    } else {
        assert(i == q * w + x);
        vstd::arithmetic::div_mod::lemma_div_pos_is_pos(i - 1, w);
        lemma_coords(i, w, x, q);
    }
}

// --------------------------------------------------------------------
// Foreground mask
// --------------------------------------------------------------------

/// Squared colour distance beyond which a pixel is foreground: about 24
/// per channel.
pub const FG_THRESHOLD_SQ: u32 = 24 * 24 * 3;

/// Squared RGB distance between pixel `i` and the colour `bg`.
pub open spec fn color_dist_sq(px: Seq<u8>, i: int, bg: Color) -> int {
    let dr = px[i * 4] - bg.r;
    let dg = px[i * 4 + 1] - bg.g;
    let db = px[i * 4 + 2] - bg.b;
    dr * dr + dg * dg + db * db
}

/// Foreground pixels: those farther than the threshold from `bg`.
pub open spec fn foreground_mask(f: VideoFrame, bg: Color) -> Seq<bool> {
    Seq::new(
        (f.width * f.height) as nat,
        |i: int| color_dist_sq(f.pixels@, i, bg) > FG_THRESHOLD_SQ as int,
    )
}

/// A pixel is foreground exactly when its squared Euclidean distance to
/// the background colour, over the red, green and blue channels (alpha
/// aside), exceeds `24² · 3 = 1728`; so a pixel that differs from the
/// background in one channel only is foreground exactly when it differs
/// there by 42 or more, whichever channel that is.
pub proof fn lemma_foreground_is_rgb_distance(f: VideoFrame, bg: Color, i: int)
    requires
        0 <= i < f.width * f.height,
    ensures
        ({
            let px = f.pixels@;
            let dr = px[4 * i] - bg.r;
            let dg = px[4 * i + 1] - bg.g;
            let db = px[4 * i + 2] - bg.b;
            &&& foreground_mask(f, bg)[i] == (dr * dr + dg * dg + db * db > 1728)
            &&& dg == 0 && db == 0 ==> (foreground_mask(f, bg)[i] <==> abs_i(dr) >= 42)
            &&& dr == 0 && db == 0 ==> (foreground_mask(f, bg)[i] <==> abs_i(dg) >= 42)
            &&& dr == 0 && dg == 0 ==> (foreground_mask(f, bg)[i] <==> abs_i(db) >= 42)
        }),
{
    let px = f.pixels@;
    let dr = px[4 * i] - bg.r;
    let dg = px[4 * i + 1] - bg.g;
    let db = px[4 * i + 2] - bg.b;
    assert(i * 4 == 4 * i);
    assert forall|d: int| #![auto] (d * d > 1728) == (abs_i(d) >= 42) by {
        if abs_i(d) >= 42 {
            assert(d * d >= 42 * 42) by (nonlinear_arith)
                requires
                    d >= 42 || d <= -42,
            ;
        } else {
            assert(d * d <= 41 * 41) by (nonlinear_arith)
                requires
                    -41 <= d <= 41,
            ;
        }
    }
}

pub open spec fn abs_i(v: int) -> int {
    if v < 0 { -v } else { v }
}

fn foreground(f: &VideoFrame, bg: Color) -> (mask: Vec<bool>)
    requires
        f.well_formed(),
    ensures
        mask@ == foreground_mask(*f, bg),
{
    let n: usize = f.width as usize * f.height as usize;
    let mut mask: Vec<bool> = Vec::new();
    let mut i: usize = 0;
    while i < n
        invariant
            f.well_formed(),
            n == f.width * f.height,
            0 <= i <= n,
            mask@.len() == i,
            forall|j: int| 0 <= j < i ==> mask@[j] == foreground_mask(*f, bg)[j],
        decreases n - i,
    {
        let r = f.pixels[i * 4] as i32;
        let g = f.pixels[i * 4 + 1] as i32;
        let b = f.pixels[i * 4 + 2] as i32;
        let dr: i32 = r - bg.r as i32;
        let dg: i32 = g - bg.g as i32;
        let db: i32 = b - bg.b as i32;
        proof {
            assert(dr * dr <= 65025 && dg * dg <= 65025 && db * db <= 65025) by (nonlinear_arith)
                requires
                    -255 <= dr <= 255,
                    -255 <= dg <= 255,
                    -255 <= db <= 255,
            ;
            assert(dr * dr >= 0 && dg * dg >= 0 && db * db >= 0) by (nonlinear_arith);
        }
        let dist: i32 = dr * dr + dg * dg + db * db;
        mask.push(dist > FG_THRESHOLD_SQ as i32);
        i = i + 1;
    }
    assert(mask@ =~= foreground_mask(*f, bg));
    mask
}

// --------------------------------------------------------------------
// The largest component
// --------------------------------------------------------------------

/// Number of pixels among the first `k` that carry label `l`.
pub open spec fn label_count(labels: Seq<u32>, l: u32, k: int) -> nat
    decreases k,
{
    if k <= 0 {
        0
    } else {
        label_count(labels, l, k - 1) + (if labels[k - 1] == l { 1nat } else { 0nat })
    }
}

/// Size of the component with label `l`.
pub open spec fn component_size(labels: Seq<u32>, l: u32) -> nat {
    label_count(labels, l, labels.len() as int)
}

/// Scanning the first `k` pixels in raster order, the first label met whose
/// component is larger than every component met before, with its size;
/// `(0, 0)` when no foreground pixel was met.
pub open spec fn largest_among(labels: Seq<u32>, k: int) -> (u32, nat)
    decreases k,
{
    if k <= 0 {
        (0, 0)
    } else {
        let prev = largest_among(labels, k - 1);
        let l = labels[k - 1];
        if l != 0 && component_size(labels, l) > prev.1 {
            (l, component_size(labels, l))
        } else {
            prev
        }
    }
}

/// The largest component, the first in raster order among equals.
pub open spec fn largest_component(labels: Seq<u32>) -> (u32, nat) {
    largest_among(labels, labels.len() as int)
}

proof fn lemma_largest_among(labels: Seq<u32>, k: int)
    requires
        0 <= k <= labels.len(),
    ensures
        forall|j: int|
            0 <= j < k && labels[j] != 0 ==> component_size(labels, #[trigger] labels[j])
                <= largest_among(labels, k).1,
        largest_among(labels, k).1 == 0 || (largest_among(labels, k).0 != 0
            && component_size(labels, largest_among(labels, k).0) == largest_among(labels, k).1),
    decreases k,
{
    if k > 0 {
        lemma_largest_among(labels, k - 1);
    }
}

/// The component chosen by [`largest_component`] is at least as large as
/// every other component.
pub proof fn lemma_largest_component_is_largest(labels: Seq<u32>, j: int)
    requires
        0 <= j < labels.len(),
        labels[j] != 0,
    ensures
        component_size(labels, labels[j]) <= largest_component(labels).1,
        largest_component(labels).0 != 0,
        component_size(labels, largest_component(labels).0) == largest_component(labels).1,
{
    lemma_largest_among(labels, labels.len() as int);
    assert(component_size(labels, labels[j]) >= 1) by {
        lemma_count_positive(labels, labels[j], j, labels.len() as int);
    }
}

proof fn lemma_count_positive(labels: Seq<u32>, l: u32, j: int, k: int)
    requires
        0 <= j < k <= labels.len(),
        labels[j] == l,
    ensures
        label_count(labels, l, k) >= 1,
    decreases k,
{
    if k - 1 > j {
        lemma_count_positive(labels, l, j, k - 1);
    }
}

proof fn lemma_count_bound(labels: Seq<u32>, l: u32, k: int)
    requires
        0 <= k <= labels.len(),
    ensures
        label_count(labels, l, k) <= k,
    decreases k,
{
    if k > 0 {
        lemma_count_bound(labels, l, k - 1);
    }
}

/// The size of every component, indexed by label.
fn component_counts(labels: &Vec<u32>, n: usize) -> (counts: Vec<u32>)
    requires
        labels@.len() == n,
        n < u32::MAX,
        forall|i: int| 0 <= i < n ==> #[trigger] labels@[i] <= n,
    ensures
        counts@.len() == n + 1,
        forall|l: int| 1 <= l <= n ==> #[trigger] counts@[l] == component_size(labels@, l as u32),
{
    let mut counts: Vec<u32> = Vec::new();
    let mut k: usize = 0;
    while k <= n
        invariant
            k <= n + 1,
            n < u32::MAX,
            counts@.len() == k,
            forall|l: int| 0 <= l < k ==> counts@[l] == 0,
        decreases n + 1 - k,
    {
        counts.push(0);
        k = k + 1;
    }
    let mut i: usize = 0;
    while i < n
        invariant
            labels@.len() == n,
            n < u32::MAX,
            forall|q: int| 0 <= q < n ==> #[trigger] labels@[q] <= n,
            0 <= i <= n,
            counts@.len() == n + 1,
            forall|l: int| 1 <= l <= n ==> #[trigger] counts@[l] == label_count(labels@, l as u32, i as int),
        decreases n - i,
    {
        let l = labels[i];
        if l != 0 {
            proof {
                lemma_count_bound(labels@, l, i as int);
            }
            let c = counts[l as usize];
            counts.set(l as usize, c + 1);
        }
        proof {
            assert forall|q: int| 1 <= q <= n implies #[trigger] counts@[q] == label_count(
                labels@,
                q as u32,
                i + 1,
            ) by {
                assert(label_count(labels@, q as u32, i + 1) == label_count(labels@, q as u32, i as int)
                    + (if labels@[i as int] == q as u32 { 1nat } else { 0nat }));
            }
        }
        i = i + 1;
    }
    counts
}

/// The label of the largest component (first in raster order among
/// equals) and its size; `(0, 0)` when there is no foreground.
fn largest(labels: &Vec<u32>, n: usize) -> (r: (u32, u32))
    requires
        labels@.len() == n,
        n < u32::MAX,
        forall|i: int| 0 <= i < n ==> #[trigger] labels@[i] <= n,
    ensures
        r.0 == largest_component(labels@).0,
        r.1 == largest_component(labels@).1,
{
    let counts = component_counts(labels, n);
    let mut best: u32 = 0;
    let mut best_count: u32 = 0;
    let mut j: usize = 0;
    while j < n
        invariant
            labels@.len() == n,
            n < u32::MAX,
            forall|q: int| 0 <= q < n ==> #[trigger] labels@[q] <= n,
            0 <= j <= n,
            counts@.len() == n + 1,
            forall|l: int| 1 <= l <= n ==> #[trigger] counts@[l] == component_size(labels@, l as u32),
            best == largest_among(labels@, j as int).0,
            best_count == largest_among(labels@, j as int).1,
        decreases n - j,
    {
        let l = labels[j];
        if l != 0 {
            let c = counts[l as usize];
            if c > best_count {
                best = l;
                best_count = c;
            }
        }
        j = j + 1;
    }
    (best, best_count)
}

// --------------------------------------------------------------------
// Blob measurements
// --------------------------------------------------------------------

/// A detected ball: centroid, radius and colour.
#[derive(Debug, Clone, Copy, PartialEq, Eq, Structural)]
pub struct Blob {
    pub cx: Number,
    pub cy: Number,
    /// Mean of the bounding box's half-width and half-height.
    pub radius: Number,
    pub color: Color,
}

/// Running measurements over the pixels of one component.
pub struct BlobSums {
    pub sx: int,
    pub sy: int,
    pub count: int,
    pub r: int,
    pub g: int,
    pub b: int,
    /// Sums over interior pixels only: those whose four neighbours are in
    /// the component too.
    pub ir: int,
    pub ig: int,
    pub ib: int,
    pub icount: int,
    pub min_x: int,
    pub max_x: int,
    pub min_y: int,
    pub max_y: int,
}

/// Pixel `i` and its four neighbours all carry label `l`; pixels on the
/// frame border are never interior.
pub open spec fn is_interior(labels: Seq<u32>, w: int, h: int, l: u32, i: int) -> bool {
    let x = i % w;
    let y = i / w;
    &&& x > 0
    &&& y > 0
    &&& x + 1 < w
    &&& y + 1 < h
    &&& labels[i - 1] == l
    &&& labels[i + 1] == l
    &&& labels[i - w] == l
    &&& labels[i + w] == l
}

/// Measurements of component `l` over the first `k` pixels.
pub open spec fn blob_sums(px: Seq<u8>, labels: Seq<u32>, w: int, h: int, l: u32, k: int) -> BlobSums
    decreases k,
{
    if k <= 0 {
        BlobSums {
            sx: 0,
            sy: 0,
            count: 0,
            r: 0,
            g: 0,
            b: 0,
            ir: 0,
            ig: 0,
            ib: 0,
            icount: 0,
            min_x: u32::MAX as int,
            max_x: 0,
            min_y: u32::MAX as int,
            max_y: 0,
        }
    } else {
        let s = blob_sums(px, labels, w, h, l, k - 1);
        let i = k - 1;
        if labels[i] != l {
            s
        } else {
            let x = i % w;
            let y = i / w;
            let inner = is_interior(labels, w, h, l, i);
            BlobSums {
                sx: s.sx + x,
                sy: s.sy + y,
                count: s.count + 1,
                r: s.r + px[i * 4],
                g: s.g + px[i * 4 + 1],
                b: s.b + px[i * 4 + 2],
                ir: if inner { s.ir + px[i * 4] } else { s.ir },
                ig: if inner { s.ig + px[i * 4 + 1] } else { s.ig },
                ib: if inner { s.ib + px[i * 4 + 2] } else { s.ib },
                icount: if inner { s.icount + 1 } else { s.icount },
                min_x: min_int(s.min_x, x),
                max_x: max_int(s.max_x, x),
                min_y: min_int(s.min_y, y),
                max_y: max_int(s.max_y, y),
            }
        }
    }
}

/// `sum / count` rounded to four decimals, half up.
pub open spec fn mean_fixed(sum: int, count: int) -> int {
    (sum * 20000 + count) / (count * 2)
}

/// The blob of component `l`: centroid (to four decimals), radius as the
/// mean of the bounding box's half-sides, and the mean colour of the
/// interior pixels, or of all pixels when none is interior.
pub open spec fn blob_of(f: VideoFrame, labels: Seq<u32>, l: u32) -> Blob {
    let w = f.width as int;
    let h = f.height as int;
    let s = blob_sums(f.pixels@, labels, w, h, l, w * h);
    let color = if s.icount > 0 {
        Color { r: (s.ir / s.icount) as u8, g: (s.ig / s.icount) as u8, b: (s.ib / s.icount) as u8, a: 255 }
    } else {
        Color { r: (s.r / s.count) as u8, g: (s.g / s.count) as u8, b: (s.b / s.count) as u8, a: 255 }
    };
    Blob {
        cx: Number { ten_thousandths: mean_fixed(s.sx, s.count) as i64 },
        cy: Number { ten_thousandths: mean_fixed(s.sy, s.count) as i64 },
        radius: Number {
            ten_thousandths: ((s.max_x - s.min_x + 1 + s.max_y - s.min_y + 1) * 2500) as i64,
        },
        color,
    }
}

/// The measurements of a blob in a `w` × `h` frame lie inside the frame.
pub open spec fn blob_bounded(b: Blob, w: int, h: int) -> bool {
    &&& 0 <= b.cx.ten_thousandths <= w * 10000 + 1
    &&& 0 <= b.cy.ten_thousandths <= h * 10000 + 1
    &&& 0 <= b.radius.ten_thousandths <= (w + h) * 2500
    &&& w >= 1
    &&& h >= 1
}

/// Components smaller than this are noise, not a ball.
pub const MIN_BLOB_PIXELS: u32 = 9;

/// The blob of the largest component of a labelling, if it has at least
/// [`MIN_BLOB_PIXELS`] pixels.
pub open spec fn blob_from_labels(f: VideoFrame, labels: Seq<u32>) -> Option<Blob> {
    let (l, c) = largest_component(labels);
    if c < MIN_BLOB_PIXELS {
        None
    } else {
        Some(blob_of(f, labels, l))
    }
}

proof fn lemma_sums_count(px: Seq<u8>, labels: Seq<u32>, w: int, h: int, l: u32, k: int)
    requires
        0 <= k <= labels.len(),
    ensures
        blob_sums(px, labels, w, h, l, k).count == label_count(labels, l, k),
    decreases k,
{
    if k > 0 {
        lemma_sums_count(px, labels, w, h, l, k - 1);
    }
}

proof fn lemma_sums_bounds(px: Seq<u8>, labels: Seq<u32>, w: int, h: int, l: u32, k: int)
    requires
        w >= 1,
        h >= 0,
        0 <= k <= w * h,
    ensures
        ({
            let s = blob_sums(px, labels, w, h, l, k);
            &&& 0 <= s.count
            &&& 0 <= s.sx <= s.count * w
            &&& 0 <= s.sy <= s.count * h
            &&& s.count == 0 ==> s.min_x == u32::MAX && s.max_x == 0 && s.min_y == u32::MAX && s.max_y == 0
            &&& s.count > 0 ==> 0 <= s.min_x <= s.max_x < w && 0 <= s.min_y <= s.max_y < h
        }),
    decreases k,
{
    if k > 0 {
        lemma_sums_bounds(px, labels, w, h, l, k - 1);
        let s = blob_sums(px, labels, w, h, l, k - 1);
        let i = k - 1;
        if labels[i] == l {
            let x = i % w;
            let y = i / w;
            vstd::arithmetic::div_mod::lemma_fundamental_div_mod(i, w);
            assert(0 <= x < w);
            assert(0 <= y < h) by (nonlinear_arith)
                requires
                    i == w * y + x,
                    0 <= x < w,
                    0 <= i < w * h,
                    w >= 1,
            ;
            assert(s.sx + x <= (s.count + 1) * w) by (nonlinear_arith)
                requires
                    s.sx <= s.count * w,
                    x < w,
            ;
            assert(s.sy + y <= (s.count + 1) * h) by (nonlinear_arith)
                requires
                    s.sy <= s.count * h,
                    y < h,
            ;
        }
    }
}

/// The measurements of a non-empty component lie inside the frame.
pub proof fn lemma_blob_of_bounded(f: VideoFrame, labels: Seq<u32>, l: u32)
    requires
        f.well_formed(),
        labels.len() == f.width * f.height,
        component_size(labels, l) >= 1,
    ensures
        blob_bounded(blob_of(f, labels, l), f.width as int, f.height as int),
{
    let w = f.width as int;
    let h = f.height as int;
    let n = w * h;
    assert(n >= 1) by {
        lemma_count_bound(labels, l, labels.len() as int);
    }
    assert(w >= 1 && h >= 1) by (nonlinear_arith)
        requires
            n == w * h,
            n >= 1,
            w >= 0,
            h >= 0,
    ;
    assert(w <= n && h <= n) by (nonlinear_arith)
        requires
            n == w * h,
            w >= 1,
            h >= 1,
    ;
    lemma_sums_bounds(f.pixels@, labels, w, h, l, n);
    lemma_sums_count(f.pixels@, labels, w, h, l, n);
    let s = blob_sums(f.pixels@, labels, w, h, l, n);
    let count = s.count;
    assert(count >= 1);
    assert(s.sx * 20000 + count <= count * 2 * (w * 10000 + 1)) by (nonlinear_arith)
        requires
            s.sx <= count * w,
            count >= 1,
    ;
    assert(s.sy * 20000 + count <= count * 2 * (h * 10000 + 1)) by (nonlinear_arith)
        requires
            s.sy <= count * h,
            count >= 1,
    ;
    vstd::arithmetic::div_mod::lemma_div_is_ordered(
        s.sx * 20000 + count,
        count * 2 * (w * 10000 + 1),
        count * 2,
    );
    vstd::arithmetic::div_mod::lemma_div_is_ordered(
        s.sy * 20000 + count,
        count * 2 * (h * 10000 + 1),
        count * 2,
    );
    vstd::arithmetic::div_mod::lemma_div_multiples_vanish(w * 10000 + 1, count * 2);
    vstd::arithmetic::div_mod::lemma_div_multiples_vanish(h * 10000 + 1, count * 2);
    vstd::arithmetic::div_mod::lemma_div_pos_is_pos(s.sx * 20000 + count, count * 2);
    vstd::arithmetic::div_mod::lemma_div_pos_is_pos(s.sy * 20000 + count, count * 2);
    assert(w * 10000 + 1 < 0x7fff_ffff_ffff_ffff && h * 10000 + 1 < 0x7fff_ffff_ffff_ffff);
}

/// Measures component `l` of a labelling of the frame `f`.
pub fn measure_blob(f: &VideoFrame, labels: &Vec<u32>, l: u32) -> (b: Blob)
    requires
        f.well_formed(),
        labels@.len() == f.width * f.height,
        component_size(labels@, l) >= 1,
    ensures
        b == blob_of(*f, labels@, l),
        blob_bounded(b, f.width as int, f.height as int),
{
    let w: usize = f.width as usize;
    let h: usize = f.height as usize;
    let n: usize = w * h;
    let ghost px = f.pixels@;
    let ghost lb = labels@;
    proof {
        if n > 0 {
            assert(w <= n && h <= n) by (nonlinear_arith)
                requires
                    n == w * h,
                    n > 0,
            ;
        }
    }
    let mut sx: u64 = 0;
    let mut sy: u64 = 0;
    let mut count: u64 = 0;
    let mut sr: u64 = 0;
    let mut sg: u64 = 0;
    let mut sb: u64 = 0;
    let mut ir: u64 = 0;
    let mut ig: u64 = 0;
    let mut ib: u64 = 0;
    let mut icount: u64 = 0;
    let mut min_x: u32 = u32::MAX;
    let mut max_x: u32 = 0;
    let mut min_y: u32 = u32::MAX;
    let mut max_y: u32 = 0;
    let mut i: usize = 0;
    let mut x: usize = 0;
    let mut y: usize = 0;
    while i < n
        invariant
            f.well_formed(),
            px == f.pixels@,
            lb == labels@,
            w == f.width,
            h == f.height,
            n == w * h,
            n * 4 <= i32::MAX,
            n > 0 ==> w <= n && h <= n,
            labels@.len() == n,
            0 <= i <= n,
            i < n ==> x < w,
            i == y * w + x,
            sx == blob_sums(px, lb, w as int, h as int, l, i as int).sx,
            sy == blob_sums(px, lb, w as int, h as int, l, i as int).sy,
            count == blob_sums(px, lb, w as int, h as int, l, i as int).count,
            sr == blob_sums(px, lb, w as int, h as int, l, i as int).r,
            sg == blob_sums(px, lb, w as int, h as int, l, i as int).g,
            sb == blob_sums(px, lb, w as int, h as int, l, i as int).b,
            ir == blob_sums(px, lb, w as int, h as int, l, i as int).ir,
            ig == blob_sums(px, lb, w as int, h as int, l, i as int).ig,
            ib == blob_sums(px, lb, w as int, h as int, l, i as int).ib,
            icount == blob_sums(px, lb, w as int, h as int, l, i as int).icount,
            min_x == blob_sums(px, lb, w as int, h as int, l, i as int).min_x,
            max_x == blob_sums(px, lb, w as int, h as int, l, i as int).max_x,
            min_y == blob_sums(px, lb, w as int, h as int, l, i as int).min_y,
            max_y == blob_sums(px, lb, w as int, h as int, l, i as int).max_y,
            count <= i,
            icount <= count,
            sx <= count * w,
            sy <= count * h,
            sr <= 255 * count,
            sg <= 255 * count,
            sb <= 255 * count,
            ir <= 255 * icount,
            ig <= 255 * icount,
            ib <= 255 * icount,
            count > 0 ==> min_x <= max_x < w && min_y <= max_y < h,
            count == 0 ==> min_x == u32::MAX && max_x == 0 && min_y == u32::MAX && max_y == 0,
        decreases n - i,
    {
        proof {
            lemma_coords(i as int, w as int, x as int, y as int);
            assert(y < h) by (nonlinear_arith)
                requires
                    i == y * w + x,
                    i < w * h,
                    0 <= x,
            ;
            assert(i * 4 + 3 < n * 4);
        }
        if labels[i] == l {
            let pi = i * 4;
            let r = f.pixels[pi] as u64;
            let g = f.pixels[pi + 1] as u64;
            let b = f.pixels[pi + 2] as u64;
            proof {
                assert(sx + x <= (count + 1) * w) by (nonlinear_arith)
                    requires
                        sx <= count * w,
                        x < w,
                ;
                assert(sy + y <= (count + 1) * h) by (nonlinear_arith)
                    requires
                        sy <= count * h,
                        y < h,
                ;
                assert((count + 1) * w <= n * n) by (nonlinear_arith)
                    requires
                        count + 1 <= n,
                        w <= n,
                ;
                assert((count + 1) * h <= n * n) by (nonlinear_arith)
                    requires
                        count + 1 <= n,
                        h <= n,
                ;
                assert(n * n <= 0x4000_0000_0000_0000) by (nonlinear_arith)
                    requires
                        n * 4 <= i32::MAX,
                ;
            }
            sx = sx + x as u64;
            sy = sy + y as u64;
            count = count + 1;
            sr = sr + r;
            sg = sg + g;
            sb = sb + b;
            let interior = x > 0 && y > 0 && x + 1 < w && y + 1 < h && {
                proof {
                    assert(i + w < n) by (nonlinear_arith)
                        requires
                            i == y * w + x,
                            y + 1 < h,
                            x < w,
                            n == w * h,
                    ;
                    assert(i >= w) by (nonlinear_arith)
                        requires
                            i == y * w + x,
                            y > 0,
                            x >= 0,
                    ;
                }
                labels[i - 1] == l && labels[i + 1] == l && labels[i - w] == l && labels[i + w] == l
            };
            if interior {
                ir = ir + r;
                ig = ig + g;
                ib = ib + b;
                icount = icount + 1;
            }
            if (x as u32) < min_x {
                min_x = x as u32;
            }
            if (x as u32) > max_x {
                max_x = x as u32;
            }
            if (y as u32) < min_y {
                min_y = y as u32;
            }
            if (y as u32) > max_y {
                max_y = y as u32;
            }
        }
        i = i + 1;
        if x + 1 == w {
            x = 0;
            y = y + 1;
            proof {
                assert(i == y * w + x) by (nonlinear_arith)
                    requires
                        i == (y - 1) * w + w,
                        x == 0,
                ;
            }
        } else {
            x = x + 1;
        }
    }
    proof {
        lemma_sums_count(px, lb, w as int, h as int, l, n as int);
        assert(count >= 1);
        assert(sx * 20000 + count <= count * 2 * (w * 10000 + 1)) by (nonlinear_arith)
            requires
                sx <= count * w,
                count >= 1,
        ;
        assert(sy * 20000 + count <= count * 2 * (h * 10000 + 1)) by (nonlinear_arith)
            requires
                sy <= count * h,
                count >= 1,
        ;
        vstd::arithmetic::div_mod::lemma_div_is_ordered(
            (sx * 20000 + count) as int,
            (count * 2 * (w * 10000 + 1)) as int,
            (count * 2) as int,
        );
        vstd::arithmetic::div_mod::lemma_div_is_ordered(
            (sy * 20000 + count) as int,
            (count * 2 * (h * 10000 + 1)) as int,
            (count * 2) as int,
        );
        vstd::arithmetic::div_mod::lemma_div_multiples_vanish((w * 10000 + 1) as int, (count * 2) as int);
        vstd::arithmetic::div_mod::lemma_div_multiples_vanish((h * 10000 + 1) as int, (count * 2) as int);
    }
    let cx: u128 = (sx as u128 * 20000 + count as u128) / (count as u128 * 2);
    let cy: u128 = (sy as u128 * 20000 + count as u128) / (count as u128 * 2);
    let color = if icount > 0 {
        proof {
            lemma_avg_u8(ir as int, icount as int);
            lemma_avg_u8(ig as int, icount as int);
            lemma_avg_u8(ib as int, icount as int);
        }
        Color::rgb((ir / icount) as u8, (ig / icount) as u8, (ib / icount) as u8)
    } else {
        proof {
            lemma_avg_u8(sr as int, count as int);
            lemma_avg_u8(sg as int, count as int);
            lemma_avg_u8(sb as int, count as int);
        }
        Color::rgb((sr / count) as u8, (sg / count) as u8, (sb / count) as u8)
    };
    let span: i64 = (max_x - min_x + 1) as i64 + (max_y - min_y + 1) as i64;
    proof {
        assert(cx <= w * 10000 + 1);
        assert(cy <= h * 10000 + 1);
    }
    Blob {
        cx: Number { ten_thousandths: cx as i64 },
        cy: Number { ten_thousandths: cy as i64 },
        radius: Number { ten_thousandths: span * 2500 },
        color,
    }
}

proof fn lemma_avg_u8(s: int, n: int)
    requires
        0 <= s <= 255 * n,
        n > 0,
    ensures
        0 <= s / n <= 255,
{
    lemma_rect_avg_bound(s, n);
}

/// `blob` is what [`detect_blob`] reports for the frame `f` against the
/// background `bg`: the measurements of the largest 4-connected component
/// of the foreground, under a labelling of its components.
pub open spec fn blob_detected(f: VideoFrame, bg: Color, blob: Option<Blob>) -> bool {
    exists|labels: Seq<u32>|
        #[trigger] labels_components(foreground_mask(f, bg), f.width as int, f.height as int, labels)
            && blob == blob_from_labels(f, labels)
}

/// Foreground mask, component labelling, and the measurements of the
/// largest component; `None` when it has fewer than [`MIN_BLOB_PIXELS`]
/// pixels or there is no foreground.
pub fn detect_blob(f: &VideoFrame, bg: Color) -> (r: Option<Blob>)
    requires
        f.well_formed(),
    ensures
        blob_detected(*f, bg, r),
        r matches Some(b) ==> blob_bounded(b, f.width as int, f.height as int),
{
    let w: usize = f.width as usize;
    let h: usize = f.height as usize;
    let mask = foreground(f, bg);
    let labels = label_components_4(mask.as_slice(), w, h);
    proof {
        assert(mask@.subrange(0, (w * h) as int) =~= mask@);
    }
    let (best, best_count) = largest(&labels, w * h);
    let r = if best_count < MIN_BLOB_PIXELS {
        None
    } else {
        proof {
            lemma_largest_among(labels@, labels@.len() as int);
        }
        Some(measure_blob(f, &labels, best))
    };
    assert(labels_components(foreground_mask(*f, bg), f.width as int, f.height as int, labels@));
    r
}

// --------------------------------------------------------------------
// Every blob of a frame
// --------------------------------------------------------------------

/// Pixel `i` is the first pixel, in raster order, of its component.
pub open spec fn first_of_component(labels: Seq<u32>, i: int) -> bool {
    labels[i] != 0 && forall|j: int| 0 <= j < i ==> labels[j] != labels[i]
}

/// The labels of the components with at least [`MIN_BLOB_PIXELS`] pixels
/// whose first pixel lies among the first `k`, in the order of their first
/// pixels.
pub open spec fn big_components(labels: Seq<u32>, k: int) -> Seq<u32>
    decreases k,
{
    if k <= 0 {
        Seq::empty()
    } else {
        let prev = big_components(labels, k - 1);
        if first_of_component(labels, k - 1) && component_size(labels, labels[k - 1])
            >= MIN_BLOB_PIXELS {
            prev.push(labels[k - 1])
        } else {
            prev
        }
    }
}

/// The blobs of every component of a labelling with at least
/// [`MIN_BLOB_PIXELS`] pixels, in raster order of their first pixels.
pub open spec fn blobs_from_labels(f: VideoFrame, labels: Seq<u32>) -> Seq<Blob> {
    big_components(labels, labels.len() as int).map_values(|l: u32| blob_of(f, labels, l))
}

/// `blobs` is what [`detect_blobs`] reports for the frame `f` against the
/// background `bg`: the measurements of every 4-connected component of the
/// foreground that is not noise, under a labelling of its components.
pub open spec fn blobs_detected(f: VideoFrame, bg: Color, blobs: Seq<Blob>) -> bool {
    exists|labels: Seq<u32>|
        #[trigger] labels_components(foreground_mask(f, bg), f.width as int, f.height as int, labels)
            && blobs == blobs_from_labels(f, labels)
}

proof fn lemma_big_components_big(labels: Seq<u32>, k: int)
    ensures
        forall|q: int|
            0 <= q < big_components(labels, k).len() ==> component_size(
                labels,
                #[trigger] big_components(labels, k)[q],
            ) >= MIN_BLOB_PIXELS,
    decreases k,
{
    if k > 0 {
        lemma_big_components_big(labels, k - 1);
        let prev = big_components(labels, k - 1);
        assert forall|q: int| 0 <= q < big_components(labels, k).len() implies component_size(
            labels,
            #[trigger] big_components(labels, k)[q],
        ) >= MIN_BLOB_PIXELS by {
            if q < prev.len() {
                assert(big_components(labels, k)[q] == prev[q]);
            }
        }
    }
}

/// Every blob that detection reports lies inside its frame.
pub proof fn lemma_detected_blobs_bounded(f: VideoFrame, bg: Color, blobs: Seq<Blob>)
    requires
        f.well_formed(),
        blobs_detected(f, bg, blobs),
    ensures
        forall|q: int|
            0 <= q < blobs.len() ==> blob_bounded(#[trigger] blobs[q], f.width as int, f.height as int),
{
    let m = foreground_mask(f, bg);
    let labels = choose|l: Seq<u32>|
        #[trigger] labels_components(m, f.width as int, f.height as int, l) && blobs == blobs_from_labels(
            f,
            l,
        );
    lemma_big_components_big(labels, labels.len() as int);
    let big = big_components(labels, labels.len() as int);
    assert forall|q: int| 0 <= q < blobs.len() implies blob_bounded(
        #[trigger] blobs[q],
        f.width as int,
        f.height as int,
    ) by {
        assert(blobs[q] == blob_of(f, labels, big[q]));
        assert(component_size(labels, big[q]) >= MIN_BLOB_PIXELS);
        lemma_blob_of_bounded(f, labels, big[q]);
    }
}

/// Measures every component with at least [`MIN_BLOB_PIXELS`] pixels, in
/// raster order of their first pixels.
fn component_blobs(f: &VideoFrame, labels: &Vec<u32>) -> (r: Vec<Blob>)
    requires
        f.well_formed(),
        labels@.len() == f.width * f.height,
        f.width * f.height < u32::MAX,
        forall|i: int| 0 <= i < labels@.len() ==> #[trigger] labels@[i] <= labels@.len(),
    ensures
        r@ == blobs_from_labels(*f, labels@),
        forall|q: int|
            0 <= q < r@.len() ==> blob_bounded(#[trigger] r@[q], f.width as int, f.height as int),
{
    let n: usize = labels.len();
    let counts = component_counts(labels, n);
    let mut seen: Vec<bool> = Vec::new();
    let mut k: usize = 0;
    while k <= n
        invariant
            k <= n + 1,
            n < u32::MAX,
            seen@.len() == k,
            forall|l: int| 0 <= l < k ==> !seen@[l],
        decreases n + 1 - k,
    {
        seen.push(false);
        k = k + 1;
    }
    let mut r: Vec<Blob> = Vec::new();
    let mut i: usize = 0;
    while i < n
        invariant
            f.well_formed(),
            labels@.len() == n,
            n == f.width * f.height,
            n < u32::MAX,
            forall|q: int| 0 <= q < n ==> #[trigger] labels@[q] <= n,
            counts@.len() == n + 1,
            forall|l: int| 1 <= l <= n ==> #[trigger] counts@[l] == component_size(labels@, l as u32),
            0 <= i <= n,
            seen@.len() == n + 1,
            forall|l: int|
                1 <= l <= n ==> (#[trigger] seen@[l] <==> exists|j: int|
                    0 <= j < i && labels@[j] == l),
            r@ == big_components(labels@, i as int).map_values(|l: u32| blob_of(*f, labels@, l)),
            forall|q: int|
                0 <= q < r@.len() ==> blob_bounded(#[trigger] r@[q], f.width as int, f.height as int),
        decreases n - i,
    {
        let l = labels[i];
        let ghost before = seen@;
        let ghost r0 = r@;
        let ghost first = first_of_component(labels@, i as int);
        proof {
            if l != 0 {
                if first {
                    assert(!before[l as int]) by {
                        if before[l as int] {
                            let j = choose|j: int| 0 <= j < i && labels@[j] == l;
                            assert(labels@[j] != labels@[i as int]);
                        }
                    }
                } else {
                    let j = choose|j: int| 0 <= j < i && labels@[j] == labels@[i as int];
                    assert(before[l as int]);
                }
            }
        }
        if l != 0 && !seen[l as usize] {
            seen.set(l as usize, true);
            if counts[l as usize] >= MIN_BLOB_PIXELS {
                let b = measure_blob(f, labels, l);
                r.push(b);
            }
        }
        proof {
            assert forall|m: int| 1 <= m <= n implies (#[trigger] seen@[m] <==> exists|j: int|
                0 <= j < i + 1 && labels@[j] == m) by {
                if m == l as int {
                    assert(labels@[i as int] == m);
                } else {
                    assert(seen@[m] == before[m]);
                    if exists|j: int| 0 <= j < i + 1 && labels@[j] == m {
                        let j = choose|j: int| 0 <= j < i + 1 && labels@[j] == m;
                        assert(j < i);
                    }
                }
            }
            let big = big_components(labels@, i as int);
            if first && component_size(labels@, l) >= MIN_BLOB_PIXELS {
                assert(big_components(labels@, i + 1) == big.push(l));
                assert(r@ =~= big.push(l).map_values(|m: u32| blob_of(*f, labels@, m)));
            } else {
                assert(big_components(labels@, i + 1) == big);
                assert(r@ == r0);
            }
        }
        i = i + 1;
    }
    r
}

/// Foreground mask, component labelling, and the measurements of every
/// component that has at least [`MIN_BLOB_PIXELS`] pixels, in raster order
/// of their first pixels.
pub fn detect_blobs(f: &VideoFrame, bg: Color) -> (r: Vec<Blob>)
    requires
        f.well_formed(),
    ensures
        blobs_detected(*f, bg, r@),
        forall|q: int|
            0 <= q < r@.len() ==> blob_bounded(#[trigger] r@[q], f.width as int, f.height as int),
{
    let w: usize = f.width as usize;
    let h: usize = f.height as usize;
    let mask = foreground(f, bg);
    let labels = label_components_4(mask.as_slice(), w, h);
    proof {
        assert(mask@.subrange(0, (w * h) as int) =~= mask@);
    }
    let r = component_blobs(f, &labels);
    assert(labels_components(foreground_mask(*f, bg), f.width as int, f.height as int, labels@));
    r
}

// --------------------------------------------------------------------
// The detected blob does not depend on how components are numbered
// --------------------------------------------------------------------

/// Two labellings group the first `n` pixels alike: same label in one
/// exactly when same label in the other, and background in both.
pub open spec fn same_grouping(l1: Seq<u32>, l2: Seq<u32>, n: int) -> bool {
    &&& l1.len() == n
    &&& l2.len() == n
    &&& forall|i: int| 0 <= i < n ==> (#[trigger] l1[i] == 0) == (l2[i] == 0)
    &&& forall|i: int, j: int|
        0 <= i < n && 0 <= j < n ==> (#[trigger] l1[i] == #[trigger] l1[j]) == (l2[i] == l2[j])
}

proof fn lemma_components_group_alike(mask: Seq<bool>, w: int, h: int, l1: Seq<u32>, l2: Seq<u32>)
    requires
        labels_components(mask, w, h, l1),
        labels_components(mask, w, h, l2),
        mask.len() == w * h,
    ensures
        same_grouping(l1, l2, w * h),
{
    assert forall|i: int, j: int| 0 <= i < w * h && 0 <= j < w * h implies (#[trigger] l1[i]
        == #[trigger] l1[j]) == (l2[i] == l2[j]) by {
        if mask[i] && mask[j] {
            lemma_labels_are_components(mask, w, h, l1, i, j);
            lemma_labels_are_components(mask, w, h, l2, i, j);
        } else {
            assert((l1[i] == 0) == !mask[i]);
            assert((l1[j] == 0) == !mask[j]);
            assert((l2[i] == 0) == !mask[i]);
            assert((l2[j] == 0) == !mask[j]);
        }
    }
}

proof fn lemma_count_alike(l1: Seq<u32>, l2: Seq<u32>, n: int, p: int, k: int)
    requires
        same_grouping(l1, l2, n),
        0 <= p < n,
        0 <= k <= n,
    ensures
        label_count(l1, l1[p], k) == label_count(l2, l2[p], k),
    decreases k,
{
    if k > 0 {
        lemma_count_alike(l1, l2, n, p, k - 1);
        assert((l1[k - 1] == l1[p]) == (l2[k - 1] == l2[p]));
    }
}

proof fn lemma_largest_alike(l1: Seq<u32>, l2: Seq<u32>, n: int, k: int)
    requires
        same_grouping(l1, l2, n),
        0 <= k <= n,
    ensures
        largest_among(l1, k).1 == largest_among(l2, k).1,
        largest_among(l1, k).1 == 0 ==> largest_among(l1, k).0 == 0 && largest_among(l2, k).0 == 0,
        largest_among(l1, k).1 > 0 ==> exists|p: int|
            0 <= p < n && #[trigger] l1[p] == largest_among(l1, k).0 && l2[p] == largest_among(
                l2,
                k,
            ).0,
    decreases k,
{
    if k > 0 {
        lemma_largest_alike(l1, l2, n, k - 1);
        let p = k - 1;
        lemma_count_alike(l1, l2, n, p, n);
        assert(component_size(l1, l1[p]) == component_size(l2, l2[p]));
        assert((l1[p] == 0) == (l2[p] == 0));
    }
}

proof fn lemma_sums_alike(
    px: Seq<u8>,
    l1: Seq<u32>,
    l2: Seq<u32>,
    w: int,
    h: int,
    a: u32,
    b: u32,
    k: int,
)
    requires
        l1.len() == w * h,
        l2.len() == w * h,
        w >= 1,
        0 <= k <= w * h,
        forall|i: int| 0 <= i < w * h ==> (#[trigger] l1[i] == a) == (l2[i] == b),
    ensures
        blob_sums(px, l1, w, h, a, k) == blob_sums(px, l2, w, h, b, k),
    decreases k,
{
    if k > 0 {
        lemma_sums_alike(px, l1, l2, w, h, a, b, k - 1);
        let i = k - 1;
        let x = i % w;
        let y = i / w;
        vstd::arithmetic::div_mod::lemma_fundamental_div_mod(i, w);
        assert(w * y == y * w) by (nonlinear_arith);
        if x > 0 && y > 0 && x + 1 < w && y + 1 < h {
            assert(i + w < w * h) by (nonlinear_arith)
                requires
                    i == y * w + x,
                    y + 1 < h,
                    0 <= x < w,
                    y >= 0,
                    w >= 1,
            ;
            assert(i >= w) by (nonlinear_arith)
                requires
                    i == y * w + x,
                    y >= 1,
                    x >= 0,
                    w >= 1,
            ;
            assert((l1[i - 1] == a) == (l2[i - 1] == b));
            assert((l1[i + 1] == a) == (l2[i + 1] == b));
            assert((l1[i - w] == a) == (l2[i - w] == b));
            assert((l1[i + w] == a) == (l2[i + w] == b));
        }
        assert(is_interior(l1, w, h, a, i) == is_interior(l2, w, h, b, i));
        assert((l1[i] == a) == (l2[i] == b));
    }
}

/// Any two labellings of the components of a frame's foreground give the
/// same blob: the blob is determined by the frame alone.
pub proof fn lemma_blob_from_any_labelling(f: VideoFrame, mask: Seq<bool>, l1: Seq<u32>, l2: Seq<u32>)
    requires
        labels_components(mask, f.width as int, f.height as int, l1),
        labels_components(mask, f.width as int, f.height as int, l2),
        mask.len() == f.width * f.height,
    ensures
        blob_from_labels(f, l1) == blob_from_labels(f, l2),
{
    let w = f.width as int;
    let h = f.height as int;
    let n = w * h;
    lemma_components_group_alike(mask, w, h, l1, l2);
    lemma_largest_alike(l1, l2, n, n);
    let (a, c) = largest_component(l1);
    let (b, c2) = largest_component(l2);
    assert(c == c2);
    if c >= MIN_BLOB_PIXELS {
        let p = choose|p: int| 0 <= p < n && #[trigger] l1[p] == a && l2[p] == b;
        assert(n > 0);
        assert(w >= 1) by (nonlinear_arith)
            requires
                n == w * h,
                n > 0,
                h >= 0,
        ;
        assert forall|i: int| 0 <= i < n implies (#[trigger] l1[i] == a) == (l2[i] == b) by {
            assert((l1[i] == l1[p]) == (l2[i] == l2[p]));
        }
        lemma_sums_alike(f.pixels@, l1, l2, w, h, a, b, n);
    }
}

/// Detection reports one blob per frame and background: any two results
/// that meet [`blob_detected`] are equal.
pub proof fn lemma_blob_detected_unique(f: VideoFrame, bg: Color, b1: Option<Blob>, b2: Option<Blob>)
    requires
        blob_detected(f, bg, b1),
        blob_detected(f, bg, b2),
    ensures
        b1 == b2,
{
    let m = foreground_mask(f, bg);
    let l1 = choose|l: Seq<u32>|
        #[trigger] labels_components(m, f.width as int, f.height as int, l) && b1 == blob_from_labels(
            f,
            l,
        );
    let l2 = choose|l: Seq<u32>|
        #[trigger] labels_components(m, f.width as int, f.height as int, l) && b2 == blob_from_labels(
            f,
            l,
        );
    lemma_blob_from_any_labelling(f, m, l1, l2);
}

proof fn lemma_big_alike(f: VideoFrame, l1: Seq<u32>, l2: Seq<u32>, k: int)
    requires
        same_grouping(l1, l2, f.width * f.height),
        f.width >= 1,
        0 <= k <= f.width * f.height,
    ensures
        big_components(l1, k).map_values(|l: u32| blob_of(f, l1, l)) == big_components(l2, k).map_values(
            |l: u32| blob_of(f, l2, l),
        ),
    decreases k,
{
    if k > 0 {
        lemma_big_alike(f, l1, l2, k - 1);
        let n = f.width * f.height;
        let w = f.width as int;
        let h = f.height as int;
        let p = k - 1;
        let a = l1[p];
        let b = l2[p];
        assert(first_of_component(l1, p) == first_of_component(l2, p)) by {
            assert((l1[p] == 0) == (l2[p] == 0));
            if first_of_component(l1, p) {
                assert forall|j: int| 0 <= j < p implies l2[j] != l2[p] by {
                    assert((l1[j] == l1[p]) == (l2[j] == l2[p]));
                }
            }
            if first_of_component(l2, p) {
                assert forall|j: int| 0 <= j < p implies l1[j] != l1[p] by {
                    assert((l1[j] == l1[p]) == (l2[j] == l2[p]));
                }
            }
        }
        lemma_count_alike(l1, l2, n as int, p, n as int);
        assert forall|i: int| 0 <= i < w * h implies (#[trigger] l1[i] == a) == (l2[i] == b) by {
            assert((l1[i] == l1[p]) == (l2[i] == l2[p]));
        }
        lemma_sums_alike(f.pixels@, l1, l2, w, h, a, b, w * h);
        assert(blob_of(f, l1, a) == blob_of(f, l2, b));
        let b1 = big_components(l1, k - 1);
        let b2 = big_components(l2, k - 1);
        if first_of_component(l1, p) && component_size(l1, a) >= MIN_BLOB_PIXELS {
            assert(big_components(l1, k).map_values(|l: u32| blob_of(f, l1, l)) =~= b1.map_values(
                |l: u32| blob_of(f, l1, l),
            ).push(blob_of(f, l1, a)));
            assert(big_components(l2, k).map_values(|l: u32| blob_of(f, l2, l)) =~= b2.map_values(
                |l: u32| blob_of(f, l2, l),
            ).push(blob_of(f, l2, b)));
        }
    }
}

/// Any two labellings of the components of a frame's foreground give the
/// same blobs: the list is determined by the frame alone.
pub proof fn lemma_blobs_from_any_labelling(f: VideoFrame, mask: Seq<bool>, l1: Seq<u32>, l2: Seq<u32>)
    requires
        labels_components(mask, f.width as int, f.height as int, l1),
        labels_components(mask, f.width as int, f.height as int, l2),
        mask.len() == f.width * f.height,
    ensures
        blobs_from_labels(f, l1) == blobs_from_labels(f, l2),
{
    let w = f.width as int;
    let h = f.height as int;
    lemma_components_group_alike(mask, w, h, l1, l2);
    if w * h > 0 {
        assert(w >= 1) by (nonlinear_arith)
            requires
                w * h > 0,
                h >= 0,
                w >= 0,
        ;
        lemma_big_alike(f, l1, l2, w * h);
    }
}

/// Detection reports one list of blobs per frame and background: any two
/// results that meet [`blobs_detected`] are equal.
pub proof fn lemma_blobs_detected_unique(f: VideoFrame, bg: Color, b1: Seq<Blob>, b2: Seq<Blob>)
    requires
        blobs_detected(f, bg, b1),
        blobs_detected(f, bg, b2),
    ensures
        b1 == b2,
{
    let m = foreground_mask(f, bg);
    let l1 = choose|l: Seq<u32>|
        #[trigger] labels_components(m, f.width as int, f.height as int, l) && b1 == blobs_from_labels(
            f,
            l,
        );
    let l2 = choose|l: Seq<u32>|
        #[trigger] labels_components(m, f.width as int, f.height as int, l) && b2 == blobs_from_labels(
            f,
            l,
        );
    lemma_blobs_from_any_labelling(f, m, l1, l2);
}

// --------------------------------------------------------------------
// All frames
// --------------------------------------------------------------------

/// What detection found in one frame.
#[derive(Debug, Clone)]
pub struct Detection {
    pub frame_index: usize,
    /// Time offset of this frame in milliseconds (cumulative).
    pub t_ms: u32,
    /// Estimated background colour for this frame.
    pub bg: Color,
    /// The largest foreground blob; `None` means no foreground blob was
    /// found in this frame.
    pub blob: Option<Blob>,
    /// Every foreground blob, in raster order of their first pixels.
    pub blobs: Vec<Blob>,
}

/// Start time of frame `i`: the sum of the delays of the frames before it,
/// saturating at `u32::MAX`.
pub open spec fn start_time(frames: Seq<VideoFrame>, i: int) -> u32
    decreases i,
{
    if i <= 0 {
        0
    } else {
        let t = start_time(frames, i - 1);
        let d = frames[i - 1].delay_ms;
        if t + d > u32::MAX { u32::MAX } else { (t + d) as u32 }
    }
}

/// Runs detection on every frame.
pub fn detect_all(frames: &[VideoFrame]) -> (out: Vec<Detection>)
    requires
        forall|i: int| 0 <= i < frames@.len() ==> #[trigger] frames@[i].well_formed(),
    ensures
        out@.len() == frames@.len(),
        forall|i: int|
            0 <= i < frames@.len() ==> {
                &&& (#[trigger] out@[i]).frame_index == i
                &&& out@[i].t_ms == start_time(frames@, i)
                &&& out@[i].bg == background_of(frames@[i])
                &&& blob_detected(frames@[i], out@[i].bg, out@[i].blob)
                &&& out@[i].blob matches Some(b) ==> blob_bounded(
                    b,
                    frames@[i].width as int,
                    frames@[i].height as int,
                )
                &&& blobs_detected(frames@[i], out@[i].bg, out@[i].blobs@)
                &&& forall|q: int|
                    0 <= q < out@[i].blobs@.len() ==> blob_bounded(
                        #[trigger] out@[i].blobs@[q],
                        frames@[i].width as int,
                        frames@[i].height as int,
                    )
            },
{
    let mut out: Vec<Detection> = Vec::new();
    let mut t_ms: u32 = 0;
    let mut i: usize = 0;
    while i < frames.len()
        invariant
            forall|q: int| 0 <= q < frames@.len() ==> #[trigger] frames@[q].well_formed(),
            0 <= i <= frames@.len(),
            out@.len() == i,
            t_ms == start_time(frames@, i as int),
            forall|q: int|
                0 <= q < i ==> {
                    &&& (#[trigger] out@[q]).frame_index == q
                    &&& out@[q].t_ms == start_time(frames@, q)
                    &&& out@[q].bg == background_of(frames@[q])
                    &&& blob_detected(frames@[q], out@[q].bg, out@[q].blob)
                    &&& out@[q].blob matches Some(b) ==> blob_bounded(
                        b,
                        frames@[q].width as int,
                        frames@[q].height as int,
                    )
                    &&& blobs_detected(frames@[q], out@[q].bg, out@[q].blobs@)
                    &&& forall|p: int|
                        0 <= p < out@[q].blobs@.len() ==> blob_bounded(
                            #[trigger] out@[q].blobs@[p],
                            frames@[q].width as int,
                            frames@[q].height as int,
                        )
                },
        decreases frames@.len() - i,
    {
        let f = &frames[i];
        let bg = estimate_background(f);
        let blob = detect_blob(f, bg);
        let blobs = detect_blobs(f, bg);
        out.push(Detection { frame_index: i, t_ms, bg, blob, blobs });
        t_ms = t_ms.saturating_add(f.delay_ms);
        i = i + 1;
    }
    out
}

} // verus!
