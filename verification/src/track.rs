//! Across-frame tracking: keyframe extraction by temporal
//! Ramer-Douglas-Peucker simplification, easing classification, and the
//! emitted document.
//!
//! Positions are fixed-point [`Number`]s (ten-thousandths of a pixel) and
//! times are whole milliseconds, so every deviation, distance and error
//! below is computed exactly in integers.
use vstd::prelude::*;
use crate::ast::{
    Animation, AnimationV, Canvas, Color, Document, DocumentV, Easing, Keyframe, KeyframeV, Number,
    Property, Scene, SceneV, Shape, Statement, StatementV, Transform, Value,
};
use crate::detect::{Blob, Detection, VideoFrame};
use crate::frames::{estimate_fps, fps_of};
use crate::stats::{median_i64, median_of_i64, median_of_u8, median_u8};
use crate::tracking::{all_blobs_in_range, blob_tracks, sample_seqs, track_blobs, tracks_sound};
use crate::writer::{decimal, push_decimal};

verus! {

/// Bound on the magnitude of the coordinates (in ten-thousandths of a
/// pixel) that the tracker works with: about 1.7 billion pixels.
pub const COORD_LIMIT: i64 = 0x1000_0000_0000;

pub open spec fn coord_in_range(v: Number) -> bool {
    -COORD_LIMIT <= v.ten_thousandths <= COORD_LIMIT
}

pub open spec fn blob_in_range(b: Blob) -> bool {
    &&& coord_in_range(b.cx)
    &&& coord_in_range(b.cy)
    &&& coord_in_range(b.radius)
}

// --------------------------------------------------------------------
// Statistics
// --------------------------------------------------------------------

pub open spec fn color_reds(s: Seq<Color>) -> Seq<u8> {
    s.map_values(|c: Color| c.r)
}

pub open spec fn color_greens(s: Seq<Color>) -> Seq<u8> {
    s.map_values(|c: Color| c.g)
}

pub open spec fn color_blues(s: Seq<Color>) -> Seq<u8> {
    s.map_values(|c: Color| c.b)
}

/// Per-channel median of a list of colours, opaque; black for none.
pub open spec fn median_color_of(s: Seq<Color>) -> Color {
    if s.len() == 0 {
        Color { r: 0, g: 0, b: 0, a: 255 }
    } else {
        Color {
            r: median_u8(color_reds(s)),
            g: median_u8(color_greens(s)),
            b: median_u8(color_blues(s)),
            a: 255,
        }
    }
}

/// Per-channel median of a list of colours (opaque); black for none.
pub fn median_color(cs: &[Color]) -> (c: Color)
    ensures
        c == median_color_of(cs@),
{
    if cs.len() == 0 {
        return Color::rgb(0, 0, 0);
    }
    let mut rs: Vec<u8> = Vec::new();
    let mut gs: Vec<u8> = Vec::new();
    let mut bs: Vec<u8> = Vec::new();
    let mut k: usize = 0;
    while k < cs.len()
        invariant
            0 <= k <= cs@.len(),
            rs@ == color_reds(cs@.subrange(0, k as int)),
            gs@ == color_greens(cs@.subrange(0, k as int)),
            bs@ == color_blues(cs@.subrange(0, k as int)),
        decreases cs@.len() - k,
    {
        let c = cs[k];
        rs.push(c.r);
        gs.push(c.g);
        bs.push(c.b);
        proof {
            assert(cs@.subrange(0, k + 1) == cs@.subrange(0, k as int).push(c));
        }
        k = k + 1;
    }
    proof {
        assert(cs@.subrange(0, cs@.len() as int) == cs@);
    }
    Color::rgb(median_of_u8(&rs), median_of_u8(&gs), median_of_u8(&bs))
}

pub open spec fn number_values(s: Seq<Number>) -> Seq<i64> {
    s.map_values(|n: Number| n.ten_thousandths)
}

/// The median of a list of numbers (the upper one for an even count);
/// zero for none.
pub open spec fn median_number_of(s: Seq<Number>) -> Number {
    if s.len() == 0 {
        Number { ten_thousandths: 0 }
    } else {
        Number { ten_thousandths: median_i64(number_values(s)) }
    }
}

/// The median of a list of numbers; zero for none.
pub fn median_number(v: &[Number]) -> (m: Number)
    ensures
        m == median_number_of(v@),
{
    if v.len() == 0 {
        return Number { ten_thousandths: 0 };
    }
    let mut xs: Vec<i64> = Vec::new();
    let mut k: usize = 0;
    while k < v.len()
        invariant
            0 <= k <= v@.len(),
            xs@ == number_values(v@.subrange(0, k as int)),
        decreases v@.len() - k,
    {
        xs.push(v[k].ten_thousandths);
        proof {
            assert(v@.subrange(0, k + 1) == v@.subrange(0, k as int).push(v@[k as int]));
        }
        k = k + 1;
    }
    proof {
        assert(v@.subrange(0, v@.len() as int) == v@);
    }
    Number { ten_thousandths: median_of_i64(&xs) }
}

/// `v` rounded to the nearest whole number, halves away from zero.
pub open spec fn round_half_away(v: int) -> int {
    if v >= 0 {
        (v + 5000) / 10000 * 10000
    } else {
        -((-v + 5000) / 10000 * 10000)
    }
}

/// Rounds to the nearest whole number, halves away from zero.
pub fn round_to_int(x: Number) -> (r: Number)
    requires
        coord_in_range(x),
    ensures
        r.ten_thousandths == round_half_away(x.ten_thousandths as int),
{
    let v = x.ten_thousandths;
    if v >= 0 {
        Number { ten_thousandths: (v + 5000) / 10000 * 10000 }
    } else {
        Number { ten_thousandths: -((-v + 5000) / 10000 * 10000) }
    }
}

// --------------------------------------------------------------------
// Motion
// --------------------------------------------------------------------

/// A move of more than 1.5 pixels, squared, in ten-thousandths squared.
pub const MOTION_THRESHOLD_SQ: i128 = 225_000_000;

/// The squared distance between two blob centres.
pub open spec fn center_dist_sq(a: Blob, b: Blob) -> int {
    let dx = b.cx.ten_thousandths - a.cx.ten_thousandths;
    let dy = b.cy.ten_thousandths - a.cy.ten_thousandths;
    dx * dx + dy * dy
}

/// Some blob lies more than 1.5 pixels from the first one.
pub open spec fn has_motion(blobs: Seq<(u32, Blob)>) -> bool {
    blobs.len() >= 2 && exists|i: int|
        0 <= i < blobs.len() && center_dist_sq(blobs[0].1, #[trigger] blobs[i].1)
            > MOTION_THRESHOLD_SQ
}

/// Whether the ball moves more than 1.5 pixels away from where it starts.
pub fn trajectory_has_motion(blobs: &[(u32, Blob)]) -> (r: bool)
    requires
        forall|i: int| 0 <= i < blobs@.len() ==> blob_in_range(#[trigger] blobs@[i].1),
    ensures
        r == has_motion(blobs@),
{
    if blobs.len() < 2 {
        return false;
    }
    let x0 = blobs[0].1.cx.ten_thousandths as i128;
    let y0 = blobs[0].1.cy.ten_thousandths as i128;
    let mut i: usize = 0;
    while i < blobs.len()
        invariant
            forall|q: int| 0 <= q < blobs@.len() ==> blob_in_range(#[trigger] blobs@[q].1),
            blobs@.len() >= 2,
            x0 == blobs@[0].1.cx.ten_thousandths,
            y0 == blobs@[0].1.cy.ten_thousandths,
            0 <= i <= blobs@.len(),
            forall|q: int|
                0 <= q < i ==> center_dist_sq(blobs@[0].1, #[trigger] blobs@[q].1)
                    <= MOTION_THRESHOLD_SQ,
        decreases blobs@.len() - i,
    {
        let b = blobs[i].1;
        let dx: i128 = b.cx.ten_thousandths as i128 - x0;
        let dy: i128 = b.cy.ten_thousandths as i128 - y0;
        proof {
            assert(dx * dx <= 0x1000_0000_0000_0000_0000_0000 && dy * dy
                <= 0x1000_0000_0000_0000_0000_0000) by (nonlinear_arith)
                requires
                    -0x2000_0000_0000 <= dx <= 0x2000_0000_0000,
                    -0x2000_0000_0000 <= dy <= 0x2000_0000_0000,
            ;
            assert(dx * dx >= 0 && dy * dy >= 0) by (nonlinear_arith);
        }
        if dx * dx + dy * dy > MOTION_THRESHOLD_SQ {
            assert(center_dist_sq(blobs@[0].1, blobs@[i as int].1) > MOTION_THRESHOLD_SQ);
            return true;
        }
        i = i + 1;
    }
    false
}

// --------------------------------------------------------------------
// Temporal Ramer-Douglas-Peucker on one coordinate
// --------------------------------------------------------------------

pub open spec fn abs_int(v: int) -> int {
    if v < 0 { -v } else { v }
}

/// The scale by which [`dev_1d`] exceeds the true deviation: the time
/// span of the chord from `s` to `e`, or 1 when the span is zero.
pub open spec fn scale_1d(ts: Seq<u32>, s: int, e: int) -> int {
    let dt = ts[e] - ts[s];
    if dt == 0 { 1 } else { abs_int(dt) }
}

/// Deviation of sample `i` from the straight line through samples `s`
/// and `e` of the signal `v(t)`, multiplied by [`scale_1d`]. When the
/// chord spans no time, the deviation is the distance from `v(s)`.
pub open spec fn dev_1d(ts: Seq<u32>, vs: Seq<Number>, s: int, e: int, i: int) -> int {
    let dt = ts[e] - ts[s];
    let dv = vs[i].ten_thousandths - vs[s].ten_thousandths;
    if dt == 0 {
        abs_int(dv)
    } else {
        abs_int(dv * dt - (ts[i] - ts[s]) * (vs[e].ten_thousandths - vs[s].ten_thousandths))
    }
}

/// Over samples `s + 1 .. k`, the first sample of largest deviation from
/// the chord `s`–`e`, with that deviation; `(s, 0)` when none deviates.
pub open spec fn max_dev_1d(ts: Seq<u32>, vs: Seq<Number>, s: int, e: int, k: int) -> (int, int)
    decreases k - s,
{
    if k <= s + 1 {
        (s, 0)
    } else {
        let prev = max_dev_1d(ts, vs, s, e, k - 1);
        let d = dev_1d(ts, vs, s, e, k - 1);
        if d > prev.1 {
            (k - 1, d)
        } else {
            prev
        }
    }
}

proof fn lemma_max_dev_1d(ts: Seq<u32>, vs: Seq<Number>, s: int, e: int, k: int)
    requires
        s + 1 <= k,
    ensures
        max_dev_1d(ts, vs, s, e, k).1 >= 0,
        max_dev_1d(ts, vs, s, e, k).1 > 0 ==> s < max_dev_1d(ts, vs, s, e, k).0 < k,
        max_dev_1d(ts, vs, s, e, k).1 == 0 ==> max_dev_1d(ts, vs, s, e, k).0 == s,
        max_dev_1d(ts, vs, s, e, k).1 > 0 ==> max_dev_1d(ts, vs, s, e, k).1 == dev_1d(
            ts,
            vs,
            s,
            e,
            max_dev_1d(ts, vs, s, e, k).0,
        ),
        forall|i: int| s < i < k ==> #[trigger] dev_1d(ts, vs, s, e, i) <= max_dev_1d(ts, vs, s, e, k).1,
    decreases k - s,
{
    if k > s + 1 {
        lemma_max_dev_1d(ts, vs, s, e, k - 1);
    }
}

/// Indices strictly between `s` and `e` that the simplification keeps: the
/// sample of largest deviation if it exceeds the tolerance `tol`, and,
/// recursively, those kept on each side of it.
pub open spec fn rdp_1d_kept(ts: Seq<u32>, vs: Seq<Number>, s: int, e: int, tol: int) -> Set<int>
    decreases e - s,
{
    if e <= s + 1 {
        Set::empty()
    } else {
        let (m, d) = max_dev_1d(ts, vs, s, e, e);
        if d > tol * scale_1d(ts, s, e) && s < m < e {
            rdp_1d_kept(ts, vs, s, m, tol).union(rdp_1d_kept(ts, vs, m, e, tol)).insert(m)
        } else {
            Set::empty()
        }
    }
}

/// Which samples the simplification keeps: all of them when there are
/// fewer than three, else the two ends and [`rdp_1d_kept`] between them.
pub open spec fn rdp_1d_mask(ts: Seq<u32>, vs: Seq<Number>, tol: int) -> Seq<bool> {
    let n = vs.len() as int;
    Seq::new(
        vs.len(),
        |i: int| n < 3 || i == 0 || i == n - 1 || rdp_1d_kept(ts, vs, 0, n - 1, tol).contains(i),
    )
}

/// The indices at which `mask` holds, in ascending order.
pub open spec fn true_indices(mask: Seq<bool>) -> Seq<usize>
    decreases mask.len(),
{
    if mask.len() == 0 {
        Seq::empty()
    } else {
        let rest = true_indices(mask.drop_last());
        if mask.last() {
            rest.push((mask.len() - 1) as usize)
        } else {
            rest
        }
    }
}

/// Bounds on the inputs that keep the integer arithmetic in range.
pub open spec fn signal_in_range(ts: Seq<u32>, vs: Seq<Number>, tol: Number) -> bool {
    &&& ts.len() == vs.len()
    &&& forall|i: int| 0 <= i < vs.len() ==> coord_in_range(#[trigger] vs[i])
    &&& 0 <= tol.ten_thousandths <= COORD_LIMIT
}

/// [`dev_1d`] computed exactly.
fn deviation_1d(times: &[u32], values: &[Number], s: usize, e: usize, i: usize) -> (d: i128)
    requires
        signal_in_range(times@, values@, Number { ten_thousandths: 0 }),
        s < values@.len(),
        e < values@.len(),
        i < values@.len(),
    ensures
        d == dev_1d(times@, values@, s as int, e as int, i as int),
        0 <= d <= 0x1_0000_0000_0000_0000_0000,
{
    let dt: i128 = times[e] as i128 - times[s] as i128;
    let dv: i128 = values[i].ten_thousandths as i128 - values[s].ten_thousandths as i128;
    proof {
        assert(coord_in_range(values@[i as int]));
        assert(coord_in_range(values@[s as int]));
        assert(coord_in_range(values@[e as int]));
    }
    if dt == 0 {
        if dv < 0 {
            -dv
        } else {
            dv
        }
    } else {
        let ti: i128 = times[i] as i128 - times[s] as i128;
        let span: i128 = values[e].ten_thousandths as i128 - values[s].ten_thousandths as i128;
        proof {
            assert(-0x4000_0000_0000_0000_0000 <= dv * dt <= 0x4000_0000_0000_0000_0000)
                by (nonlinear_arith)
                requires
                    -0x2000_0000_0000 <= dv <= 0x2000_0000_0000,
                    -0x1_0000_0000 <= dt <= 0x1_0000_0000,
            ;
            assert(-0x4000_0000_0000_0000_0000 <= ti * span <= 0x4000_0000_0000_0000_0000)
                by (nonlinear_arith)
                requires
                    -0x2000_0000_0000 <= span <= 0x2000_0000_0000,
                    -0x1_0000_0000 <= ti <= 0x1_0000_0000,
            ;
        }
        let num: i128 = dv * dt - ti * span;
        if num < 0 {
            -num
        } else {
            num
        }
    }
}

/// [`scale_1d`] computed exactly.
fn chord_scale(times: &[u32], s: usize, e: usize) -> (r: i128)
    requires
        s < times@.len(),
        e < times@.len(),
    ensures
        r == scale_1d(times@, s as int, e as int),
        1 <= r <= 0x1_0000_0000,
{
    let dt: i128 = times[e] as i128 - times[s] as i128;
    if dt == 0 {
        1
    } else if dt < 0 {
        -dt
    } else {
        dt
    }
}

/// Marks in `keep` the indices that the simplification keeps strictly
/// between `start` and `end`.
fn rdp_1d_recurse(
    times: &[u32],
    values: &[Number],
    start: usize,
    end: usize,
    tol: Number,
    keep: &mut Vec<bool>,
)
    requires
        signal_in_range(times@, values@, tol),
        start < end < values@.len(),
        old(keep)@.len() == values@.len(),
    ensures
        final(keep)@.len() == values@.len(),
        forall|i: int|
            0 <= i < values@.len() ==> #[trigger] final(keep)@[i] == (old(keep)@[i] || rdp_1d_kept(
                times@,
                values@,
                start as int,
                end as int,
                tol.ten_thousandths as int,
            ).contains(i)),
    decreases end - start,
{
    let ghost tl = tol.ten_thousandths as int;
    if end <= start + 1 {
        return;
    }
    let mut max_dev: i128 = 0;
    let mut max_idx: usize = start;
    let mut i: usize = start + 1;
    while i < end
        invariant
            signal_in_range(times@, values@, tol),
            start < end < values@.len(),
            start + 1 <= i <= end,
            (max_idx as int, max_dev as int) == max_dev_1d(times@, values@, start as int, end as int, i as int),
        decreases end - i,
    {
        let d = deviation_1d(times, values, start, end, i);
        if d > max_dev {
            max_dev = d;
            max_idx = i;
        }
        i = i + 1;
    }
    let scale = chord_scale(times, start, end);
    proof {
        lemma_max_dev_1d(times@, values@, start as int, end as int, end as int);
        assert(0 <= tol.ten_thousandths * scale <= 0x1000_0000_0000 * 0x1_0000_0000) by (nonlinear_arith)
            requires
                0 <= tol.ten_thousandths <= 0x1000_0000_0000,
                1 <= scale <= 0x1_0000_0000,
        ;
    }
    if max_dev > tol.ten_thousandths as i128 * scale {
        keep.set(max_idx, true);
        let ghost k0 = keep@;
        rdp_1d_recurse(times, values, start, max_idx, tol, keep);
        let ghost k1 = keep@;
        rdp_1d_recurse(times, values, max_idx, end, tol, keep);
        proof {
            let ks = rdp_1d_kept(times@, values@, start as int, end as int, tl);
            let k_left = rdp_1d_kept(times@, values@, start as int, max_idx as int, tl);
            let k_right = rdp_1d_kept(times@, values@, max_idx as int, end as int, tl);
            assert(ks == k_left.union(k_right).insert(max_idx as int));
            assert forall|q: int| 0 <= q < values@.len() implies #[trigger] keep@[q] == (old(keep)@[q]
                || ks.contains(q)) by {
                assert(k1[q] == (k0[q] || k_left.contains(q)));
                assert(keep@[q] == (k1[q] || k_right.contains(q)));
            }
        }
    } else {
        proof {
            assert(rdp_1d_kept(times@, values@, start as int, end as int, tl) =~= Set::empty());
        }
    }
}

/// The indices at which `mask` holds, ascending.
pub fn collect_true(mask: &Vec<bool>) -> (r: Vec<usize>)
    ensures
        r@ == true_indices(mask@),
{
    let mut r: Vec<usize> = Vec::new();
    let mut i: usize = 0;
    while i < mask.len()
        invariant
            0 <= i <= mask@.len(),
            r@ == true_indices(mask@.subrange(0, i as int)),
        decreases mask@.len() - i,
    {
        proof {
            assert(mask@.subrange(0, i + 1).drop_last() == mask@.subrange(0, i as int));
        }
        if mask[i] {
            r.push(i);
        }
        i = i + 1;
    }
    proof {
        assert(mask@.subrange(0, mask@.len() as int) == mask@);
    }
    r
}

/// Which samples the 1-D simplification keeps, as a mask.
fn rdp_1d_keep(times: &[u32], values: &[Number], tol: Number) -> (keep: Vec<bool>)
    requires
        signal_in_range(times@, values@, tol),
    ensures
        keep@ == rdp_1d_mask(times@, values@, tol.ten_thousandths as int),
{
    let n = values.len();
    let mut keep: Vec<bool> = Vec::new();
    let mut k: usize = 0;
    while k < n
        invariant
            n == values@.len(),
            0 <= k <= n,
            keep@.len() == k,
            forall|q: int| 0 <= q < k ==> keep@[q] == (n < 3 || q == 0 || q == n - 1),
        decreases n - k,
    {
        keep.push(n < 3 || k == 0 || k == n - 1);
        k = k + 1;
    }
    if n >= 3 {
        rdp_1d_recurse(times, values, 0, n - 1, tol, &mut keep);
    }
    assert(keep@ =~= rdp_1d_mask(times@, values@, tol.ten_thousandths as int));
    keep
}

/// Ramer-Douglas-Peucker on the signal `v(t)`: the deviation of a sample is
/// its distance from the straight-line interpolation between the chord's
/// ends, independent of the time axis' scale. Returns the kept indices in
/// ascending order.
pub fn rdp_1d(times: &[u32], values: &[Number], tol: Number) -> (kept: Vec<usize>)
    requires
        signal_in_range(times@, values@, tol),
    ensures
        kept@ == true_indices(rdp_1d_mask(times@, values@, tol.ten_thousandths as int)),
{
    let keep = rdp_1d_keep(times, values, tol);
    collect_true(&keep)
}

proof fn lemma_rdp_1d_kept_range(ts: Seq<u32>, vs: Seq<Number>, s: int, e: int, tol: int)
    ensures
        forall|x: int| #[trigger] rdp_1d_kept(ts, vs, s, e, tol).contains(x) ==> s < x < e,
    decreases e - s,
{
    if e > s + 1 {
        let (m, d) = max_dev_1d(ts, vs, s, e, e);
        if d > tol * scale_1d(ts, s, e) && s < m < e {
            lemma_rdp_1d_kept_range(ts, vs, s, m, tol);
            lemma_rdp_1d_kept_range(ts, vs, m, e, tol);
            assert(rdp_1d_kept(ts, vs, s, e, tol) == rdp_1d_kept(ts, vs, s, m, tol).union(
                rdp_1d_kept(ts, vs, m, e, tol),
            ).insert(m));
        } else {
            assert(rdp_1d_kept(ts, vs, s, e, tol) =~= Set::empty());
        }
    } else {
        assert(rdp_1d_kept(ts, vs, s, e, tol) =~= Set::empty());
    }
}

proof fn lemma_rdp_1d_gap(ts: Seq<u32>, vs: Seq<Number>, s: int, e: int, tol: int, a: int, b: int, i: int)
    requires
        tol >= 0,
        s <= a < i < b <= e,
        a == s || rdp_1d_kept(ts, vs, s, e, tol).contains(a),
        b == e || rdp_1d_kept(ts, vs, s, e, tol).contains(b),
        forall|j: int| a < j < b ==> !(#[trigger] rdp_1d_kept(ts, vs, s, e, tol).contains(j)),
    ensures
        dev_1d(ts, vs, a, b, i) <= tol * scale_1d(ts, a, b),
    decreases e - s,
{
    let (m, d) = max_dev_1d(ts, vs, s, e, e);
    lemma_max_dev_1d(ts, vs, s, e, e);
    lemma_rdp_1d_kept_range(ts, vs, s, e, tol);
    if d > tol * scale_1d(ts, s, e) && s < m < e {
        let kl = rdp_1d_kept(ts, vs, s, m, tol);
        let kr = rdp_1d_kept(ts, vs, m, e, tol);
        lemma_rdp_1d_kept_range(ts, vs, s, m, tol);
        lemma_rdp_1d_kept_range(ts, vs, m, e, tol);
        assert(rdp_1d_kept(ts, vs, s, e, tol) == kl.union(kr).insert(m));
        assert(rdp_1d_kept(ts, vs, s, e, tol).contains(m));
        if b <= m {
            assert forall|j: int| a < j < b implies !(#[trigger] kl.contains(j)) by {
                assert(!rdp_1d_kept(ts, vs, s, e, tol).contains(j));
            }
            if a != s {
                assert(!kr.contains(a));
            }
            if b != m {
                assert(!kr.contains(b));
            }
            lemma_rdp_1d_gap(ts, vs, s, m, tol, a, b, i);
        } else {
            assert(a >= m) by {
                if a < m {
                    assert(!rdp_1d_kept(ts, vs, s, e, tol).contains(m));
                }
            }
            assert forall|j: int| a < j < b implies !(#[trigger] kr.contains(j)) by {
                assert(!rdp_1d_kept(ts, vs, s, e, tol).contains(j));
            }
            if a != m {
                assert(!kl.contains(a));
            }
            if b != e {
                assert(!kl.contains(b));
            }
            lemma_rdp_1d_gap(ts, vs, m, e, tol, a, b, i);
        }
    } else {
        assert(rdp_1d_kept(ts, vs, s, e, tol) =~= Set::empty());
        assert(dev_1d(ts, vs, s, e, i) <= d);
        assert(d >= 0);
    }
}

/// Between two consecutive kept samples `a` and `b`, every dropped sample
/// lies within `tol` of the straight line through them (the deviation
/// [`dev_1d`] is scaled by [`scale_1d`]).
pub proof fn lemma_rdp_1d_within_tolerance(
    ts: Seq<u32>,
    vs: Seq<Number>,
    tol: int,
    a: int,
    b: int,
    i: int,
)
    requires
        tol >= 0,
        0 <= a < i < b < vs.len(),
        rdp_1d_mask(ts, vs, tol)[a],
        rdp_1d_mask(ts, vs, tol)[b],
        forall|j: int| a < j < b ==> !(#[trigger] rdp_1d_mask(ts, vs, tol)[j]),
    ensures
        dev_1d(ts, vs, a, b, i) <= tol * scale_1d(ts, a, b),
{
    let n = vs.len() as int;
    let k = rdp_1d_kept(ts, vs, 0, n - 1, tol);
    assert(!rdp_1d_mask(ts, vs, tol)[i]);
    lemma_rdp_1d_kept_range(ts, vs, 0, n - 1, tol);
    assert forall|j: int| a < j < b implies !(#[trigger] k.contains(j)) by {
        assert(!rdp_1d_mask(ts, vs, tol)[j]);
    }
    lemma_rdp_1d_gap(ts, vs, 0, n - 1, tol, a, b, i);
}

/// The simplification keeps the first and the last sample.
pub proof fn lemma_rdp_1d_keeps_ends(ts: Seq<u32>, vs: Seq<Number>, tol: int)
    requires
        vs.len() >= 1,
    ensures
        rdp_1d_mask(ts, vs, tol)[0],
        rdp_1d_mask(ts, vs, tol)[vs.len() - 1],
{
}

// --------------------------------------------------------------------
// Temporal-aware trajectory simplification
// --------------------------------------------------------------------

pub open spec fn track_times(blobs: Seq<(u32, Blob)>) -> Seq<u32> {
    blobs.map_values(|p: (u32, Blob)| p.0)
}

pub open spec fn track_xs(blobs: Seq<(u32, Blob)>) -> Seq<Number> {
    blobs.map_values(|p: (u32, Blob)| p.1.cx)
}

pub open spec fn track_ys(blobs: Seq<(u32, Blob)>) -> Seq<Number> {
    blobs.map_values(|p: (u32, Blob)| p.1.cy)
}

/// The samples kept by the 1-D simplification of `x(t)` or by that of
/// `y(t)`.
pub open spec fn trajectory_mask(blobs: Seq<(u32, Blob)>, tol: int) -> Seq<bool> {
    Seq::new(
        blobs.len(),
        |i: int|
            rdp_1d_mask(track_times(blobs), track_xs(blobs), tol)[i] || rdp_1d_mask(
                track_times(blobs),
                track_ys(blobs),
                tol,
            )[i],
    )
}

/// Sample `i` of the signal `v(t)` lies within `tol` of the straight line
/// through samples `a` and `b`: `|v(i) - v(a) - (t(i) - t(a)) · (v(b) -
/// v(a)) / (t(b) - t(a))| <= tol`, multiplied out by `|t(b) - t(a)|`;
/// within `tol` of `v(a)` when the two share a time.
pub open spec fn near_chord(ts: Seq<u32>, vs: Seq<Number>, a: int, b: int, i: int, tol: int) -> bool {
    let dt = ts[b] - ts[a];
    let dv = vs[i].ten_thousandths - vs[a].ten_thousandths;
    if dt == 0 {
        -tol <= dv <= tol
    } else {
        let dev = dv * dt - (ts[i] - ts[a]) * (vs[b].ten_thousandths - vs[a].ten_thousandths);
        let span = if dt < 0 { -dt } else { dt };
        -tol * span <= dev <= tol * span
    }
}

/// The last index before `k` where `m` holds; `-1` if none.
pub open spec fn last_true_before(m: Seq<bool>, k: int) -> int
    decreases k,
{
    if k <= 0 {
        -1
    } else if m[k - 1] {
        k - 1
    } else {
        last_true_before(m, k - 1)
    }
}

/// The first index from `k` on where `m` holds; `m.len()` if none.
pub open spec fn first_true_from(m: Seq<bool>, k: int) -> int
    decreases m.len() - k,
{
    if k >= m.len() {
        m.len() as int
    } else if m[k] {
        k
    } else {
        first_true_from(m, k + 1)
    }
}

proof fn lemma_last_true_before(m: Seq<bool>, k: int)
    requires
        0 < k <= m.len(),
        m[0],
    ensures
        0 <= last_true_before(m, k) < k,
        m[last_true_before(m, k)],
        forall|j: int| last_true_before(m, k) < j < k ==> !#[trigger] m[j],
    decreases k,
{
    if k > 1 && !m[k - 1] {
        lemma_last_true_before(m, k - 1);
    }
}

proof fn lemma_first_true_from(m: Seq<bool>, k: int)
    requires
        0 <= k < m.len(),
        m[m.len() - 1],
    ensures
        k <= first_true_from(m, k) < m.len(),
        m[first_true_from(m, k)],
        forall|j: int| k <= j < first_true_from(m, k) ==> !#[trigger] m[j],
    decreases m.len() - k,
{
    if k < m.len() - 1 && !m[k] {
        lemma_first_true_from(m, k + 1);
    }
}

/// [`near_chord`] is [`dev_1d`] within the tolerance.
proof fn lemma_near_chord_dev(ts: Seq<u32>, vs: Seq<Number>, a: int, b: int, i: int, tol: int)
    requires
        tol >= 0,
    ensures
        near_chord(ts, vs, a, b, i, tol) <==> dev_1d(ts, vs, a, b, i) <= tol * scale_1d(ts, a, b),
{
    let dt = ts[b] - ts[a];
    let dv = vs[i].ten_thousandths - vs[a].ten_thousandths;
    if dt != 0 {
        let dev = dv * dt - (ts[i] - ts[a]) * (vs[b].ten_thousandths - vs[a].ten_thousandths);
        let span = if dt < 0 { -dt } else { dt };
        assert(scale_1d(ts, a, b) == span);
        assert(dev_1d(ts, vs, a, b, i) == abs_int(dev));
        assert((-tol * span <= dev <= tol * span) <==> abs_int(dev) <= tol * span) by (nonlinear_arith)
            requires
                abs_int(dev) == if dev < 0 { -dev } else { dev },
        ;
    }
}

/// Every sample that the 1-D simplification keeps between `s` and `e`
/// deviates by more than the tolerance from the chord through two samples
/// around it that are kept too (or are `s` and `e`).
proof fn lemma_rdp_1d_kept_needed(ts: Seq<u32>, vs: Seq<Number>, s: int, e: int, tol: int, k: int)
    requires
        tol >= 0,
        rdp_1d_kept(ts, vs, s, e, tol).contains(k),
    ensures
        exists|a: int, b: int|
            s <= a < k < b <= e && (a == s || rdp_1d_kept(ts, vs, s, e, tol).contains(a)) && (b == e
                || rdp_1d_kept(ts, vs, s, e, tol).contains(b)) && #[trigger] dev_1d(ts, vs, a, b, k) > tol
                * scale_1d(ts, a, b),
    decreases e - s,
{
    let (m, d) = max_dev_1d(ts, vs, s, e, e);
    let kept = rdp_1d_kept(ts, vs, s, e, tol);
    lemma_max_dev_1d(ts, vs, s, e, e);
    assert(d > tol * scale_1d(ts, s, e) && s < m < e);
    let left = rdp_1d_kept(ts, vs, s, m, tol);
    let right = rdp_1d_kept(ts, vs, m, e, tol);
    assert(kept == left.union(right).insert(m));
    if k == m {
        assert(scale_1d(ts, s, e) >= 1);
        assert(tol * scale_1d(ts, s, e) >= 0) by (nonlinear_arith)
            requires
                tol >= 0,
                scale_1d(ts, s, e) >= 1,
        ;
        assert(dev_1d(ts, vs, s, e, m) == d);
        assert(dev_1d(ts, vs, s, e, k) > tol * scale_1d(ts, s, e));
    } else if left.contains(k) {
        lemma_rdp_1d_kept_needed(ts, vs, s, m, tol, k);
        let (a, b) = choose|a: int, b: int|
            s <= a < k < b <= m && (a == s || left.contains(a)) && (b == m || left.contains(b))
                && #[trigger] dev_1d(ts, vs, a, b, k) > tol * scale_1d(ts, a, b);
        assert(a == s || kept.contains(a));
        assert(kept.contains(b));
    } else {
        assert(right.contains(k));
        lemma_rdp_1d_kept_needed(ts, vs, m, e, tol, k);
        let (a, b) = choose|a: int, b: int|
            m <= a < k < b <= e && (a == m || right.contains(a)) && (b == e || right.contains(b))
                && #[trigger] dev_1d(ts, vs, a, b, k) > tol * scale_1d(ts, a, b);
        assert(kept.contains(a));
        assert(b == e || kept.contains(b));
    }
}

/// A sample that the 1-D simplification of `v(t)` drops lies within `tol`
/// of the chord through two samples that it keeps, one on each side.
proof fn lemma_dropped_near_kept_chord(ts: Seq<u32>, vs: Seq<Number>, tol: int, i: int) -> (ab: (int, int))
    requires
        tol >= 0,
        0 <= i < vs.len(),
        ts.len() == vs.len(),
        !rdp_1d_mask(ts, vs, tol)[i],
    ensures
        0 <= ab.0 < i < ab.1 < vs.len(),
        rdp_1d_mask(ts, vs, tol)[ab.0],
        rdp_1d_mask(ts, vs, tol)[ab.1],
        near_chord(ts, vs, ab.0, ab.1, i, tol),
{
    let m = rdp_1d_mask(ts, vs, tol);
    let n = vs.len() as int;
    lemma_rdp_1d_keeps_ends(ts, vs, tol);
    lemma_last_true_before(m, i);
    lemma_first_true_from(m, i + 1);
    let a = last_true_before(m, i);
    let b = first_true_from(m, i + 1);
    assert forall|j: int| a < j < b implies !(#[trigger] m[j]) by {
        if j < i {
        } else if j > i {
        }
    }
    lemma_rdp_1d_within_tolerance(ts, vs, tol, a, b, i);
    let dt = ts[b] - ts[a];
    let dv = vs[i].ten_thousandths - vs[a].ten_thousandths;
    assert(dev_1d(ts, vs, a, b, i) <= tol * scale_1d(ts, a, b));
    if dt == 0 {
        assert(scale_1d(ts, a, b) == 1);
        assert(abs_int(dv) <= tol);
    } else {
        let dev = dv * dt - (ts[i] - ts[a]) * (vs[b].ten_thousandths - vs[a].ten_thousandths);
        assert(dev_1d(ts, vs, a, b, i) == abs_int(dev));
        assert(scale_1d(ts, a, b) == abs_int(dt));
        let span = if dt < 0 { -dt } else { dt };
        assert(span == abs_int(dt));
        assert(abs_int(dev) <= tol * span);
        assert(-tol * span <= dev <= tol * span) by (nonlinear_arith)
            requires
                abs_int(dev) <= tol * span,
                abs_int(dev) == if dev < 0 { -dev } else { dev },
        ;
    }
    assert(near_chord(ts, vs, a, b, i, tol));
    (a, b)
}

/// Every sample that the keyframe simplification keeps, other than the
/// first and the last, was needed: it lies farther than `tol` from the
/// chord through two kept samples around it, in `x(t)` or in `y(t)`.
pub proof fn lemma_trajectory_keeps_only_needed(blobs: Seq<(u32, Blob)>, tol: int, i: int)
    requires
        tol >= 0,
        blobs.len() <= usize::MAX,
        0 < i < blobs.len() - 1,
        true_indices(trajectory_mask(blobs, tol)).contains(i as usize),
    ensures
        exists|a: int, b: int|
            0 <= a < i < b < blobs.len() && true_indices(trajectory_mask(blobs, tol)).contains(a as usize)
                && true_indices(trajectory_mask(blobs, tol)).contains(b as usize) && (!near_chord(
                track_times(blobs),
                track_xs(blobs),
                a,
                b,
                i,
                tol,
            ) || !near_chord(track_times(blobs), track_ys(blobs), a, b, i, tol)),
{
    let m = trajectory_mask(blobs, tol);
    let ts = track_times(blobs);
    let xs = track_xs(blobs);
    let ys = track_ys(blobs);
    let n = blobs.len() as int;
    let kept = true_indices(m);
    lemma_true_indices(m);
    let j = choose|j: int| 0 <= j < kept.len() && kept[j] == i as usize;
    assert(m[i]);
    let vs = if rdp_1d_mask(ts, xs, tol)[i] { xs } else { ys };
    assert(rdp_1d_mask(ts, vs, tol)[i]);
    let kx = rdp_1d_kept(ts, vs, 0, n - 1, tol);
    assert(n >= 3);
    assert(kx.contains(i));
    lemma_rdp_1d_kept_needed(ts, vs, 0, n - 1, tol, i);
    let (a, b) = choose|a: int, b: int|
        0 <= a < i < b <= n - 1 && (a == 0 || kx.contains(a)) && (b == n - 1 || kx.contains(b))
            && #[trigger] dev_1d(ts, vs, a, b, i) > tol * scale_1d(ts, a, b);
    assert(rdp_1d_mask(ts, vs, tol)[a] && rdp_1d_mask(ts, vs, tol)[b]);
    assert(m[a] && m[b]);
    lemma_near_chord_dev(ts, vs, a, b, i, tol);
    assert(!near_chord(ts, vs, a, b, i, tol));
    assert(kept.contains(a as usize) && kept.contains(b as usize));
}

/// The keyframe simplification keeps the first and the last sample, and
/// every sample it drops lies within `tol` of the chord through two kept
/// samples on either side of it, in `y(t)` as well as in `x(t)`.
pub proof fn lemma_trajectory_within_tolerance(blobs: Seq<(u32, Blob)>, tol: int, i: int)
    requires
        tol >= 0,
        blobs.len() <= usize::MAX,
        0 <= i < blobs.len(),
    ensures
        ({
            let kept = true_indices(trajectory_mask(blobs, tol));
            &&& kept.contains(0usize)
            &&& kept.contains((blobs.len() - 1) as usize)
            &&& !kept.contains(i as usize) ==> exists|a: int, b: int|
                0 <= a < i < b < blobs.len() && kept.contains(a as usize) && kept.contains(b as usize)
                    && #[trigger] near_chord(track_times(blobs), track_xs(blobs), a, b, i, tol)
            &&& !kept.contains(i as usize) ==> exists|a: int, b: int|
                0 <= a < i < b < blobs.len() && kept.contains(a as usize) && kept.contains(b as usize)
                    && #[trigger] near_chord(track_times(blobs), track_ys(blobs), a, b, i, tol)
        }),
{
    let m = trajectory_mask(blobs, tol);
    let ts = track_times(blobs);
    let xs = track_xs(blobs);
    let ys = track_ys(blobs);
    let kept = true_indices(m);
    lemma_true_indices(m);
    lemma_rdp_1d_keeps_ends(ts, xs, tol);
    assert(m[0]);
    assert(m[blobs.len() - 1]);
    if !kept.contains(i as usize) {
        assert(!m[i]);
        let (a, b) = lemma_dropped_near_kept_chord(ts, xs, tol, i);
        assert(m[a] && m[b]);
        assert(near_chord(ts, xs, a, b, i, tol));
        let (c, d) = lemma_dropped_near_kept_chord(ts, ys, tol, i);
        assert(m[c] && m[d]);
        assert(near_chord(ts, ys, c, d, i, tol));
    }
}

pub open spec fn track_in_range(blobs: Seq<(u32, Blob)>) -> bool {
    forall|i: int| 0 <= i < blobs.len() ==> blob_in_range(#[trigger] blobs[i].1)
}

/// Two independent 1-D simplifications, of `x(t)` and of `y(t)`; the
/// sorted union of the indices each keeps. Unlike a 2-D simplification of
/// `(x, y)`, this keeps the turning point of a back-and-forth motion
/// along one line.
pub fn simplify_trajectory(blobs: &[(u32, Blob)], tol: Number) -> (kept: Vec<usize>)
    requires
        track_in_range(blobs@),
        0 <= tol.ten_thousandths <= COORD_LIMIT,
    ensures
        kept@ == true_indices(trajectory_mask(blobs@, tol.ten_thousandths as int)),
{
    let n = blobs.len();
    let mut times: Vec<u32> = Vec::new();
    let mut xs: Vec<Number> = Vec::new();
    let mut ys: Vec<Number> = Vec::new();
    let mut k: usize = 0;
    while k < n
        invariant
            n == blobs@.len(),
            0 <= k <= n,
            times@ == track_times(blobs@).subrange(0, k as int),
            xs@ == track_xs(blobs@).subrange(0, k as int),
            ys@ == track_ys(blobs@).subrange(0, k as int),
        decreases n - k,
    {
        times.push(blobs[k].0);
        xs.push(blobs[k].1.cx);
        ys.push(blobs[k].1.cy);
        proof {
            assert(track_times(blobs@).subrange(0, k + 1) == track_times(blobs@).subrange(0, k as int).push(
                blobs@[k as int].0,
            ));
            assert(track_xs(blobs@).subrange(0, k + 1) == track_xs(blobs@).subrange(0, k as int).push(
                blobs@[k as int].1.cx,
            ));
            assert(track_ys(blobs@).subrange(0, k + 1) == track_ys(blobs@).subrange(0, k as int).push(
                blobs@[k as int].1.cy,
            ));
        }
        k = k + 1;
    }
    proof {
        assert(times@ == track_times(blobs@));
        assert(xs@ == track_xs(blobs@));
        assert(ys@ == track_ys(blobs@));
        assert forall|i: int| 0 <= i < xs@.len() implies coord_in_range(#[trigger] xs@[i]) by {
            assert(blob_in_range(blobs@[i].1));
        }
        assert forall|i: int| 0 <= i < ys@.len() implies coord_in_range(#[trigger] ys@[i]) by {
            assert(blob_in_range(blobs@[i].1));
        }
    }
    let kx = rdp_1d_keep(times.as_slice(), xs.as_slice(), tol);
    let ky = rdp_1d_keep(times.as_slice(), ys.as_slice(), tol);
    let mut both: Vec<bool> = Vec::new();
    let mut i: usize = 0;
    while i < n
        invariant
            n == blobs@.len(),
            kx@.len() == n,
            ky@.len() == n,
            0 <= i <= n,
            both@.len() == i,
            forall|q: int| 0 <= q < i ==> both@[q] == (kx@[q] || ky@[q]),
        decreases n - i,
    {
        both.push(kx[i] || ky[i]);
        i = i + 1;
    }
    assert(both@ =~= trajectory_mask(blobs@, tol.ten_thousandths as int));
    collect_true(&both)
}

// --------------------------------------------------------------------
// Easing classification
// --------------------------------------------------------------------

/// `dt² · ease(u / dt)` for elapsed time `u` (clamped to `0 ..= dt`) of a
/// span `dt`: the easing curve of the format, scaled to an integer.
pub open spec fn eased_scaled(e: Easing, u: int, dt: int) -> int {
    let u = if u < 0 { 0 } else if u > dt { dt } else { u };
    match e {
        Easing::Linear => u * dt,
        Easing::EaseIn => u * u,
        Easing::EaseOut => dt * dt - (dt - u) * (dt - u),
        Easing::EaseInOut => if 2 * u < dt {
            2 * u * u
        } else {
            dt * dt - 2 * (dt - u) * (dt - u)
        },
    }
}

/// Division rounding toward zero, for `b > 0`.
pub open spec fn trunc_div(a: int, b: int) -> int {
    if a >= 0 { a / b } else { -((-a) / b) }
}

/// Distance of the coordinate `c` from where the curve places it when it
/// goes from `c0` by `dc` with eased progress `p / dt²` (ten-thousandths of
/// a pixel, rounded toward zero).
pub open spec fn residual(c: int, c0: int, dc: int, p: int, dt: int) -> int {
    trunc_div((c - c0) * (dt * dt) - p * dc, dt * dt)
}

pub open spec fn sat_sub_u32(a: u32, b: u32) -> int {
    if a >= b { a - b } else { 0 }
}

/// Squared error of sample `j` against easing `e` on the segment from
/// sample `i0` to sample `i1`.
pub open spec fn sample_error(blobs: Seq<(u32, Blob)>, i0: int, i1: int, j: int, e: Easing) -> int {
    let (t0, b0) = blobs[i0];
    let (t1, b1) = blobs[i1];
    let (t, b) = blobs[j];
    let dt = sat_sub_u32(t1, t0);
    let p = eased_scaled(e, sat_sub_u32(t, t0), dt);
    let rx = residual(
        b.cx.ten_thousandths as int,
        b0.cx.ten_thousandths as int,
        b1.cx.ten_thousandths - b0.cx.ten_thousandths,
        p,
        dt,
    );
    let ry = residual(
        b.cy.ten_thousandths as int,
        b0.cy.ten_thousandths as int,
        b1.cy.ten_thousandths - b0.cy.ten_thousandths,
        p,
        dt,
    );
    rx * rx + ry * ry
}

/// A segment between kept samples `i0 < i1` is measured when it has
/// samples in between, spans at least 1 ms, and moves by at least one
/// pixel along some axis.
pub open spec fn segment_measured(blobs: Seq<(u32, Blob)>, i0: int, i1: int) -> bool {
    let (t0, b0) = blobs[i0];
    let (t1, b1) = blobs[i1];
    let dx = b1.cx.ten_thousandths - b0.cx.ten_thousandths;
    let dy = b1.cy.ten_thousandths - b0.cy.ten_thousandths;
    &&& i1 > i0 + 1
    &&& sat_sub_u32(t1, t0) >= 1
    &&& !(abs_int(dx) < 10000 && abs_int(dy) < 10000)
}

/// Sum of the squared errors of samples `i0 + 1 .. k` against `e`.
pub open spec fn segment_error(blobs: Seq<(u32, Blob)>, i0: int, i1: int, e: Easing, k: int) -> int
    decreases k - i0,
{
    if k <= i0 + 1 {
        0
    } else {
        segment_error(blobs, i0, i1, e, k - 1) + sample_error(blobs, i0, i1, k - 1, e)
    }
}

/// Squared error against `e`, summed over the measured segments among the
/// first `w` pairs of consecutive kept indices.
pub open spec fn easing_error(blobs: Seq<(u32, Blob)>, keep: Seq<usize>, e: Easing, w: int) -> int
    decreases w,
{
    if w <= 0 {
        0
    } else {
        let i0 = keep[w - 1] as int;
        let i1 = keep[w] as int;
        easing_error(blobs, keep, e, w - 1) + if segment_measured(blobs, i0, i1) {
            segment_error(blobs, i0, i1, e, i1)
        } else {
            0
        }
    }
}

/// Number of samples measured among the first `w` pairs.
pub open spec fn measured_samples(blobs: Seq<(u32, Blob)>, keep: Seq<usize>, w: int) -> int
    decreases w,
{
    if w <= 0 {
        0
    } else {
        let i0 = keep[w - 1] as int;
        let i1 = keep[w] as int;
        measured_samples(blobs, keep, w - 1) + if segment_measured(blobs, i0, i1) {
            i1 - i0 - 1
        } else {
            0
        }
    }
}

pub open spec fn window_count(keep: Seq<usize>) -> int {
    if keep.len() >= 2 { keep.len() - 1 } else { 0 }
}

/// The easing whose curve best fits the measured samples (least summed
/// squared error, earlier of `linear, ease-in, ease-out, ease-in-out` on
/// ties); `linear` unless the winner's error is at most 90% of linear's,
/// and `linear` when nothing was measured.
pub open spec fn classify_spec(blobs: Seq<(u32, Blob)>, keep: Seq<usize>) -> Easing {
    let w = window_count(keep);
    let e0 = easing_error(blobs, keep, Easing::Linear, w);
    let e1 = easing_error(blobs, keep, Easing::EaseIn, w);
    let e2 = easing_error(blobs, keep, Easing::EaseOut, w);
    let e3 = easing_error(blobs, keep, Easing::EaseInOut, w);
    let (b1, be1) = if e1 < e0 { (Easing::EaseIn, e1) } else { (Easing::Linear, e0) };
    let (b2, be2) = if e2 < be1 { (Easing::EaseOut, e2) } else { (b1, be1) };
    let (b3, be3) = if e3 < be2 { (Easing::EaseInOut, e3) } else { (b2, be2) };
    if measured_samples(blobs, keep, w) == 0 {
        Easing::Linear
    } else if b3 == Easing::Linear {
        Easing::Linear
    } else if e0 > 0 && be3 * 10 <= e0 * 9 {
        b3
    } else {
        Easing::Linear
    }
}

/// How the easing curves relate (all scaled by `dt²`, at elapsed time `u`
/// of a span `dt`): linear is the straight line `u·dt`; ease-in is the
/// parabola `u²`; ease-out is ease-in run backwards; ease-in-out is
/// point-symmetric about the middle of the span, and on its first half is
/// ease-in at twice the height.
pub proof fn lemma_easing_symmetries(u: int, dt: int)
    requires
        0 <= u <= dt,
    ensures
        eased_scaled(Easing::Linear, u, dt) == u * dt,
        eased_scaled(Easing::EaseIn, u, dt) == u * u,
        eased_scaled(Easing::EaseOut, u, dt) + eased_scaled(Easing::EaseIn, dt - u, dt) == dt * dt,
        eased_scaled(Easing::EaseInOut, u, dt) + eased_scaled(Easing::EaseInOut, dt - u, dt) == dt * dt,
        2 * u <= dt ==> eased_scaled(Easing::EaseInOut, u, dt) == 2 * eased_scaled(Easing::EaseIn, u, dt),
{
    let v = dt - u;
    assert(dt - v == u);
    if 2 * u < dt {
        assert(2 * v > dt);
        assert(eased_scaled(Easing::EaseInOut, v, dt) == dt * dt - 2 * (dt - v) * (dt - v));
        assert(eased_scaled(Easing::EaseInOut, u, dt) == 2 * u * u);
        assert(2 * u * u == 2 * (u * u)) by (nonlinear_arith);
    } else if 2 * u > dt {
        assert(2 * v < dt);
        assert(eased_scaled(Easing::EaseInOut, u, dt) == dt * dt - 2 * (dt - u) * (dt - u));
        assert(eased_scaled(Easing::EaseInOut, v, dt) == 2 * v * v);
    } else {
        assert(v == u);
        assert(eased_scaled(Easing::EaseInOut, u, dt) == dt * dt - 2 * u * u);
        assert(dt * dt - 2 * u * u + dt * dt - 2 * u * u == dt * dt) by (nonlinear_arith)
            requires
                2 * u == dt,
        ;
        assert(dt * dt - 2 * u * u == 2 * (u * u)) by (nonlinear_arith)
            requires
                2 * u == dt,
        ;
    }
}

pub proof fn lemma_eased_bounds(e: Easing, u: int, dt: int)
    requires
        dt >= 1,
    ensures
        0 <= eased_scaled(e, u, dt) <= dt * dt,
{
    let v = if u < 0 { 0 } else if u > dt { dt } else { u };
    assert(0 <= v <= dt);
    assert(0 <= v * dt <= dt * dt) by (nonlinear_arith)
        requires
            0 <= v <= dt,
    ;
    assert(0 <= v * v <= dt * dt) by (nonlinear_arith)
        requires
            0 <= v <= dt,
    ;
    assert(0 <= (dt - v) * (dt - v) <= dt * dt) by (nonlinear_arith)
        requires
            0 <= v <= dt,
    ;
    if 2 * v < dt {
        assert(0 <= 2 * v * v <= dt * dt) by (nonlinear_arith)
            requires
                0 <= v,
                2 * v < dt,
        ;
    } else {
        assert(0 <= 2 * (dt - v) * (dt - v) <= dt * dt) by (nonlinear_arith)
            requires
                v <= dt,
                2 * v >= dt,
        ;
    }
}

impl Easing {
    /// The easing curve at elapsed time `elapsed` of a span `span`:
    /// `span² · ease(elapsed / span)`, with the progress clamped to
    /// `0 ..= 1`.
    pub fn apply(&self, elapsed: u32, span: u32) -> (p: u64)
        requires
            span >= 1,
        ensures
            p == eased_scaled(*self, elapsed as int, span as int),
    {
        let u: i128 = if elapsed <= span { elapsed as i128 } else { span as i128 };
        let v = eased(*self, u, span as i128);
        proof {
            assert(span * span <= u64::MAX) by (nonlinear_arith)
                requires
                    span <= u32::MAX,
            ;
        }
        v as u64
    }
}

/// [`eased_scaled`] for `u <= dt <= u32::MAX`.
pub(crate) fn eased(e: Easing, u: i128, dt: i128) -> (p: i128)
    requires
        0 <= u <= dt,
        1 <= dt <= u32::MAX,
    ensures
        p == eased_scaled(e, u as int, dt as int),
        0 <= p <= dt * dt,
{
    proof {
        lemma_eased_bounds(e, u as int, dt as int);
        assert(dt * dt <= 0x1_0000_0000_0000_0000) by (nonlinear_arith)
            requires
                1 <= dt <= u32::MAX,
        ;
        assert(0 <= u * dt <= dt * dt && 0 <= u * u <= dt * dt) by (nonlinear_arith)
            requires
                0 <= u <= dt,
        ;
        assert(0 <= (dt - u) * (dt - u) <= dt * dt) by (nonlinear_arith)
            requires
                0 <= u <= dt,
        ;
    }
    match e {
        Easing::Linear => u * dt,
        Easing::EaseIn => u * u,
        Easing::EaseOut => dt * dt - (dt - u) * (dt - u),
        Easing::EaseInOut => {
            if 2 * u < dt {
                2 * u * u
            } else {
                dt * dt - 2 * (dt - u) * (dt - u)
            }
        },
    }
}

/// [`residual`] computed exactly.
#[verifier::spinoff_prover]
fn residual_of(c: i64, c0: i64, dc: i128, p: i128, dt: i128) -> (r: i128)
    requires
        -COORD_LIMIT <= c <= COORD_LIMIT,
        -COORD_LIMIT <= c0 <= COORD_LIMIT,
        -2 * COORD_LIMIT <= dc <= 2 * COORD_LIMIT,
        1 <= dt <= u32::MAX,
        0 <= p <= dt * dt,
    ensures
        r == residual(c as int, c0 as int, dc as int, p as int, dt as int),
        -0x4000_0000_0000 <= r <= 0x4000_0000_0000,
{
    proof {
        assert(dt * dt <= 0x1_0000_0000_0000_0000) by (nonlinear_arith)
            requires
                1 <= dt <= u32::MAX,
        ;
    }
    let d2: i128 = dt * dt;
    let diff: i128 = c as i128 - c0 as i128;
    proof {
        assert(1 <= d2 <= 0x1_0000_0000_0000_0000) by (nonlinear_arith)
            requires
                1 <= dt <= u32::MAX,
                d2 == dt * dt,
        ;
        assert(-0x2000_0000_0000 * d2 <= diff * d2 <= 0x2000_0000_0000 * d2) by (nonlinear_arith)
            requires
                -0x2000_0000_0000 <= diff <= 0x2000_0000_0000,
                d2 >= 1,
        ;
        assert(-0x2000_0000_0000 * d2 <= p * dc <= 0x2000_0000_0000 * d2) by (nonlinear_arith)
            requires
                -0x2000_0000_0000 <= dc <= 0x2000_0000_0000,
                0 <= p <= d2,
        ;
    }
    let num: i128 = diff * d2 - p * dc;
    proof {
        let x = diff * d2;
        let y = p * dc;
        assert(-0x4000_0000_0000 * d2 <= num <= 0x4000_0000_0000 * d2) by (nonlinear_arith)
            requires
                num == x - y,
                -0x2000_0000_0000 * d2 <= x <= 0x2000_0000_0000 * d2,
                -0x2000_0000_0000 * d2 <= y <= 0x2000_0000_0000 * d2,
        ;
    }
    if num >= 0 {
        proof {
            vstd::arithmetic::div_mod::lemma_div_is_ordered(num as int, 0x4000_0000_0000 * d2, d2 as int);
            vstd::arithmetic::div_mod::lemma_div_multiples_vanish(0x4000_0000_0000, d2 as int);
            vstd::arithmetic::div_mod::lemma_div_pos_is_pos(num as int, d2 as int);
        }
        num / d2
    } else {
        proof {
            vstd::arithmetic::div_mod::lemma_div_is_ordered(-num, 0x4000_0000_0000 * d2, d2 as int);
            vstd::arithmetic::div_mod::lemma_div_multiples_vanish(0x4000_0000_0000, d2 as int);
            vstd::arithmetic::div_mod::lemma_div_pos_is_pos(-num, d2 as int);
        }
        -((-num) / d2)
    }
}

/// [`sample_error`] computed exactly.
fn sample_err(blobs: &[(u32, Blob)], i0: usize, i1: usize, j: usize, e: Easing) -> (r: u128)
    requires
        track_in_range(blobs@),
        i0 < blobs@.len(),
        i1 < blobs@.len(),
        j < blobs@.len(),
        sat_sub_u32(blobs@[i1 as int].0, blobs@[i0 as int].0) >= 1,
    ensures
        r == sample_error(blobs@, i0 as int, i1 as int, j as int, e),
        r <= 0x2000_0000_0000_0000_0000_0000,
{
    let (t0, b0) = blobs[i0];
    let (t1, b1) = blobs[i1];
    let (t, b) = blobs[j];
    proof {
        assert(blob_in_range(blobs@[i0 as int].1));
        assert(blob_in_range(blobs@[i1 as int].1));
        assert(blob_in_range(blobs@[j as int].1));
    }
    let dt: i128 = t1 as i128 - t0 as i128;
    let u0: i128 = if t >= t0 { t as i128 - t0 as i128 } else { 0 };
    let u: i128 = if u0 > dt { dt } else { u0 };
    let p = eased(e, u, dt);
    proof {
        assert(eased_scaled(e, u as int, dt as int) == eased_scaled(e, sat_sub_u32(t, t0), dt as int));
    }
    let dx: i128 = b1.cx.ten_thousandths as i128 - b0.cx.ten_thousandths as i128;
    let dy: i128 = b1.cy.ten_thousandths as i128 - b0.cy.ten_thousandths as i128;
    let rx = residual_of(b.cx.ten_thousandths, b0.cx.ten_thousandths, dx, p, dt);
    let ry = residual_of(b.cy.ten_thousandths, b0.cy.ten_thousandths, dy, p, dt);
    proof {
        assert(0 <= rx * rx <= 0x1000_0000_0000_0000_0000_0000) by (nonlinear_arith)
            requires
                -0x4000_0000_0000 <= rx <= 0x4000_0000_0000,
        ;
        assert(0 <= ry * ry <= 0x1000_0000_0000_0000_0000_0000) by (nonlinear_arith)
            requires
                -0x4000_0000_0000 <= ry <= 0x4000_0000_0000,
        ;
    }
    (rx * rx + ry * ry) as u128
}

/// Bounds under which the classifier's sums stay in range: indices in
/// range and strictly increasing.
pub open spec fn keep_valid(blobs: Seq<(u32, Blob)>, keep: Seq<usize>) -> bool {
    &&& forall|i: int| 0 <= i < keep.len() ==> (#[trigger] keep[i] as int) < blobs.len()
    &&& forall|i: int, j: int| 0 <= i < j < keep.len() ==> #[trigger] keep[i] < #[trigger] keep[j]
}

/// Sum of `easing_error` bounds: each sample adds at most 2^93.
pub const SAMPLE_ERROR_BOUND: u128 = 0x2000_0000_0000_0000_0000_0000;

proof fn lemma_measured_nonneg(blobs: Seq<(u32, Blob)>, keep: Seq<usize>, w: int)
    ensures
        measured_samples(blobs, keep, w) >= 0,
    decreases w,
{
    if w > 0 {
        lemma_measured_nonneg(blobs, keep, w - 1);
    }
}

/// Position of an easing in the order `linear, ease-in, ease-out,
/// ease-in-out`, which breaks ties between equal errors.
pub open spec fn easing_rank(e: Easing) -> int {
    match e {
        Easing::Linear => 0,
        Easing::EaseIn => 1,
        Easing::EaseOut => 2,
        Easing::EaseInOut => 3,
    }
}

/// The classifier picks the easing whose template fits best. Writing
/// `err(e)` for the summed squared error of the measured samples against
/// `e`: a result other than linear has the least error of all four
/// templates (strictly less than those before it in the order), at most
/// 90% of linear's, and something was measured; a result of linear, when
/// something was measured and linear's error is not zero, means that no
/// template comes within 90% of linear's error.
pub proof fn lemma_classify_least_error(blobs: Seq<(u32, Blob)>, keep: Seq<usize>)
    ensures
        ({
            let r = classify_spec(blobs, keep);
            let w = window_count(keep);
            let lin = easing_error(blobs, keep, Easing::Linear, w);
            &&& r != Easing::Linear ==> {
                &&& measured_samples(blobs, keep, w) > 0
                &&& easing_error(blobs, keep, r, w) * 10 <= lin * 9
                &&& forall|e: Easing| #[trigger] easing_error(blobs, keep, e, w) >= easing_error(blobs, keep, r, w)
                &&& forall|e: Easing|
                    easing_rank(e) < easing_rank(r) ==> #[trigger] easing_error(blobs, keep, e, w)
                        > easing_error(blobs, keep, r, w)
            }
            &&& r == Easing::Linear && measured_samples(blobs, keep, w) > 0 && lin > 0 ==> forall|e: Easing|
                #[trigger] easing_error(blobs, keep, e, w) * 10 > lin * 9
        }),
{
    let w = window_count(keep);
    let r = classify_spec(blobs, keep);
    let e0 = easing_error(blobs, keep, Easing::Linear, w);
    let e1 = easing_error(blobs, keep, Easing::EaseIn, w);
    let e2 = easing_error(blobs, keep, Easing::EaseOut, w);
    let e3 = easing_error(blobs, keep, Easing::EaseInOut, w);
    let (b1, be1) = if e1 < e0 { (Easing::EaseIn, e1) } else { (Easing::Linear, e0) };
    let (b2, be2) = if e2 < be1 { (Easing::EaseOut, e2) } else { (b1, be1) };
    let (b3, be3) = if e3 < be2 { (Easing::EaseInOut, e3) } else { (b2, be2) };
    assert(be3 <= e0 && be3 <= e1 && be3 <= e2 && be3 <= e3);
    assert(be3 == easing_error(blobs, keep, b3, w));
    assert(easing_rank(b3) >= 1 ==> be3 < e0);
    assert(easing_rank(b3) >= 2 ==> be3 < e1);
    assert(easing_rank(b3) >= 3 ==> be3 < e2);
    assert(b3 == Easing::Linear ==> be3 == e0);
    assert forall|e: Easing| #[trigger] easing_error(blobs, keep, e, w) >= be3 by {
        match e {
            Easing::Linear => {},
            Easing::EaseIn => {},
            Easing::EaseOut => {},
            Easing::EaseInOut => {},
        }
    }
    assert forall|e: Easing| easing_rank(e) < easing_rank(b3) implies #[trigger] easing_error(
        blobs,
        keep,
        e,
        w,
    ) > be3 by {
        match e {
            Easing::Linear => {},
            Easing::EaseIn => {},
            Easing::EaseOut => {},
            Easing::EaseInOut => {},
        }
    }
    lemma_measured_nonneg(blobs, keep, w);
    assert(r == classify_spec(blobs, keep));
    if r != Easing::Linear {
        assert(r == b3);
        assert(measured_samples(blobs, keep, w) > 0);
        assert(be3 * 10 <= e0 * 9);
        assert(easing_error(blobs, keep, r, w) == be3);
    }
    if r == Easing::Linear && measured_samples(blobs, keep, w) > 0 && e0 > 0 {
        assert(b3 == Easing::Linear || be3 * 10 > e0 * 9);
        assert forall|e: Easing| #[trigger] easing_error(blobs, keep, e, w) * 10 > e0 * 9 by {
            assert(easing_error(blobs, keep, e, w) >= be3);
        }
    }
}

/// Picks the easing whose curve best fits the motion between consecutive
/// kept keyframes; see [`classify_spec`].
pub fn classify_easing(blobs: &[(u32, Blob)], keep: &[usize]) -> (e: Easing)
    requires
        track_in_range(blobs@),
        blobs@.len() <= 0x8000_0000,
        keep_valid(blobs@, keep@),
    ensures
        e == classify_spec(blobs@, keep@),
{
    let mut e0: u128 = 0;
    let mut e1: u128 = 0;
    let mut e2: u128 = 0;
    let mut e3: u128 = 0;
    let mut samples: u64 = 0;
    let nw: usize = if keep.len() >= 2 { keep.len() - 1 } else { 0 };
    let mut w: usize = 0;
    while w < nw
        invariant
            track_in_range(blobs@),
            blobs@.len() <= 0x8000_0000,
            keep_valid(blobs@, keep@),
            nw == window_count(keep@),
            0 <= w <= nw,
            e0 == easing_error(blobs@, keep@, Easing::Linear, w as int),
            e1 == easing_error(blobs@, keep@, Easing::EaseIn, w as int),
            e2 == easing_error(blobs@, keep@, Easing::EaseOut, w as int),
            e3 == easing_error(blobs@, keep@, Easing::EaseInOut, w as int),
            samples == measured_samples(blobs@, keep@, w as int),
            w < keep@.len() ==> samples <= keep@[w as int],
            w >= keep@.len() ==> samples == 0,
            e0 <= samples * SAMPLE_ERROR_BOUND,
            e1 <= samples * SAMPLE_ERROR_BOUND,
            e2 <= samples * SAMPLE_ERROR_BOUND,
            e3 <= samples * SAMPLE_ERROR_BOUND,
        decreases nw - w,
    {
        let i0 = keep[w];
        let i1 = keep[w + 1];
        let (t0, b0) = blobs[i0];
        let (t1, b1) = blobs[i1];
        let dt: u32 = if t1 >= t0 { t1 - t0 } else { 0 };
        let dx: i128 = b1.cx.ten_thousandths as i128 - b0.cx.ten_thousandths as i128;
        let dy: i128 = b1.cy.ten_thousandths as i128 - b0.cy.ten_thousandths as i128;
        proof {
            assert(keep@[w as int] < keep@[w + 1]);
            assert(blob_in_range(blobs@[i0 as int].1));
            assert(blob_in_range(blobs@[i1 as int].1));
        }
        let small = (-10000 < dx && dx < 10000) && (-10000 < dy && dy < 10000);
        if i1 > i0 + 1 && dt >= 1 && !small {
            let mut s0: u128 = 0;
            let mut s1: u128 = 0;
            let mut s2: u128 = 0;
            let mut s3: u128 = 0;
            let mut j: usize = i0 + 1;
            while j < i1
                invariant
                    track_in_range(blobs@),
                    blobs@.len() <= 0x8000_0000,
                    i0 < i1 < blobs@.len(),
                    i0 + 1 <= j <= i1,
                    sat_sub_u32(blobs@[i1 as int].0, blobs@[i0 as int].0) >= 1,
                    s0 == segment_error(blobs@, i0 as int, i1 as int, Easing::Linear, j as int),
                    s1 == segment_error(blobs@, i0 as int, i1 as int, Easing::EaseIn, j as int),
                    s2 == segment_error(blobs@, i0 as int, i1 as int, Easing::EaseOut, j as int),
                    s3 == segment_error(blobs@, i0 as int, i1 as int, Easing::EaseInOut, j as int),
                    s0 <= (j - i0 - 1) * SAMPLE_ERROR_BOUND,
                    s1 <= (j - i0 - 1) * SAMPLE_ERROR_BOUND,
                    s2 <= (j - i0 - 1) * SAMPLE_ERROR_BOUND,
                    s3 <= (j - i0 - 1) * SAMPLE_ERROR_BOUND,
                decreases i1 - j,
            {
                s0 = s0 + sample_err(blobs, i0, i1, j, Easing::Linear);
                s1 = s1 + sample_err(blobs, i0, i1, j, Easing::EaseIn);
                s2 = s2 + sample_err(blobs, i0, i1, j, Easing::EaseOut);
                s3 = s3 + sample_err(blobs, i0, i1, j, Easing::EaseInOut);
                j = j + 1;
            }
            e0 = e0 + s0;
            e1 = e1 + s1;
            e2 = e2 + s2;
            e3 = e3 + s3;
            samples = samples + (i1 - i0 - 1) as u64;
        }
        proof {
            assert(segment_measured(blobs@, i0 as int, i1 as int) == (i1 > i0 + 1 && dt >= 1 && !small));
        }
        w = w + 1;
    }
    let mut best = Easing::Linear;
    let mut best_err = e0;
    if e1 < best_err {
        best = Easing::EaseIn;
        best_err = e1;
    }
    if e2 < best_err {
        best = Easing::EaseOut;
        best_err = e2;
    }
    if e3 < best_err {
        best = Easing::EaseInOut;
        best_err = e3;
    }
    if samples == 0 {
        return Easing::Linear;
    }
    match best {
        Easing::Linear => Easing::Linear,
        _ => {
            if e0 > 0 && best_err * 10 <= e0 * 9 {
                best
            } else {
                Easing::Linear
            }
        },
    }
}

/// [`true_indices`] lists, in strictly increasing order, exactly the
/// indices at which the mask holds.
pub proof fn lemma_true_indices(mask: Seq<bool>)
    requires
        mask.len() <= usize::MAX,
    ensures
        forall|i: int|
            0 <= i < true_indices(mask).len() ==> (#[trigger] true_indices(mask)[i] as int)
                < mask.len() && mask[true_indices(mask)[i] as int],
        forall|i: int, j: int|
            0 <= i < j < true_indices(mask).len() ==> #[trigger] true_indices(mask)[i]
                < #[trigger] true_indices(mask)[j],
        forall|k: int| 0 <= k < mask.len() && #[trigger] mask[k] ==> true_indices(mask).contains(k as usize),
    decreases mask.len(),
{
    if mask.len() > 0 {
        let rest = mask.drop_last();
        lemma_true_indices(rest);
        let r = true_indices(mask);
        let rr = true_indices(rest);
        assert(r == (if mask.last() { rr.push((mask.len() - 1) as usize) } else { rr }));
        assert forall|i: int| 0 <= i < r.len() implies (#[trigger] r[i] as int) < mask.len() && mask[r[i] as int] by {
            if i == rr.len() {
                assert(mask.last());
            }
            if i < rr.len() {
                assert(r[i] == rr[i]);
                assert(rest[rr[i] as int] == mask[rr[i] as int]);
            }
        }
        assert forall|i: int, j: int| 0 <= i < j < r.len() implies #[trigger] r[i] < #[trigger] r[j] by {
            if j < rr.len() {
                assert(rr[i] < rr[j]);
            } else {
                assert((rr[i] as int) < rest.len());
            }
        }
        assert forall|k: int| 0 <= k < mask.len() && #[trigger] mask[k] implies r.contains(k as usize) by {
            if k < mask.len() - 1 {
                assert(rest[k]);
                let q = choose|q: int| 0 <= q < true_indices(rest).len() && true_indices(rest)[q] == k as usize;
                assert(r[q] == k as usize);
            } else {
                assert(r[r.len() - 1] == k as usize);
            }
        }
    }
}

// --------------------------------------------------------------------
// The emitted document
// --------------------------------------------------------------------

/// Tolerance of the keyframe simplification: 2 pixels.
pub const RDP_TOLERANCE: i64 = 20000;

pub open spec fn name_bg() -> Seq<char> {
    seq!['b', 'g']
}

pub open spec fn name_main() -> Seq<char> {
    seq!['m', 'a', 'i', 'n']
}

/// The name of the shape of track `n`: `shape_<n>`.
pub open spec fn shape_name(n: nat) -> Seq<char> {
    seq!['s', 'h', 'a', 'p', 'e', '_'] + decimal(n)
}

pub open spec fn rounded(n: Number) -> Number {
    Number { ten_thousandths: round_half_away(n.ten_thousandths as int) as i64 }
}

/// The keyframe of sample `i`: its time since the first sample (0 for the
/// first) and its rounded position.
pub open spec fn keyframe_at(blobs: Seq<(u32, Blob)>, i: usize) -> KeyframeV {
    let (t, b) = blobs[i as int];
    KeyframeV {
        time_ms: if i == 0 { 0 } else { sat_sub_u32(t, blobs[0].0) as u32 },
        transforms: seq![Transform::Position(rounded(b.cx), rounded(b.cy))],
    }
}

/// The keyframes that the simplification keeps.
pub open spec fn track_keep(blobs: Seq<(u32, Blob)>) -> Seq<usize> {
    true_indices(trajectory_mask(blobs, RDP_TOLERANCE as int))
}

/// The shape of one track, named `name`: an ellipse at the first rounded
/// position with the rounded median radius, filled with the median colour,
/// no stroke, and animated through the kept keyframes when it moves.
pub open spec fn shape_statements(name: Seq<char>, blobs: Seq<(u32, Blob)>) -> Seq<StatementV> {
    let radius = rounded(median_number_of(blobs.map_values(|p: (u32, Blob)| p.1.radius)));
    let color = median_color_of(blobs.map_values(|p: (u32, Blob)| p.1.color));
    let first = blobs[0].1;
    let keep = track_keep(blobs);
    let base = seq![
        StatementV::Let {
            name,
            shape: Shape::Ellipse { cx: rounded(first.cx), cy: rounded(first.cy), rx: radius, ry: radius },
        },
        StatementV::Assign { target: name, property: Property::Fill, value: Value::Color(color) },
        StatementV::Assign { target: name, property: Property::Stroke, value: Value::Absent },
    ];
    if keep.len() >= 2 && has_motion(blobs) {
        base.push(
            StatementV::Animate(
                AnimationV {
                    target: name,
                    keyframes: keep.map_values(|i: usize| keyframe_at(blobs, i)),
                    easing: classify_spec(blobs, keep),
                },
            ),
        )
    } else {
        base
    }
}

/// The shapes of the first `m` tracks, `shape_0` first.
pub open spec fn tracks_statements(tracks: Seq<Seq<(u32, Blob)>>, m: int) -> Seq<StatementV>
    decreases m,
{
    if m <= 0 {
        Seq::empty()
    } else {
        tracks_statements(tracks, m - 1) + shape_statements(shape_name((m - 1) as nat), tracks[m - 1])
    }
}

/// The background rectangle of a `w` × `h` canvas and its fill.
pub open spec fn background_statements(w: u32, h: u32, fill: Color) -> Seq<StatementV> {
    seq![
        StatementV::Let {
            name: name_bg(),
            shape: Shape::Rect {
                x: Number { ten_thousandths: 0 },
                y: Number { ten_thousandths: 0 },
                w: Number { ten_thousandths: (w * 10000) as i64 },
                h: Number { ten_thousandths: (h * 10000) as i64 },
            },
        },
        StatementV::Assign { target: name_bg(), property: Property::Fill, value: Value::Color(fill) },
    ]
}

/// The document recovered from the frames and their detections: one scene
/// `main` lasting until the end of the last frame, with a background
/// rectangle in the median background colour and then the shape of every
/// track, in order of creation.
pub open spec fn document_of(frames: Seq<VideoFrame>, dets: Seq<Detection>) -> DocumentV {
    let w = frames[0].width;
    let h = frames[0].height;
    let bg = background_statements(w, h, median_color_of(dets.map_values(|d: Detection| d.bg)));
    let tracks = blob_tracks(dets);
    let statements = bg + tracks_statements(tracks, tracks.len() as int);
    let total = if dets.len() == 0 {
        0
    } else {
        let t = dets.last().t_ms + frames.last().delay_ms;
        if t > u32::MAX { u32::MAX } else { t as u32 }
    };
    DocumentV {
        canvas: Canvas { width: w, height: h, fps: fps_of(frames) },
        scenes: seq![SceneV { name: name_main(), duration_ms: total, statements }],
    }
}

fn text_of(cs: &[char]) -> (s: String)
    ensures
        s@ == cs@,
{
    let mut s = String::new();
    let mut i: usize = 0;
    while i < cs.len()
        invariant
            0 <= i <= cs@.len(),
            s@ == cs@.subrange(0, i as int),
        decreases cs@.len() - i,
    {
        crate::ast::string_push(&mut s, cs[i]);
        proof {
            assert(cs@.subrange(0, i + 1) == cs@.subrange(0, i as int).push(cs@[i as int]));
        }
        i = i + 1;
    }
    proof {
        assert(cs@.subrange(0, cs@.len() as int) == cs@);
    }
    s
}

/// `shape_<n>`.
fn shape_name_text(n: usize) -> (s: String)
    ensures
        s@ == shape_name(n as nat),
{
    let prefix: [char; 6] = ['s', 'h', 'a', 'p', 'e', '_'];
    let mut s = text_of(&prefix);
    proof {
        assert(prefix@ == seq!['s', 'h', 'a', 'p', 'e', '_']);
    }
    push_decimal(&mut s, n as u64);
    s
}

/// The statements that declare, colour and animate the shape of track `n`.
fn shape_statements_of(n: usize, blobs: &Vec<(u32, Blob)>) -> (r: Vec<Statement>)
    requires
        blobs@.len() >= 1,
        blobs@.len() <= 0x8000_0000,
        track_in_range(blobs@),
    ensures
        r@.map_values(|s: Statement| s@) == shape_statements(shape_name(n as nat), blobs@),
{
    let len = blobs.len();
    let mut radii: Vec<Number> = Vec::new();
    let mut colors: Vec<Color> = Vec::new();
    let mut k: usize = 0;
    while k < len
        invariant
            len == blobs@.len(),
            0 <= k <= len,
            radii@ == blobs@.map_values(|p: (u32, Blob)| p.1.radius).subrange(0, k as int),
            colors@ == blobs@.map_values(|p: (u32, Blob)| p.1.color).subrange(0, k as int),
        decreases len - k,
    {
        radii.push(blobs[k].1.radius);
        colors.push(blobs[k].1.color);
        proof {
            assert(blobs@.map_values(|p: (u32, Blob)| p.1.radius).subrange(0, k + 1)
                == blobs@.map_values(|p: (u32, Blob)| p.1.radius).subrange(0, k as int).push(
                blobs@[k as int].1.radius,
            ));
            assert(blobs@.map_values(|p: (u32, Blob)| p.1.color).subrange(0, k + 1)
                == blobs@.map_values(|p: (u32, Blob)| p.1.color).subrange(0, k as int).push(
                blobs@[k as int].1.color,
            ));
        }
        k = k + 1;
    }
    proof {
        assert(radii@ == blobs@.map_values(|p: (u32, Blob)| p.1.radius));
        assert(colors@ == blobs@.map_values(|p: (u32, Blob)| p.1.color));
    }
    let median_radius = median_number(radii.as_slice());
    proof {
        crate::stats::lemma_median_i64_is_element(number_values(radii@));
        let q = choose|q: int|
            0 <= q < number_values(radii@).len() && number_values(radii@)[q] == median_i64(
                number_values(radii@),
            );
        assert(blob_in_range(blobs@[q].1));
        assert(coord_in_range(median_radius));
    }
    let radius = round_to_int(median_radius);
    let color = median_color(colors.as_slice());
    let (first_t, first) = blobs[0];
    proof {
        assert(blob_in_range(blobs@[0].1));
    }
    let cx = round_to_int(first.cx);
    let cy = round_to_int(first.cy);
    let ghost name = shape_name(n as nat);
    let mut r: Vec<Statement> = Vec::new();
    r.push(
        Statement::Let {
            name: shape_name_text(n),
            shape: Shape::Ellipse { cx, cy, rx: radius, ry: radius },
        },
    );
    r.push(Statement::Assign { target: shape_name_text(n), property: Property::Fill, value: Value::Color(color) });
    r.push(Statement::Assign { target: shape_name_text(n), property: Property::Stroke, value: Value::Absent });
    let keep = simplify_trajectory(blobs.as_slice(), Number { ten_thousandths: RDP_TOLERANCE });
    proof {
        lemma_true_indices(trajectory_mask(blobs@, RDP_TOLERANCE as int));
    }
    if keep.len() >= 2 && trajectory_has_motion(blobs.as_slice()) {
        let easing = classify_easing(blobs.as_slice(), keep.as_slice());
        let mut keyframes: Vec<Keyframe> = Vec::new();
        let mut j: usize = 0;
        while j < keep.len()
            invariant
                len == blobs@.len(),
                track_in_range(blobs@),
                first_t == blobs@[0].0,
                keep@ == track_keep(blobs@),
                forall|q: int| 0 <= q < keep@.len() ==> (#[trigger] keep@[q] as int) < len,
                0 <= j <= keep@.len(),
                keyframes@.len() == j,
                keyframes@.map_values(|k: Keyframe| k@) == keep@.subrange(0, j as int).map_values(
                    |i: usize| keyframe_at(blobs@, i),
                ),
            decreases keep@.len() - j,
        {
            let i = keep[j];
            let (t, b) = blobs[i];
            proof {
                assert(blob_in_range(blobs@[i as int].1));
            }
            let t_norm: u32 = if i == 0 { 0 } else { t.saturating_sub(first_t) };
            let px = round_to_int(b.cx);
            let py = round_to_int(b.cy);
            let kf = Keyframe { time_ms: t_norm, transforms: vec![Transform::Position(px, py)] };
            proof {
                assert(kf.transforms@ =~= seq![Transform::Position(rounded(b.cx), rounded(b.cy))]);
                assert(kf@ == keyframe_at(blobs@, i));
            }
            let ghost before = keyframes@;
            keyframes.push(kf);
            proof {
                assert(keyframes@ == before.push(kf));
                assert(keep@.subrange(0, j + 1) == keep@.subrange(0, j as int).push(i));
                assert forall|q: int| 0 <= q < j + 1 implies (#[trigger] keyframes@[q])@
                    == keyframe_at(blobs@, keep@[q]) by {
                    if q < j {
                        assert(keyframes@[q] == before[q]);
                        assert(before.map_values(|k: Keyframe| k@)[q] == keep@.subrange(
                            0,
                            j as int,
                        ).map_values(|i: usize| keyframe_at(blobs@, i))[q]);
                    }
                }
                assert(keyframes@.map_values(|k: Keyframe| k@) =~= keep@.subrange(0, j + 1).map_values(
                    |i: usize| keyframe_at(blobs@, i),
                ));
            }
            j = j + 1;
        }
        proof {
            assert(keep@.subrange(0, keep@.len() as int) == keep@);
        }
        let anim = Animation { target: shape_name_text(n), keyframes, easing };
        r.push(Statement::Animate(anim));
    }
    proof {
        assert(r@.map_values(|s: Statement| s@) =~= shape_statements(name, blobs@));
    }
    r
}

/// The shape statements of track `n` lie in the block that starts after
/// those of the tracks before it.
pub proof fn lemma_tracks_statements_block(tracks: Seq<Seq<(u32, Blob)>>, m: int, n: int)
    requires
        0 <= n < m,
    ensures
        tracks_statements(tracks, n + 1).len() <= tracks_statements(tracks, m).len(),
        forall|q: int|
            0 <= q < tracks_statements(tracks, n + 1).len() ==> #[trigger] tracks_statements(tracks, m)[q]
                == tracks_statements(tracks, n + 1)[q],
    decreases m,
{
    if m > n + 1 {
        lemma_tracks_statements_block(tracks, m - 1, n);
    }
}

/// Every shape block: `let shape_<n> = ellipse(..)`, its fill, no stroke,
/// and possibly an animation of it with at least two keyframes.
pub proof fn lemma_shape_statements_form(name: Seq<char>, blobs: Seq<(u32, Blob)>)
    ensures
        ({
            let s = shape_statements(name, blobs);
            &&& (s.len() == 3 || s.len() == 4)
            &&& s[0] matches StatementV::Let { name: nm, shape: Shape::Ellipse { .. } } && nm == name
            &&& s[1] matches StatementV::Assign { target, property: Property::Fill, value: Value::Color(_) }
                && target == name
            &&& s[2] == StatementV::Assign { target: name, property: Property::Stroke, value: Value::Absent }
            &&& s.len() == 4 ==> (s[3] matches StatementV::Animate(a) && a.target == name
                && a.keyframes.len() >= 2)
        }),
{
}

/// The shape of every decompiled document: one scene `main`; first a `bg`
/// rectangle covering the canvas and its fill; then, for every track `n`
/// in order, its own block: `let shape_<n> = ellipse(..)`, its fill, no
/// stroke, and possibly its animation with at least two keyframes; nothing
/// else.
pub proof fn lemma_decompiled_document_shape(frames: Seq<VideoFrame>, dets: Seq<Detection>, n: int)
    requires
        frames.len() >= 1,
        0 <= n < blob_tracks(dets).len(),
    ensures
        ({
            let d = document_of(frames, dets);
            let st = d.scenes[0].statements;
            let tracks = blob_tracks(dets);
            let start: int = 2 + tracks_statements(tracks, n).len() as int;
            let block = shape_statements(shape_name(n as nat), tracks[n]);
            &&& d.scenes.len() == 1
            &&& d.scenes[0].name == name_main()
            &&& d.canvas.width == frames[0].width
            &&& d.canvas.height == frames[0].height
            &&& st.len() == 2 + tracks_statements(tracks, tracks.len() as int).len()
            &&& st[0] == StatementV::Let {
                name: name_bg(),
                shape: Shape::Rect {
                    x: Number { ten_thousandths: 0 },
                    y: Number { ten_thousandths: 0 },
                    w: Number { ten_thousandths: (frames[0].width * 10000) as i64 },
                    h: Number { ten_thousandths: (frames[0].height * 10000) as i64 },
                },
            }
            &&& st[1] matches StatementV::Assign { target, property: Property::Fill, .. } && target
                == name_bg()
            &&& start + block.len() <= st.len()
            &&& forall|q: int| 0 <= q < block.len() ==> st[start + q] == #[trigger] block[q]
            &&& (block.len() == 3 || block.len() == 4)
            &&& st[start] matches StatementV::Let { name, shape: Shape::Ellipse { .. } } && name
                == shape_name(n as nat)
            &&& st[start + 1] matches StatementV::Assign {
                target,
                property: Property::Fill,
                value: Value::Color(_),
            } && target == shape_name(n as nat)
            &&& st[start + 2] == StatementV::Assign {
                target: shape_name(n as nat),
                property: Property::Stroke,
                value: Value::Absent,
            }
            &&& block.len() == 4 ==> (st[start + 3] matches StatementV::Animate(a) && a.target
                == shape_name(n as nat) && a.keyframes.len() >= 2)
        }),
{
    let d = document_of(frames, dets);
    let st = d.scenes[0].statements;
    let tracks = blob_tracks(dets);
    let m = tracks.len() as int;
    let ts = tracks_statements(tracks, m);
    lemma_tracks_statements_block(tracks, m, n);
    let before = tracks_statements(tracks, n);
    let block = shape_statements(shape_name(n as nat), tracks[n]);
    assert(tracks_statements(tracks, n + 1) == before + block);
    assert forall|q: int| 0 <= q < block.len() implies st[2 + before.len() + q] == #[trigger] block[q] by {
        assert(st[2 + before.len() + q] == ts[before.len() + q]);
        assert(ts[before.len() + q] == tracks_statements(tracks, n + 1)[before.len() + q]);
    }
    lemma_shape_statements_form(shape_name(n as nat), tracks[n]);
    let s0: int = 2 + before.len() as int;
    assert(st[s0] == block[0]);
    assert(st[s0 + 1] == block[1]);
    assert(st[s0 + 2] == block[2]);
    if block.len() == 4 {
        assert(st[s0 + 3] == block[3]);
    }
}

/// Builds the document from the frames and their detections; see
/// [`document_of`].
pub fn build_document(frames: &[VideoFrame], detections: &[Detection]) -> (doc: Document)
    requires
        frames@.len() >= 1,
        detections@.len() <= 0x8000_0000,
        all_blobs_in_range(detections@),
    ensures
        doc@ == document_of(frames@, detections@),
{
    let w = frames[0].width;
    let h = frames[0].height;
    let canvas = Canvas { width: w, height: h, fps: estimate_fps(frames) };
    let mut bgs: Vec<Color> = Vec::new();
    let mut k: usize = 0;
    while k < detections.len()
        invariant
            0 <= k <= detections@.len(),
            bgs@ == detections@.map_values(|d: Detection| d.bg).subrange(0, k as int),
        decreases detections@.len() - k,
    {
        bgs.push(detections[k].bg);
        proof {
            assert(detections@.map_values(|d: Detection| d.bg).subrange(0, k + 1)
                == detections@.map_values(|d: Detection| d.bg).subrange(0, k as int).push(
                detections@[k as int].bg,
            ));
        }
        k = k + 1;
    }
    proof {
        assert(bgs@ == detections@.map_values(|d: Detection| d.bg));
    }
    let bg_color = median_color(bgs.as_slice());
    let tracks = track_blobs(detections);
    let total: u32 = if detections.len() == 0 {
        0
    } else {
        detections[detections.len() - 1].t_ms.saturating_add(frames[frames.len() - 1].delay_ms)
    };
    let bg: [char; 2] = ['b', 'g'];
    let main: [char; 4] = ['m', 'a', 'i', 'n'];
    proof {
        assert(bg@ == name_bg());
        assert(main@ == name_main());
    }
    let mut statements: Vec<Statement> = Vec::new();
    statements.push(
        Statement::Let {
            name: text_of(&bg),
            shape: Shape::Rect {
                x: Number { ten_thousandths: 0 },
                y: Number { ten_thousandths: 0 },
                w: Number { ten_thousandths: w as i64 * 10000 },
                h: Number { ten_thousandths: h as i64 * 10000 },
            },
        },
    );
    statements.push(
        Statement::Assign { target: text_of(&bg), property: Property::Fill, value: Value::Color(bg_color) },
    );
    let ghost head = statements@.map_values(|s: Statement| s@);
    let ghost all = blob_tracks(detections@);
    proof {
        assert(head =~= background_statements(w, h, median_color_of(detections@.map_values(|d: Detection| d.bg))));
    }
    let mut n: usize = 0;
    while n < tracks.len()
        invariant
            all == blob_tracks(detections@),
            sample_seqs(tracks@) == all,
            tracks_sound(all, detections@.len() as int),
            detections@.len() <= 0x8000_0000,
            0 <= n <= tracks@.len(),
            statements@.map_values(|s: Statement| s@) == head + tracks_statements(all, n as int),
        decreases tracks@.len() - n,
    {
        proof {
            assert(all[n as int] == tracks@[n as int]@);
            assert(track_in_range(tracks@[n as int]@)) by {
                assert forall|q: int| 0 <= q < tracks@[n as int]@.len() implies blob_in_range(
                    #[trigger] tracks@[n as int]@[q].1,
                ) by {
                    assert(blob_in_range(all[n as int][q].1));
                }
            }
        }
        let ghost before = statements@;
        let mut block = shape_statements_of(n, &tracks[n]);
        let ghost added = block@;
        statements.append(&mut block);
        proof {
            assert(statements@ == before + added);
            assert(statements@.map_values(|s: Statement| s@) =~= before.map_values(|s: Statement| s@)
                + added.map_values(|s: Statement| s@));
            assert(tracks_statements(all, n + 1) == tracks_statements(all, n as int) + shape_statements(
                shape_name(n as nat),
                all[n as int],
            ));
        }
        n = n + 1;
    }
    proof {
        assert(sample_seqs(tracks@).len() == tracks@.len());
        assert(statements@.map_values(|s: Statement| s@) =~= document_of(frames@, detections@).scenes[0].statements);
    }
    let scene = Scene { name: text_of(&main), duration_ms: total, statements };
    let doc = Document { canvas, scenes: vec![scene] };
    proof {
        assert(doc.scenes@ =~= seq![scene]);
        assert(doc@.scenes =~= document_of(frames@, detections@).scenes);
    }
    doc
}

// --------------------------------------------------------------------
// Ramer-Douglas-Peucker on a polyline
// --------------------------------------------------------------------

/// Bound on point coordinates for the polyline simplification (ten-
/// thousandths of a pixel): about 107 thousand pixels.
pub const POINT_LIMIT: i64 = 0x4000_0000;

pub open spec fn point_in_range(p: (Number, Number)) -> bool {
    &&& -POINT_LIMIT <= p.0.ten_thousandths <= POINT_LIMIT
    &&& -POINT_LIMIT <= p.1.ten_thousandths <= POINT_LIMIT
}

pub open spec fn polyline_in_range(ps: Seq<(Number, Number)>, tol: Number) -> bool {
    &&& forall|i: int| 0 <= i < ps.len() ==> point_in_range(#[trigger] ps[i])
    &&& 0 <= tol.ten_thousandths <= POINT_LIMIT
}

/// Squared length of the chord from point `s` to point `e`.
pub open spec fn chord_len_sq(ps: Seq<(Number, Number)>, s: int, e: int) -> int {
    let dx = ps[e].0.ten_thousandths - ps[s].0.ten_thousandths;
    let dy = ps[e].1.ten_thousandths - ps[s].1.ten_thousandths;
    dx * dx + dy * dy
}

/// Squared distance of point `i` from the segment between points `s` and
/// `e` (from the nearer end where the point projects outside it),
/// multiplied by [`chord_len_sq`]; when the chord has no length, the
/// squared distance from point `s`.
pub open spec fn dev_2d(ps: Seq<(Number, Number)>, s: int, e: int, i: int) -> int {
    let (ax, ay) = (ps[s].0.ten_thousandths as int, ps[s].1.ten_thousandths as int);
    let (bx, by) = (ps[e].0.ten_thousandths as int, ps[e].1.ten_thousandths as int);
    let (px, py) = (ps[i].0.ten_thousandths as int, ps[i].1.ten_thousandths as int);
    let len = chord_len_sq(ps, s, e);
    let to_a = (px - ax) * (px - ax) + (py - ay) * (py - ay);
    let to_b = (px - bx) * (px - bx) + (py - by) * (py - by);
    let along = (px - ax) * (bx - ax) + (py - ay) * (by - ay);
    if len == 0 {
        to_a
    } else if along < 0 {
        to_a * len
    } else if along > len {
        to_b * len
    } else {
        let c = (by - ay) * px - (bx - ax) * py + bx * ay - by * ax;
        c * c
    }
}

/// The tolerance `tol` in the units of [`dev_2d`] on the chord `s`–`e`.
pub open spec fn thr_2d(ps: Seq<(Number, Number)>, s: int, e: int, tol: int) -> int {
    if chord_len_sq(ps, s, e) == 0 {
        tol * tol
    } else {
        tol * tol * chord_len_sq(ps, s, e)
    }
}

proof fn lemma_dev_2d_nonneg(ps: Seq<(Number, Number)>, s: int, e: int, i: int)
    ensures
        dev_2d(ps, s, e, i) >= 0,
{
    let (ax, ay) = (ps[s].0.ten_thousandths as int, ps[s].1.ten_thousandths as int);
    let (bx, by) = (ps[e].0.ten_thousandths as int, ps[e].1.ten_thousandths as int);
    let (px, py) = (ps[i].0.ten_thousandths as int, ps[i].1.ten_thousandths as int);
    let c = (by - ay) * px - (bx - ax) * py + bx * ay - by * ax;
    let len = chord_len_sq(ps, s, e);
    let to_a = (px - ax) * (px - ax) + (py - ay) * (py - ay);
    let to_b = (px - bx) * (px - bx) + (py - by) * (py - by);
    assert(c * c >= 0) by (nonlinear_arith);
    assert(to_a >= 0 && to_b >= 0) by (nonlinear_arith)
        requires
            to_a == (px - ax) * (px - ax) + (py - ay) * (py - ay),
            to_b == (px - bx) * (px - bx) + (py - by) * (py - by),
    ;
    assert(len >= 0) by {
        let dx = bx - ax;
        let dy = by - ay;
        assert(dx * dx + dy * dy >= 0) by (nonlinear_arith);
    }
    assert(to_a * len >= 0 && to_b * len >= 0) by (nonlinear_arith)
        requires
            to_a >= 0,
            to_b >= 0,
            len >= 0,
    ;
}

/// Which points the simplification keeps: all of them when there are
/// fewer than three, else the two ends and [`rdp_2d_kept`] between them.
pub open spec fn rdp_2d_mask(ps: Seq<(Number, Number)>, tol: int) -> Seq<bool> {
    let n = ps.len() as int;
    Seq::new(
        ps.len(),
        |i: int| n < 3 || i == 0 || i == n - 1 || rdp_2d_kept(ps, 0, n - 1, tol).contains(i),
    )
}
/// Over samples `s + 1 .. k`, the first sample of largest deviation from
/// the chord `s`–`e`, with that deviation; `(s, 0)` when none deviates.
pub open spec fn max_dev_2d(ps: Seq<(Number, Number)>, s: int, e: int, k: int) -> (int, int)
    decreases k - s,
{
    if k <= s + 1 {
        (s, 0)
    } else {
        let prev = max_dev_2d(ps, s, e, k - 1);
        let d = dev_2d(ps, s, e, k - 1);
        if d > prev.1 {
            (k - 1, d)
        } else {
            prev
        }
    }
}

proof fn lemma_max_dev_2d(ps: Seq<(Number, Number)>, s: int, e: int, k: int)
    requires
        s + 1 <= k,
    ensures
        max_dev_2d(ps, s, e, k).1 >= 0,
        max_dev_2d(ps, s, e, k).1 > 0 ==> s < max_dev_2d(ps, s, e, k).0 < k,
        max_dev_2d(ps, s, e, k).1 == 0 ==> max_dev_2d(ps, s, e, k).0 == s,
        max_dev_2d(ps, s, e, k).1 > 0 ==> max_dev_2d(ps, s, e, k).1 == dev_2d(
            ps,
            s,
            e,
            max_dev_2d(ps, s, e, k).0,
        ),
        forall|i: int| s < i < k ==> #[trigger] dev_2d(ps, s, e, i) <= max_dev_2d(ps, s, e, k).1,
    decreases k - s,
{
    if k > s + 1 {
        lemma_max_dev_2d(ps, s, e, k - 1);
        lemma_dev_2d_nonneg(ps, s, e, k - 1);
    }
}

/// Indices strictly between `s` and `e` that the simplification keeps: the
/// sample of largest deviation if it exceeds the tolerance `tol`, and,
/// recursively, those kept on each side of it.
pub open spec fn rdp_2d_kept(ps: Seq<(Number, Number)>, s: int, e: int, tol: int) -> Set<int>
    decreases e - s,
{
    if e <= s + 1 {
        Set::empty()
    } else {
        let (m, d) = max_dev_2d(ps, s, e, e);
        if d > thr_2d(ps, s, e, tol) && s < m < e {
            rdp_2d_kept(ps, s, m, tol).union(rdp_2d_kept(ps, m, e, tol)).insert(m)
        } else {
            Set::empty()
        }
    }
}


proof fn lemma_rdp_2d_kept_range(ps: Seq<(Number, Number)>, s: int, e: int, tol: int)
    ensures
        forall|x: int| #[trigger] rdp_2d_kept(ps, s, e, tol).contains(x) ==> s < x < e,
    decreases e - s,
{
    if e > s + 1 {
        let (m, d) = max_dev_2d(ps, s, e, e);
        if d > thr_2d(ps, s, e, tol) && s < m < e {
            lemma_rdp_2d_kept_range(ps, s, m, tol);
            lemma_rdp_2d_kept_range(ps, m, e, tol);
            assert(rdp_2d_kept(ps, s, e, tol) == rdp_2d_kept(ps, s, m, tol).union(
                rdp_2d_kept(ps, m, e, tol),
            ).insert(m));
        } else {
            assert(rdp_2d_kept(ps, s, e, tol) =~= Set::empty());
        }
    } else {
        assert(rdp_2d_kept(ps, s, e, tol) =~= Set::empty());
    }
}

proof fn lemma_rdp_2d_gap(ps: Seq<(Number, Number)>, s: int, e: int, tol: int, a: int, b: int, i: int)
    requires
        tol >= 0,
        s <= a < i < b <= e,
        a == s || rdp_2d_kept(ps, s, e, tol).contains(a),
        b == e || rdp_2d_kept(ps, s, e, tol).contains(b),
        forall|j: int| a < j < b ==> !(#[trigger] rdp_2d_kept(ps, s, e, tol).contains(j)),
    ensures
        dev_2d(ps, a, b, i) <= thr_2d(ps, a, b, tol),
    decreases e - s,
{
    let (m, d) = max_dev_2d(ps, s, e, e);
    lemma_max_dev_2d(ps, s, e, e);
    lemma_rdp_2d_kept_range(ps, s, e, tol);
    if d > thr_2d(ps, s, e, tol) && s < m < e {
        let kl = rdp_2d_kept(ps, s, m, tol);
        let kr = rdp_2d_kept(ps, m, e, tol);
        lemma_rdp_2d_kept_range(ps, s, m, tol);
        lemma_rdp_2d_kept_range(ps, m, e, tol);
        assert(rdp_2d_kept(ps, s, e, tol) == kl.union(kr).insert(m));
        assert(rdp_2d_kept(ps, s, e, tol).contains(m));
        if b <= m {
            assert forall|j: int| a < j < b implies !(#[trigger] kl.contains(j)) by {
                assert(!rdp_2d_kept(ps, s, e, tol).contains(j));
            }
            if a != s {
                assert(!kr.contains(a));
            }
            if b != m {
                assert(!kr.contains(b));
            }
            lemma_rdp_2d_gap(ps, s, m, tol, a, b, i);
        } else {
            assert(a >= m) by {
                if a < m {
                    assert(!rdp_2d_kept(ps, s, e, tol).contains(m));
                }
            }
            assert forall|j: int| a < j < b implies !(#[trigger] kr.contains(j)) by {
                assert(!rdp_2d_kept(ps, s, e, tol).contains(j));
            }
            if a != m {
                assert(!kl.contains(a));
            }
            if b != e {
                assert(!kl.contains(b));
            }
            lemma_rdp_2d_gap(ps, m, e, tol, a, b, i);
        }
    } else {
        assert(rdp_2d_kept(ps, s, e, tol) =~= Set::empty());
        assert(dev_2d(ps, s, e, i) <= d);
        assert(d >= 0);
        let len = chord_len_sq(ps, s, e);
        assert(len >= 0) by {
            let dx = ps[e].0.ten_thousandths - ps[s].0.ten_thousandths;
            let dy = ps[e].1.ten_thousandths - ps[s].1.ten_thousandths;
            assert(dx * dx + dy * dy >= 0) by (nonlinear_arith);
        }
        assert(tol * tol * len >= 0 && tol * tol >= 0) by (nonlinear_arith)
            requires
                len >= 0,
        ;
    }
}

/// Between two consecutive kept points `a` and `b`, every dropped point
/// lies within `tol` of the segment between them (the deviation
/// [`dev_2d`] is compared through [`thr_2d`]).
pub proof fn lemma_rdp_2d_within_tolerance(
    ps: Seq<(Number, Number)>,
    tol: int,
    a: int,
    b: int,
    i: int,
)
    requires
        tol >= 0,
        0 <= a < i < b < ps.len(),
        rdp_2d_mask(ps, tol)[a],
        rdp_2d_mask(ps, tol)[b],
        forall|j: int| a < j < b ==> !(#[trigger] rdp_2d_mask(ps, tol)[j]),
    ensures
        dev_2d(ps, a, b, i) <= thr_2d(ps, a, b, tol),
{
    let n = ps.len() as int;
    let k = rdp_2d_kept(ps, 0, n - 1, tol);
    assert(!rdp_2d_mask(ps, tol)[i]);
    lemma_rdp_2d_kept_range(ps, 0, n - 1, tol);
    assert forall|j: int| a < j < b implies !(#[trigger] k.contains(j)) by {
        assert(!rdp_2d_mask(ps, tol)[j]);
    }
    lemma_rdp_2d_gap(ps, 0, n - 1, tol, a, b, i);
}



/// [`chord_len_sq`] computed exactly.
fn chord_len_sq_of(points: &[(Number, Number)], s: usize, e: usize) -> (r: i128)
    requires
        forall|i: int| 0 <= i < points@.len() ==> point_in_range(#[trigger] points@[i]),
        s < points@.len(),
        e < points@.len(),
    ensures
        r == chord_len_sq(points@, s as int, e as int),
        0 <= r <= 0x8000_0000_0000_0000,
{
    proof {
        assert(point_in_range(points@[s as int]));
        assert(point_in_range(points@[e as int]));
    }
    let dx: i128 = points[e].0.ten_thousandths as i128 - points[s].0.ten_thousandths as i128;
    let dy: i128 = points[e].1.ten_thousandths as i128 - points[s].1.ten_thousandths as i128;
    proof {
        assert(0 <= dx * dx <= 0x4000_0000_0000_0000 && 0 <= dy * dy <= 0x4000_0000_0000_0000)
            by (nonlinear_arith)
            requires
                -0x8000_0000 <= dx <= 0x8000_0000,
                -0x8000_0000 <= dy <= 0x8000_0000,
        ;
    }
    dx * dx + dy * dy
}

/// [`dev_2d`] computed exactly.
fn deviation_2d(points: &[(Number, Number)], s: usize, e: usize, i: usize) -> (d: i128)
    requires
        forall|q: int| 0 <= q < points@.len() ==> point_in_range(#[trigger] points@[q]),
        s < points@.len(),
        e < points@.len(),
        i < points@.len(),
    ensures
        d == dev_2d(points@, s as int, e as int, i as int),
{
    proof {
        assert(point_in_range(points@[s as int]));
        assert(point_in_range(points@[e as int]));
        assert(point_in_range(points@[i as int]));
    }
    let ax = points[s].0.ten_thousandths as i128;
    let ay = points[s].1.ten_thousandths as i128;
    let bx = points[e].0.ten_thousandths as i128;
    let by = points[e].1.ten_thousandths as i128;
    let px = points[i].0.ten_thousandths as i128;
    let py = points[i].1.ten_thousandths as i128;
    let len = chord_len_sq_of(points, s, e);
    proof {
        assert(0 <= (px - ax) * (px - ax) <= 0x4000_0000_0000_0000 && 0 <= (py - ay) * (py - ay)
            <= 0x4000_0000_0000_0000) by (nonlinear_arith)
            requires
                -0x8000_0000 <= px - ax <= 0x8000_0000,
                -0x8000_0000 <= py - ay <= 0x8000_0000,
        ;
        assert(0 <= (px - bx) * (px - bx) <= 0x4000_0000_0000_0000 && 0 <= (py - by) * (py - by)
            <= 0x4000_0000_0000_0000) by (nonlinear_arith)
            requires
                -0x8000_0000 <= px - bx <= 0x8000_0000,
                -0x8000_0000 <= py - by <= 0x8000_0000,
        ;
        assert(-0x4000_0000_0000_0000 <= (px - ax) * (bx - ax) <= 0x4000_0000_0000_0000
            && -0x4000_0000_0000_0000 <= (py - ay) * (by - ay) <= 0x4000_0000_0000_0000)
            by (nonlinear_arith)
            requires
                -0x8000_0000 <= px - ax <= 0x8000_0000,
                -0x8000_0000 <= py - ay <= 0x8000_0000,
                -0x8000_0000 <= bx - ax <= 0x8000_0000,
                -0x8000_0000 <= by - ay <= 0x8000_0000,
        ;
    }
    let to_a: i128 = (px - ax) * (px - ax) + (py - ay) * (py - ay);
    let to_b: i128 = (px - bx) * (px - bx) + (py - by) * (py - by);
    let along: i128 = (px - ax) * (bx - ax) + (py - ay) * (by - ay);
    proof {
        assert(0 <= to_a * len <= 0x8000_0000_0000_0000 * 0x8000_0000_0000_0000) by (nonlinear_arith)
            requires
                0 <= to_a <= 0x8000_0000_0000_0000,
                0 <= len <= 0x8000_0000_0000_0000,
        ;
        assert(0 <= to_b * len <= 0x8000_0000_0000_0000 * 0x8000_0000_0000_0000) by (nonlinear_arith)
            requires
                0 <= to_b <= 0x8000_0000_0000_0000,
                0 <= len <= 0x8000_0000_0000_0000,
        ;
    }
    if len == 0 {
        to_a
    } else if along < 0 {
        to_a * len
    } else if along > len {
        to_b * len
    } else {
        proof {
            assert(-0x2000_0000_0000_0000 <= (by - ay) * px <= 0x2000_0000_0000_0000) by (nonlinear_arith)
                requires
                    -0x8000_0000 <= by - ay <= 0x8000_0000,
                    -0x4000_0000 <= px <= 0x4000_0000,
            ;
            assert(-0x2000_0000_0000_0000 <= (bx - ax) * py <= 0x2000_0000_0000_0000) by (nonlinear_arith)
                requires
                    -0x8000_0000 <= bx - ax <= 0x8000_0000,
                    -0x4000_0000 <= py <= 0x4000_0000,
            ;
            assert(-0x1000_0000_0000_0000 <= bx * ay <= 0x1000_0000_0000_0000) by (nonlinear_arith)
                requires
                    -0x4000_0000 <= bx <= 0x4000_0000,
                    -0x4000_0000 <= ay <= 0x4000_0000,
            ;
            assert(-0x1000_0000_0000_0000 <= by * ax <= 0x1000_0000_0000_0000) by (nonlinear_arith)
                requires
                    -0x4000_0000 <= by <= 0x4000_0000,
                    -0x4000_0000 <= ax <= 0x4000_0000,
            ;
        }
        let c: i128 = (by - ay) * px - (bx - ax) * py + bx * ay - by * ax;
        proof {
            assert(0 <= c * c <= 0x2400_0000_0000_0000_0000_0000_0000_0000) by (nonlinear_arith)
                requires
                    -0x6000_0000_0000_0000 <= c <= 0x6000_0000_0000_0000,
            ;
        }
        c * c
    }
}

/// [`thr_2d`] computed exactly.
fn threshold_2d(points: &[(Number, Number)], s: usize, e: usize, tol: Number) -> (t: i128)
    requires
        polyline_in_range(points@, tol),
        s < points@.len(),
        e < points@.len(),
    ensures
        t == thr_2d(points@, s as int, e as int, tol.ten_thousandths as int),
{
    let len = chord_len_sq_of(points, s, e);
    let t = tol.ten_thousandths as i128;
    proof {
        assert(0 <= t * t <= 0x1000_0000_0000_0000) by (nonlinear_arith)
            requires
                0 <= t <= 0x4000_0000,
        ;
        assert(0 <= t * t * len <= 0x1000_0000_0000_0000 * 0x8000_0000_0000_0000) by (nonlinear_arith)
            requires
                0 <= t * t <= 0x1000_0000_0000_0000,
                0 <= len <= 0x8000_0000_0000_0000,
        ;
    }
    if len == 0 {
        t * t
    } else {
        t * t * len
    }
}

/// Marks in `keep` the points that the simplification keeps strictly
/// between `start` and `end`.
fn rdp_recurse(points: &[(Number, Number)], start: usize, end: usize, tol: Number, keep: &mut Vec<bool>)
    requires
        polyline_in_range(points@, tol),
        start < end < points@.len(),
        old(keep)@.len() == points@.len(),
    ensures
        final(keep)@.len() == points@.len(),
        forall|i: int|
            0 <= i < points@.len() ==> #[trigger] final(keep)@[i] == (old(keep)@[i] || rdp_2d_kept(
                points@,
                start as int,
                end as int,
                tol.ten_thousandths as int,
            ).contains(i)),
    decreases end - start,
{
    let ghost tl = tol.ten_thousandths as int;
    if end <= start + 1 {
        return;
    }
    let mut max_dev: i128 = 0;
    let mut max_idx: usize = start;
    let mut i: usize = start + 1;
    while i < end
        invariant
            polyline_in_range(points@, tol),
            start < end < points@.len(),
            start + 1 <= i <= end,
            (max_idx as int, max_dev as int) == max_dev_2d(points@, start as int, end as int, i as int),
        decreases end - i,
    {
        let d = deviation_2d(points, start, end, i);
        if d > max_dev {
            max_dev = d;
            max_idx = i;
        }
        i = i + 1;
    }
    let thr = threshold_2d(points, start, end, tol);
    proof {
        lemma_max_dev_2d(points@, start as int, end as int, end as int);
        let len = chord_len_sq(points@, start as int, end as int);
        assert(len >= 0) by {
            let dx = points@[end as int].0.ten_thousandths - points@[start as int].0.ten_thousandths;
            let dy = points@[end as int].1.ten_thousandths - points@[start as int].1.ten_thousandths;
            assert(dx * dx + dy * dy >= 0) by (nonlinear_arith);
        }
        assert(tl * tl * len >= 0 && tl * tl >= 0) by (nonlinear_arith)
            requires
                len >= 0,
        ;
    }
    if max_dev > thr {
        keep.set(max_idx, true);
        let ghost k0 = keep@;
        rdp_recurse(points, start, max_idx, tol, keep);
        let ghost k1 = keep@;
        rdp_recurse(points, max_idx, end, tol, keep);
        proof {
            let ks = rdp_2d_kept(points@, start as int, end as int, tl);
            let k_left = rdp_2d_kept(points@, start as int, max_idx as int, tl);
            let k_right = rdp_2d_kept(points@, max_idx as int, end as int, tl);
            assert(ks == k_left.union(k_right).insert(max_idx as int));
            assert forall|q: int| 0 <= q < points@.len() implies #[trigger] keep@[q] == (old(keep)@[q]
                || ks.contains(q)) by {
                assert(k1[q] == (k0[q] || k_left.contains(q)));
                assert(keep@[q] == (k1[q] || k_right.contains(q)));
            }
        }
    } else {
        proof {
            assert(rdp_2d_kept(points@, start as int, end as int, tl) =~= Set::empty());
        }
    }
}

/// Ramer-Douglas-Peucker on a polyline: the indices of the points to
/// retain, ascending, so that no removed point lies farther than `tol`
/// from the segment between the retained points around it.
pub fn rdp(points: &[(Number, Number)], tolerance: Number) -> (kept: Vec<usize>)
    requires
        polyline_in_range(points@, tolerance),
    ensures
        kept@ == true_indices(rdp_2d_mask(points@, tolerance.ten_thousandths as int)),
{
    let n = points.len();
    let mut keep: Vec<bool> = Vec::new();
    let mut k: usize = 0;
    while k < n
        invariant
            n == points@.len(),
            0 <= k <= n,
            keep@.len() == k,
            forall|q: int| 0 <= q < k ==> keep@[q] == (n < 3 || q == 0 || q == n - 1),
        decreases n - k,
    {
        keep.push(n < 3 || k == 0 || k == n - 1);
        k = k + 1;
    }
    if n >= 3 {
        rdp_recurse(points, 0, n - 1, tolerance, &mut keep);
    }
    assert(keep@ =~= rdp_2d_mask(points@, tolerance.ten_thousandths as int));
    collect_true(&keep)
}

} // verus!
