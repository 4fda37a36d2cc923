//! Cross-frame tracking: in every frame, the active tracks and the frame's
//! blobs are paired lowest cost first (a greedy bipartite matching scored
//! on position, size and colour); a blob left over starts a new track, and
//! a track survives a few frames without a blob.
use vstd::prelude::*;
use crate::ast::Color;
use crate::detect::{Blob, Detection};
use crate::track::{abs_int, blob_in_range};

verus! {

/// Weight of one unit of colour difference, in ten-thousandths of a pixel:
/// two pixels.
pub const COLOR_WEIGHT: i64 = 20000;

/// Pairings that cost more than this are never made: 200 pixels.
pub const MATCH_GATE: i64 = 2_000_000;

/// Number of frames in a row that a track may go without a blob and still
/// take one.
pub const MAX_GAP: usize = 3;

pub open spec fn color_l1(a: Color, b: Color) -> int {
    abs_int(a.r - b.r) + abs_int(a.g - b.g) + abs_int(a.b - b.b)
}

/// Cost of continuing a track whose last blob is `a` with the blob `b`:
/// the taxicab distance between the centres, the difference of the radii,
/// and the colour difference weighted by [`COLOR_WEIGHT`].
pub open spec fn match_cost(a: Blob, b: Blob) -> int {
    abs_int(a.cx.ten_thousandths - b.cx.ten_thousandths) + abs_int(
        a.cy.ten_thousandths - b.cy.ten_thousandths,
    ) + abs_int(a.radius.ten_thousandths - b.radius.ten_thousandths) + COLOR_WEIGHT * color_l1(
        a.color,
        b.color,
    )
}

fn abs_diff_u8(a: u8, b: u8) -> (d: i64)
    ensures
        d == abs_int(a - b),
{
    if a < b {
        (b - a) as i64
    } else {
        (a - b) as i64
    }
}

fn abs_diff(a: i64, b: i64) -> (d: i64)
    requires
        -crate::track::COORD_LIMIT <= a <= crate::track::COORD_LIMIT,
        -crate::track::COORD_LIMIT <= b <= crate::track::COORD_LIMIT,
    ensures
        d == abs_int(a - b),
        d <= 2 * crate::track::COORD_LIMIT,
{
    if a < b {
        b - a
    } else {
        a - b
    }
}

/// See [`match_cost`].
pub fn cost(a: Blob, b: Blob) -> (c: i64)
    requires
        blob_in_range(a),
        blob_in_range(b),
    ensures
        c == match_cost(a, b),
{
    let dx = abs_diff(a.cx.ten_thousandths, b.cx.ten_thousandths);
    let dy = abs_diff(a.cy.ten_thousandths, b.cy.ten_thousandths);
    let dz = abs_diff(a.radius.ten_thousandths, b.radius.ten_thousandths);
    let dc = abs_diff_u8(a.color.r, b.color.r) + abs_diff_u8(a.color.g, b.color.g) + abs_diff_u8(
        a.color.b,
        b.color.b,
    );
    dx + dy + dz + COLOR_WEIGHT * dc
}

// --------------------------------------------------------------------
// The cheapest pairing
// --------------------------------------------------------------------

/// Track `i` (still open) may take blob `j` (not yet taken).
pub open spec fn candidate(
    ends: Seq<Blob>,
    open: Seq<bool>,
    blobs: Seq<Blob>,
    used: Seq<bool>,
    i: int,
    j: int,
) -> bool {
    &&& open[i]
    &&& !used[j]
    &&& match_cost(ends[i], blobs[j]) <= MATCH_GATE
}

/// `c` beats the pairing found so far.
pub open spec fn cheaper(acc: Option<(int, int, int)>, c: int) -> bool {
    match acc {
        None => true,
        Some(p) => c < p.2,
    }
}

/// Going on from `acc` through the pairs of track `i` with the first `j`
/// blobs: the cheapest candidate pair `(track, blob, cost)`, the first met
/// among equals.
pub open spec fn scan_row(
    ends: Seq<Blob>,
    open: Seq<bool>,
    blobs: Seq<Blob>,
    used: Seq<bool>,
    i: int,
    j: int,
    acc: Option<(int, int, int)>,
) -> Option<(int, int, int)>
    decreases j,
{
    if j <= 0 {
        acc
    } else {
        let a = scan_row(ends, open, blobs, used, i, j - 1, acc);
        let c = match_cost(ends[i], blobs[j - 1]);
        if candidate(ends, open, blobs, used, i, j - 1) && cheaper(a, c) {
            Some((i, j - 1, c))
        } else {
            a
        }
    }
}

/// The cheapest candidate pair among the first `i` tracks and all blobs,
/// the first in track-then-blob order among equals.
pub open spec fn cheapest_pair(
    ends: Seq<Blob>,
    open: Seq<bool>,
    blobs: Seq<Blob>,
    used: Seq<bool>,
    i: int,
) -> Option<(int, int, int)>
    decreases i,
{
    if i <= 0 {
        None
    } else {
        scan_row(
            ends,
            open,
            blobs,
            used,
            i - 1,
            blobs.len() as int,
            cheapest_pair(ends, open, blobs, used, i - 1),
        )
    }
}

pub open spec fn pair_view(r: Option<(usize, usize, i64)>) -> Option<(int, int, int)> {
    match r {
        None => None,
        Some(p) => Some((p.0 as int, p.1 as int, p.2 as int)),
    }
}

/// See [`cheapest_pair`].
fn cheapest(ends: &Vec<Blob>, open: &Vec<bool>, blobs: &Vec<Blob>, used: &Vec<bool>) -> (r: Option<
    (usize, usize, i64),
>)
    requires
        open@.len() == ends@.len(),
        used@.len() == blobs@.len(),
        forall|i: int| 0 <= i < ends@.len() ==> blob_in_range(#[trigger] ends@[i]),
        forall|j: int| 0 <= j < blobs@.len() ==> blob_in_range(#[trigger] blobs@[j]),
    ensures
        pair_view(r) == cheapest_pair(ends@, open@, blobs@, used@, ends@.len() as int),
        r matches Some(p) ==> p.0 < ends@.len() && p.1 < blobs@.len(),
{
    let mut acc: Option<(usize, usize, i64)> = None;
    let mut i: usize = 0;
    while i < ends.len()
        invariant
            open@.len() == ends@.len(),
            used@.len() == blobs@.len(),
            forall|q: int| 0 <= q < ends@.len() ==> blob_in_range(#[trigger] ends@[q]),
            forall|q: int| 0 <= q < blobs@.len() ==> blob_in_range(#[trigger] blobs@[q]),
            0 <= i <= ends@.len(),
            pair_view(acc) == cheapest_pair(ends@, open@, blobs@, used@, i as int),
            acc matches Some(p) ==> p.0 < ends@.len() && p.1 < blobs@.len(),
        decreases ends@.len() - i,
    {
        let ghost start = pair_view(acc);
        let mut j: usize = 0;
        while j < blobs.len()
            invariant
                open@.len() == ends@.len(),
                used@.len() == blobs@.len(),
                forall|q: int| 0 <= q < ends@.len() ==> blob_in_range(#[trigger] ends@[q]),
                forall|q: int| 0 <= q < blobs@.len() ==> blob_in_range(#[trigger] blobs@[q]),
                0 <= i < ends@.len(),
                0 <= j <= blobs@.len(),
                pair_view(acc) == scan_row(ends@, open@, blobs@, used@, i as int, j as int, start),
                acc matches Some(p) ==> p.0 < ends@.len() && p.1 < blobs@.len(),
            decreases blobs@.len() - j,
        {
            if open[i] && !used[j] {
                let c = cost(ends[i], blobs[j]);
                let better = match acc {
                    None => true,
                    Some(p) => c < p.2,
                };
                if c <= MATCH_GATE && better {
                    acc = Some((i, j, c));
                }
            }
            j = j + 1;
        }
        i = i + 1;
    }
    acc
}

// --------------------------------------------------------------------
// Greedy matching
// --------------------------------------------------------------------

/// Lowest cost first: pair the cheapest candidate pair, close its track
/// and take its blob, and go on, at most `fuel` times, until no candidate
/// pair is left. The result: which blobs were taken, and the blob each
/// track took.
pub open spec fn greedy(
    ends: Seq<Blob>,
    blobs: Seq<Blob>,
    open: Seq<bool>,
    used: Seq<bool>,
    taken: Seq<Option<usize>>,
    fuel: nat,
) -> (Seq<bool>, Seq<Option<usize>>)
    decreases fuel,
{
    if fuel == 0 {
        (used, taken)
    } else {
        match cheapest_pair(ends, open, blobs, used, ends.len() as int) {
            None => (used, taken),
            Some(p) => greedy(
                ends,
                blobs,
                open.update(p.0, false),
                used.update(p.1, true),
                taken.update(p.0, Some(p.1 as usize)),
                (fuel - 1) as nat,
            ),
        }
    }
}

/// The matching of one frame: tracks with ends `ends`, of which those
/// marked in `open` may take a blob, against the frame's blobs.
pub open spec fn frame_matching(ends: Seq<Blob>, open: Seq<bool>, blobs: Seq<Blob>) -> (
    Seq<bool>,
    Seq<Option<usize>>,
) {
    greedy(
        ends,
        blobs,
        open,
        Seq::new(blobs.len(), |j: int| false),
        Seq::new(ends.len(), |i: int| None::<usize>),
        ends.len() as nat,
    )
}

fn match_blobs(ends: &Vec<Blob>, open: Vec<bool>, blobs: &Vec<Blob>) -> (r: (Vec<bool>, Vec<Option<usize>>))
    requires
        open@.len() == ends@.len(),
        forall|i: int| 0 <= i < ends@.len() ==> blob_in_range(#[trigger] ends@[i]),
        forall|j: int| 0 <= j < blobs@.len() ==> blob_in_range(#[trigger] blobs@[j]),
    ensures
        (r.0@, r.1@) == frame_matching(ends@, open@, blobs@),
        r.0@.len() == blobs@.len(),
        r.1@.len() == ends@.len(),
        forall|i: int| 0 <= i < ends@.len() ==> (#[trigger] r.1@[i] matches Some(j) ==> j < blobs@.len()),
{
    let ghost goal = frame_matching(ends@, open@, blobs@);
    let n = ends.len();
    let mut open = open;
    let mut used: Vec<bool> = Vec::new();
    let mut q: usize = 0;
    while q < blobs.len()
        invariant
            0 <= q <= blobs@.len(),
            used@ == Seq::new(q as nat, |j: int| false),
        decreases blobs@.len() - q,
    {
        used.push(false);
        q = q + 1;
        proof {
            assert(used@ =~= Seq::new(q as nat, |j: int| false));
        }
    }
    let mut taken: Vec<Option<usize>> = Vec::new();
    q = 0;
    while q < n
        invariant
            n == ends@.len(),
            0 <= q <= n,
            taken@ == Seq::new(q as nat, |i: int| None::<usize>),
        decreases n - q,
    {
        taken.push(None);
        q = q + 1;
        proof {
            assert(taken@ =~= Seq::new(q as nat, |i: int| None::<usize>));
        }
    }
    let mut step: usize = 0;
    let mut done = false;
    while step < n && !done
        invariant
            n == ends@.len(),
            open@.len() == n,
            used@.len() == blobs@.len(),
            taken@.len() == n,
            forall|i: int| 0 <= i < ends@.len() ==> blob_in_range(#[trigger] ends@[i]),
            forall|j: int| 0 <= j < blobs@.len() ==> blob_in_range(#[trigger] blobs@[j]),
            forall|i: int| 0 <= i < n ==> (#[trigger] taken@[i] matches Some(j) ==> j < blobs@.len()),
            0 <= step <= n,
            done ==> goal == (used@, taken@),
            !done ==> greedy(ends@, blobs@, open@, used@, taken@, (n - step) as nat) == goal,
        decreases n - step,
    {
        let r = cheapest(ends, &open, blobs, &used);
        match r {
            None => {
                done = true;
            },
            Some(p) => {
                let (i, j, _c) = p;
                open.set(i, false);
                used.set(j, true);
                taken.set(i, Some(j));
            },
        }
        step = step + 1;
    }
    (used, taken)
}

// --------------------------------------------------------------------
// Tracks over frames
// --------------------------------------------------------------------

/// The blobs not taken among the first `j`, in order.
pub open spec fn unused_blobs(blobs: Seq<Blob>, used: Seq<bool>, j: int) -> Seq<Blob>
    decreases j,
{
    if j <= 0 {
        Seq::empty()
    } else {
        let p = unused_blobs(blobs, used, j - 1);
        if used[j - 1] {
            p
        } else {
            p.push(blobs[j - 1])
        }
    }
}

/// The last blob of a track.
pub open spec fn track_end(s: Seq<(u32, Blob)>) -> Blob {
    s.last().1
}

/// A track last seen in frame `last` may take a blob in frame `k`: it has
/// gone at most [`MAX_GAP`] frames without one.
pub open spec fn track_open(last: int, k: int) -> bool {
    k - last <= MAX_GAP + 1
}

/// Frame `k`, at time `t`, with blobs `blobs`: each track that takes a
/// blob gets the sample `(t, blob)` and is seen in frame `k`; each blob
/// left over starts a new track, after the others, in order.
pub open spec fn frame_step(
    tracks: Seq<Seq<(u32, Blob)>>,
    last: Seq<int>,
    blobs: Seq<Blob>,
    t: u32,
    k: int,
) -> (Seq<Seq<(u32, Blob)>>, Seq<int>) {
    let ends = tracks.map_values(|s: Seq<(u32, Blob)>| track_end(s));
    let open = last.map_values(|l: int| track_open(l, k));
    let m = frame_matching(ends, open, blobs);
    let fresh = unused_blobs(blobs, m.0, blobs.len() as int);
    let grown = Seq::new(
        tracks.len(),
        |i: int|
            match m.1[i] {
                Some(j) => tracks[i].push((t, blobs[j as int])),
                None => tracks[i],
            },
    );
    let seen = Seq::new(tracks.len(), |i: int| if m.1[i] is Some { k } else { last[i] });
    (grown + fresh.map_values(|b: Blob| seq![(t, b)]), seen + fresh.map_values(|b: Blob| k))
}

/// The tracks, and the frame each was last seen in, after the first `n`
/// detections.
pub open spec fn tracks_after(dets: Seq<Detection>, n: int) -> (Seq<Seq<(u32, Blob)>>, Seq<int>)
    decreases n,
{
    if n <= 0 {
        (Seq::empty(), Seq::empty())
    } else {
        let p = tracks_after(dets, n - 1);
        frame_step(p.0, p.1, dets[n - 1].blobs@, dets[n - 1].t_ms, n - 1)
    }
}

/// The tracks that the detections make: the `(time, blob)` samples of
/// each, in order of creation.
pub open spec fn blob_tracks(dets: Seq<Detection>) -> Seq<Seq<(u32, Blob)>> {
    tracks_after(dets, dets.len() as int).0
}

pub open spec fn sample_seqs(v: Seq<Vec<(u32, Blob)>>) -> Seq<Seq<(u32, Blob)>> {
    v.map_values(|s: Vec<(u32, Blob)>| s@)
}

pub open spec fn frame_numbers(v: Seq<usize>) -> Seq<int> {
    v.map_values(|x: usize| x as int)
}

/// Every blob of every frame lies within the tracker's coordinate range.
pub open spec fn all_blobs_in_range(dets: Seq<Detection>) -> bool {
    forall|i: int, q: int|
        0 <= i < dets.len() && 0 <= q < dets[i].blobs@.len() ==> blob_in_range(
            #[trigger] dets[i].blobs@[q],
        )
}

/// Every track has at least one sample and at most `n`, all in range.
pub open spec fn tracks_sound(tracks: Seq<Seq<(u32, Blob)>>, n: int) -> bool {
    forall|i: int|
        0 <= i < tracks.len() ==> {
            &&& 1 <= (#[trigger] tracks[i]).len() <= n
            &&& forall|q: int| 0 <= q < tracks[i].len() ==> blob_in_range(#[trigger] tracks[i][q].1)
        }
}

fn step_frame(tracks: &mut Vec<Vec<(u32, Blob)>>, last: &mut Vec<usize>, blobs: &Vec<Blob>, t: u32, k: usize)
    requires
        old(tracks)@.len() == old(last)@.len(),
        tracks_sound(sample_seqs(old(tracks)@), k as int),
        forall|i: int| 0 <= i < old(last)@.len() ==> #[trigger] old(last)@[i] < k,
        forall|j: int| 0 <= j < blobs@.len() ==> blob_in_range(#[trigger] blobs@[j]),
        k < usize::MAX,
    ensures
        (sample_seqs(final(tracks)@), frame_numbers(final(last)@)) == frame_step(
            sample_seqs(old(tracks)@),
            frame_numbers(old(last)@),
            blobs@,
            t,
            k as int,
        ),
        final(tracks)@.len() == final(last)@.len(),
        tracks_sound(sample_seqs(final(tracks)@), k + 1),
        forall|i: int| 0 <= i < final(last)@.len() ==> #[trigger] final(last)@[i] <= k,
{
    let ghost tr0 = sample_seqs(tracks@);
    let ghost last0 = frame_numbers(last@);
    let ghost old_tracks = tracks@;
    let nt = tracks.len();
    proof {
        assert forall|i: int| 0 <= i < nt implies 1 <= (#[trigger] old_tracks[i])@.len() by {
            assert(tr0[i] == old_tracks[i]@);
        }
    }
    let mut ends: Vec<Blob> = Vec::new();
    let mut open: Vec<bool> = Vec::new();
    let mut i: usize = 0;
    while i < nt
        invariant
            nt == tracks@.len(),
            tracks@ == old_tracks,
            nt == last@.len(),
            tr0 == sample_seqs(old_tracks),
            last0 == frame_numbers(last@),
            tracks_sound(tr0, k as int),
            forall|q: int| 0 <= q < nt ==> 1 <= (#[trigger] old_tracks[q])@.len(),
            forall|q: int| 0 <= q < nt ==> #[trigger] last@[q] < k,
            0 <= i <= nt,
            ends@ == tr0.map_values(|s: Seq<(u32, Blob)>| track_end(s)).subrange(0, i as int),
            open@ == last0.map_values(|l: int| track_open(l, k as int)).subrange(0, i as int),
        decreases nt - i,
    {
        let len = tracks[i].len();
        let e = tracks[i][len - 1].1;
        proof {
            assert(tr0[i as int] == old_tracks[i as int]@);
            assert(e == track_end(tr0[i as int]));
        }
        ends.push(e);
        let o = k - last[i] <= MAX_GAP + 1;
        open.push(o);
        proof {
            assert(ends@ =~= tr0.map_values(|s: Seq<(u32, Blob)>| track_end(s)).subrange(0, i + 1));
            assert(open@ =~= last0.map_values(|l: int| track_open(l, k as int)).subrange(0, i + 1));
        }
        i = i + 1;
    }
    let ghost ends_s = tr0.map_values(|s: Seq<(u32, Blob)>| track_end(s));
    proof {
        assert(ends@ =~= ends_s);
        assert(open@ =~= last0.map_values(|l: int| track_open(l, k as int)));
        assert forall|q: int| 0 <= q < nt implies blob_in_range(#[trigger] ends@[q]) by {
            assert(ends@[q] == track_end(tr0[q]));
            assert(tr0[q].len() >= 1);
        }
    }
    let (used, taken) = match_blobs(&ends, open, blobs);
    let ghost grown = Seq::new(
        nt as nat,
        |q: int|
            match taken@[q] {
                Some(j) => tr0[q].push((t, blobs@[j as int])),
                None => tr0[q],
            },
    );
    let ghost seen = Seq::new(nt as nat, |q: int| if taken@[q] is Some { k as int } else { last0[q] });
    i = 0;
    while i < nt
        invariant
            nt == tracks@.len(),
            nt == last@.len(),
            tr0 == sample_seqs(old_tracks),
            old_tracks.len() == nt,
            taken@.len() == nt,
            last0.len() == nt,
            forall|q: int| 0 <= q < nt ==> (#[trigger] taken@[q] matches Some(j) ==> j < blobs@.len()),
            grown == Seq::new(
                nt as nat,
                |q: int|
                    match taken@[q] {
                        Some(j) => tr0[q].push((t, blobs@[j as int])),
                        None => tr0[q],
                    },
            ),
            seen == Seq::new(nt as nat, |q: int| if taken@[q] is Some { k as int } else { last0[q] }),
            0 <= i <= nt,
            forall|q: int| 0 <= q < i ==> (#[trigger] tracks@[q])@ == grown[q],
            forall|q: int| i <= q < nt ==> #[trigger] tracks@[q] == old_tracks[q],
            forall|q: int| 0 <= q < i ==> #[trigger] last@[q] as int == seen[q],
            forall|q: int| i <= q < nt ==> #[trigger] last@[q] as int == last0[q],
        decreases nt - i,
    {
        let ghost tr1 = tracks@;
        let ghost l1 = last@;
        proof {
            assert(tr0[i as int] == old_tracks[i as int]@);
            assert(tr1[i as int] == old_tracks[i as int]);
        }
        let ti: Option<usize> = taken[i];
        match ti {
            Some(j) => {
                assert(taken@[i as int] == Some(j));
                tracks[i].push((t, blobs[j]));
                last.set(i, k);
                proof {
                    assert(tracks@[i as int]@ == grown[i as int]);
                    assert(last@[i as int] as int == seen[i as int]);
                }
            },
            None => {
                proof {
                    assert(tracks@[i as int]@ == grown[i as int]);
                    assert(last@[i as int] as int == seen[i as int]);
                }
            },
        }
        proof {
            assert forall|q: int| 0 <= q < i + 1 implies (#[trigger] tracks@[q])@ == grown[q] by {
                if q < i {
                    assert(tracks@[q] == tr1[q]);
                }
            }
            assert forall|q: int| 0 <= q < i + 1 implies #[trigger] last@[q] as int == seen[q] by {
                if q < i {
                    assert(last@[q] == l1[q]);
                }
            }
        }
        i = i + 1;
    }
    proof {
        assert(sample_seqs(tracks@) =~= grown);
        assert(frame_numbers(last@) =~= seen);
    }
    let mut j: usize = 0;
    while j < blobs.len()
        invariant
            used@.len() == blobs@.len(),
            tracks@.len() == last@.len(),
            0 <= j <= blobs@.len(),
            sample_seqs(tracks@) == grown + unused_blobs(blobs@, used@, j as int).map_values(
                |b: Blob| seq![(t, b)],
            ),
            frame_numbers(last@) == seen + unused_blobs(blobs@, used@, j as int).map_values(
                |b: Blob| k as int,
            ),
        decreases blobs@.len() - j,
    {
        let ghost tr1 = tracks@;
        let ghost l1 = last@;
        if !used[j] {
            let mut s: Vec<(u32, Blob)> = Vec::new();
            s.push((t, blobs[j]));
            tracks.push(s);
            last.push(k);
            proof {
                assert(sample_seqs(tracks@) =~= sample_seqs(tr1).push(seq![(t, blobs@[j as int])]));
                assert(frame_numbers(last@) =~= frame_numbers(l1).push(k as int));
            }
        }
        proof {
            let u = unused_blobs(blobs@, used@, j as int);
            if !used@[j as int] {
                assert(unused_blobs(blobs@, used@, j + 1) == u.push(blobs@[j as int]));
                assert(u.push(blobs@[j as int]).map_values(|b: Blob| seq![(t, b)]) =~= u.map_values(
                    |b: Blob| seq![(t, b)],
                ).push(seq![(t, blobs@[j as int])]));
                assert(u.push(blobs@[j as int]).map_values(|b: Blob| k as int) =~= u.map_values(
                    |b: Blob| k as int,
                ).push(k as int));
            } else {
                assert(unused_blobs(blobs@, used@, j + 1) == u);
            }
        }
        j = j + 1;
    }
    proof {
        let fresh = unused_blobs(blobs@, used@, blobs@.len() as int);
        let res = sample_seqs(tracks@);
        assert forall|q: int| 0 <= q < res.len() implies {
            &&& 1 <= (#[trigger] res[q]).len() <= k + 1
            &&& forall|p: int| 0 <= p < res[q].len() ==> blob_in_range(#[trigger] res[q][p].1)
        } by {
            if q < nt {
                assert(res[q] == grown[q]);
                assert(tr0[q].len() >= 1 && tr0[q].len() <= k);
            } else {
                lemma_unused_good(blobs@, used@, |b: Blob| blob_in_range(b), blobs@.len() as int);
                assert(res[q] == seq![(t, fresh[q - nt])]);
            }
        }
        assert forall|q: int| 0 <= q < last@.len() implies #[trigger] last@[q] <= k by {
            assert(frame_numbers(last@)[q] == last@[q] as int);
            if q >= nt {
                assert(frame_numbers(last@)[q] == k);
            } else {
                assert(frame_numbers(last@)[q] == seen[q]);
            }
        }
    }
}

proof fn lemma_scan_row_range(
    ends: Seq<Blob>,
    open: Seq<bool>,
    blobs: Seq<Blob>,
    used: Seq<bool>,
    i: int,
    j: int,
    acc: Option<(int, int, int)>,
)
    requires
        0 <= j <= blobs.len(),
    ensures
        scan_row(ends, open, blobs, used, i, j, acc) == acc || (scan_row(ends, open, blobs, used, i, j, acc) matches Some(p) && p.0 == i && 0 <= p.1 < j
            && candidate(ends, open, blobs, used, i, p.1)),
    decreases j,
{
    if j > 0 {
        lemma_scan_row_range(ends, open, blobs, used, i, j - 1, acc);
    }
}

proof fn lemma_cheapest_range(ends: Seq<Blob>, open: Seq<bool>, blobs: Seq<Blob>, used: Seq<bool>, i: int)
    requires
        0 <= i,
    ensures
        cheapest_pair(ends, open, blobs, used, i) matches Some(p) ==> 0 <= p.0 < i && 0 <= p.1 < blobs.len()
            && candidate(ends, open, blobs, used, p.0, p.1),
    decreases i,
{
    if i > 0 {
        lemma_cheapest_range(ends, open, blobs, used, i - 1);
        lemma_scan_row_range(
            ends,
            open,
            blobs,
            used,
            i - 1,
            blobs.len() as int,
            cheapest_pair(ends, open, blobs, used, i - 1),
        );
    }
}

proof fn lemma_greedy_range(
    ends: Seq<Blob>,
    blobs: Seq<Blob>,
    open: Seq<bool>,
    used: Seq<bool>,
    taken: Seq<Option<usize>>,
    fuel: nat,
)
    requires
        taken.len() == ends.len(),
        forall|q: int| 0 <= q < taken.len() ==> (#[trigger] taken[q] matches Some(j) ==> j < blobs.len()),
    ensures
        greedy(ends, blobs, open, used, taken, fuel).1.len() == taken.len(),
        forall|q: int|
            0 <= q < taken.len() ==> (#[trigger] greedy(ends, blobs, open, used, taken, fuel).1[q] matches Some(
                j,
            ) ==> j < blobs.len()),
    decreases fuel,
{
    if fuel > 0 {
        lemma_cheapest_range(ends, open, blobs, used, ends.len() as int);
        if let Some(p) = cheapest_pair(ends, open, blobs, used, ends.len() as int) {
            let t2 = taken.update(p.0, Some(p.1 as usize));
            assert forall|q: int| 0 <= q < t2.len() implies (#[trigger] t2[q] matches Some(j) ==> j
                < blobs.len()) by {
                if q != p.0 {
                    assert(t2[q] == taken[q]);
                }
            }
            lemma_greedy_range(
                ends,
                blobs,
                open.update(p.0, false),
                used.update(p.1, true),
                t2,
                (fuel - 1) as nat,
            );
        }
    }
}

/// Every track has at least one sample and at most `n`, and every sample's
/// blob satisfies `good`.
pub open spec fn tracks_within(tracks: Seq<Seq<(u32, Blob)>>, good: spec_fn(Blob) -> bool, n: int) -> bool {
    forall|i: int|
        0 <= i < tracks.len() ==> {
            &&& 1 <= (#[trigger] tracks[i]).len() <= n
            &&& forall|q: int| 0 <= q < tracks[i].len() ==> good(#[trigger] tracks[i][q].1)
        }
}

proof fn lemma_unused_good(blobs: Seq<Blob>, used: Seq<bool>, good: spec_fn(Blob) -> bool, j: int)
    requires
        0 <= j <= blobs.len(),
        forall|q: int| 0 <= q < blobs.len() ==> good(#[trigger] blobs[q]),
    ensures
        forall|q: int|
            0 <= q < unused_blobs(blobs, used, j).len() ==> good(#[trigger] unused_blobs(blobs, used, j)[q]),
    decreases j,
{
    if j > 0 {
        lemma_unused_good(blobs, used, good, j - 1);
        let p = unused_blobs(blobs, used, j - 1);
        assert forall|q: int| 0 <= q < unused_blobs(blobs, used, j).len() implies good(
            #[trigger] unused_blobs(blobs, used, j)[q],
        ) by {
            if q < p.len() {
                assert(unused_blobs(blobs, used, j)[q] == p[q]);
            }
        }
    }
}

/// Each track is made of blobs of the frames, one frame at most once: after
/// `n` frames whose blobs all satisfy `good`, every track has between one
/// and `n` samples, and the blob of every sample satisfies `good`.
pub proof fn lemma_tracks_within(dets: Seq<Detection>, good: spec_fn(Blob) -> bool, n: int)
    requires
        0 <= n <= dets.len(),
        forall|i: int, q: int|
            0 <= i < dets.len() && 0 <= q < dets[i].blobs@.len() ==> good(#[trigger] dets[i].blobs@[q]),
    ensures
        tracks_within(tracks_after(dets, n).0, good, n),
    decreases n,
{
    if n > 0 {
        lemma_tracks_within(dets, good, n - 1);
        let p = tracks_after(dets, n - 1);
        let tracks = p.0;
        let blobs = dets[n - 1].blobs@;
        let t = dets[n - 1].t_ms;
        let k = n - 1;
        let ends = tracks.map_values(|s: Seq<(u32, Blob)>| track_end(s));
        let open = p.1.map_values(|l: int| track_open(l, k));
        let m = frame_matching(ends, open, blobs);
        let init = Seq::new(ends.len(), |i: int| None::<usize>);
        lemma_greedy_range(ends, blobs, open, Seq::new(blobs.len(), |j: int| false), init, ends.len() as nat);
        let fresh = unused_blobs(blobs, m.0, blobs.len() as int);
        assert forall|q: int| 0 <= q < blobs.len() implies good(#[trigger] blobs[q]) by {
            assert(good(dets[n - 1].blobs@[q]));
        }
        lemma_unused_good(blobs, m.0, good, blobs.len() as int);
        let r = tracks_after(dets, n).0;
        assert forall|i: int| 0 <= i < r.len() implies {
            &&& 1 <= (#[trigger] r[i]).len() <= n
            &&& forall|q: int| 0 <= q < r[i].len() ==> good(#[trigger] r[i][q].1)
        } by {
            if i < tracks.len() {
                assert(m.1[i] matches Some(j) ==> j < blobs.len());
                if let Some(j) = m.1[i] {
                    assert(r[i] == tracks[i].push((t, blobs[j as int])));
                    assert forall|q: int| 0 <= q < r[i].len() implies good(#[trigger] r[i][q].1) by {
                        if q < tracks[i].len() {
                            assert(r[i][q] == tracks[i][q]);
                        }
                    }
                } else {
                    assert(r[i] == tracks[i]);
                }
            } else {
                assert(r[i] == seq![(t, fresh[i - tracks.len()])]);
            }
        }
    }
}

// --------------------------------------------------------------------
// As many samples as blobs
// --------------------------------------------------------------------

/// Number of tracks among the first `k` that took a blob.
pub open spec fn count_taken(taken: Seq<Option<usize>>, k: int) -> nat
    decreases k,
{
    if k <= 0 {
        0
    } else {
        count_taken(taken, k - 1) + if taken[k - 1] is Some { 1nat } else { 0nat }
    }
}

/// Number of blobs among the first `k` that were taken.
pub open spec fn count_used(used: Seq<bool>, k: int) -> nat
    decreases k,
{
    if k <= 0 {
        0
    } else {
        count_used(used, k - 1) + if used[k - 1] { 1nat } else { 0nat }
    }
}

/// Number of samples in the first `m` tracks.
pub open spec fn total_samples(tracks: Seq<Seq<(u32, Blob)>>, m: int) -> nat
    decreases m,
{
    if m <= 0 {
        0
    } else {
        total_samples(tracks, m - 1) + tracks[m - 1].len()
    }
}

/// Number of blobs in the first `n` detections.
pub open spec fn total_blobs(dets: Seq<Detection>, n: int) -> nat
    decreases n,
{
    if n <= 0 {
        0
    } else {
        total_blobs(dets, n - 1) + dets[n - 1].blobs@.len()
    }
}

proof fn lemma_count_taken_update(taken: Seq<Option<usize>>, i: int, v: usize, k: int)
    requires
        0 <= i < taken.len(),
        taken[i] is None,
        0 <= k <= taken.len(),
    ensures
        count_taken(taken.update(i, Some(v)), k) == count_taken(taken, k) + if i < k { 1nat } else { 0nat },
    decreases k,
{
    if k > 0 {
        lemma_count_taken_update(taken, i, v, k - 1);
    }
}

proof fn lemma_count_used_update(used: Seq<bool>, j: int, k: int)
    requires
        0 <= j < used.len(),
        !used[j],
        0 <= k <= used.len(),
    ensures
        count_used(used.update(j, true), k) == count_used(used, k) + if j < k { 1nat } else { 0nat },
    decreases k,
{
    if k > 0 {
        lemma_count_used_update(used, j, k - 1);
    }
}

proof fn lemma_count_none(n: nat, k: int)
    requires
        0 <= k <= n,
    ensures
        count_taken(Seq::new(n, |i: int| None::<usize>), k) == 0,
    decreases k,
{
    if k > 0 {
        lemma_count_none(n, k - 1);
    }
}

proof fn lemma_count_false(n: nat, k: int)
    requires
        0 <= k <= n,
    ensures
        count_used(Seq::new(n, |j: int| false), k) == 0,
    decreases k,
{
    if k > 0 {
        lemma_count_false(n, k - 1);
    }
}

/// Each greedy step closes one open track, which had taken nothing, and
/// takes one blob not taken before: as many tracks take a blob as blobs
/// are taken.
proof fn lemma_greedy_counts(
    ends: Seq<Blob>,
    blobs: Seq<Blob>,
    open: Seq<bool>,
    used: Seq<bool>,
    taken: Seq<Option<usize>>,
    fuel: nat,
)
    requires
        taken.len() == ends.len(),
        open.len() == ends.len(),
        used.len() == blobs.len(),
        forall|i: int| 0 <= i < open.len() && #[trigger] open[i] ==> taken[i] is None,
        count_taken(taken, taken.len() as int) == count_used(used, used.len() as int),
    ensures
        ({
            let g = greedy(ends, blobs, open, used, taken, fuel);
            &&& g.0.len() == used.len()
            &&& g.1.len() == taken.len()
            &&& count_taken(g.1, g.1.len() as int) == count_used(g.0, g.0.len() as int)
        }),
    decreases fuel,
{
    if fuel > 0 {
        lemma_cheapest_range(ends, open, blobs, used, ends.len() as int);
        if let Some(p) = cheapest_pair(ends, open, blobs, used, ends.len() as int) {
            assert(candidate(ends, open, blobs, used, p.0, p.1));
            lemma_count_taken_update(taken, p.0, p.1 as usize, taken.len() as int);
            lemma_count_used_update(used, p.1, used.len() as int);
            let o2 = open.update(p.0, false);
            let t2 = taken.update(p.0, Some(p.1 as usize));
            assert forall|i: int| 0 <= i < o2.len() && #[trigger] o2[i] implies t2[i] is None by {
                assert(i != p.0);
                assert(open[i]);
            }
            lemma_greedy_counts(ends, blobs, o2, used.update(p.1, true), t2, (fuel - 1) as nat);
        }
    }
}

proof fn lemma_unused_len(blobs: Seq<Blob>, used: Seq<bool>, j: int)
    requires
        0 <= j <= blobs.len(),
    ensures
        unused_blobs(blobs, used, j).len() + count_used(used, j) == j,
    decreases j,
{
    if j > 0 {
        lemma_unused_len(blobs, used, j - 1);
    }
}

proof fn lemma_total_same(a: Seq<Seq<(u32, Blob)>>, b: Seq<Seq<(u32, Blob)>>, m: int)
    requires
        0 <= m <= a.len(),
        m <= b.len(),
        forall|i: int| 0 <= i < m ==> (#[trigger] a[i]).len() == b[i].len(),
    ensures
        total_samples(a, m) == total_samples(b, m),
    decreases m,
{
    if m > 0 {
        lemma_total_same(a, b, m - 1);
    }
}

proof fn lemma_total_append(a: Seq<Seq<(u32, Blob)>>, b: Seq<Seq<(u32, Blob)>>, k: int)
    requires
        0 <= k <= b.len(),
    ensures
        total_samples(a + b, a.len() + k) == total_samples(a, a.len() as int) + total_samples(b, k),
    decreases k,
{
    if k > 0 {
        lemma_total_append(a, b, k - 1);
        assert((a + b)[a.len() + k - 1] == b[k - 1]);
    } else {
        lemma_total_same(a + b, a, a.len() as int);
    }
}

proof fn lemma_total_singletons(s: Seq<Seq<(u32, Blob)>>, k: int)
    requires
        0 <= k <= s.len(),
        forall|i: int| 0 <= i < s.len() ==> (#[trigger] s[i]).len() == 1,
    ensures
        total_samples(s, k) == k,
    decreases k,
{
    if k > 0 {
        lemma_total_singletons(s, k - 1);
    }
}

proof fn lemma_total_grown(
    tracks: Seq<Seq<(u32, Blob)>>,
    grown: Seq<Seq<(u32, Blob)>>,
    taken: Seq<Option<usize>>,
    m: int,
)
    requires
        0 <= m <= tracks.len(),
        grown.len() == tracks.len(),
        taken.len() == tracks.len(),
        forall|i: int|
            0 <= i < tracks.len() ==> (#[trigger] grown[i]).len() == tracks[i].len() + if taken[i] is Some {
                1nat
            } else {
                0nat
            },
    ensures
        total_samples(grown, m) == total_samples(tracks, m) + count_taken(taken, m),
    decreases m,
{
    if m > 0 {
        lemma_total_grown(tracks, grown, taken, m - 1);
        assert(grown[m - 1].len() == tracks[m - 1].len() + if taken[m - 1] is Some { 1nat } else { 0nat });
    }
}

/// One frame adds one sample per blob of the frame.
proof fn lemma_frame_step_total(
    tracks: Seq<Seq<(u32, Blob)>>,
    last: Seq<int>,
    blobs: Seq<Blob>,
    t: u32,
    k: int,
)
    requires
        last.len() == tracks.len(),
    ensures
        total_samples(
            frame_step(tracks, last, blobs, t, k).0,
            frame_step(tracks, last, blobs, t, k).0.len() as int,
        ) == total_samples(tracks, tracks.len() as int) + blobs.len(),
{
    let ends = tracks.map_values(|s: Seq<(u32, Blob)>| track_end(s));
    let open = last.map_values(|l: int| track_open(l, k));
    let none = Seq::new(ends.len(), |i: int| None::<usize>);
    let nothing = Seq::new(blobs.len(), |j: int| false);
    lemma_count_none(ends.len(), ends.len() as int);
    lemma_count_false(blobs.len(), blobs.len() as int);
    lemma_greedy_counts(ends, blobs, open, nothing, none, ends.len() as nat);
    let m = frame_matching(ends, open, blobs);
    let fresh = unused_blobs(blobs, m.0, blobs.len() as int);
    lemma_unused_len(blobs, m.0, blobs.len() as int);
    let grown = Seq::new(
        tracks.len(),
        |i: int|
            match m.1[i] {
                Some(j) => tracks[i].push((t, blobs[j as int])),
                None => tracks[i],
            },
    );
    lemma_total_grown(tracks, grown, m.1, tracks.len() as int);
    let singles = fresh.map_values(|b: Blob| seq![(t, b)]);
    lemma_total_singletons(singles, singles.len() as int);
    lemma_total_append(grown, singles, singles.len() as int);
    assert(frame_step(tracks, last, blobs, t, k).0 == grown + singles);
}

/// Tracking keeps count of the blobs: after the first `n` frames the tracks
/// together hold exactly as many samples as those frames have blobs.
pub proof fn lemma_tracks_hold_every_blob(dets: Seq<Detection>, n: int)
    requires
        0 <= n <= dets.len(),
    ensures
        total_samples(tracks_after(dets, n).0, tracks_after(dets, n).0.len() as int) == total_blobs(dets, n),
        tracks_after(dets, n).0.len() == tracks_after(dets, n).1.len(),
    decreases n,
{
    if n > 0 {
        lemma_tracks_hold_every_blob(dets, n - 1);
        let p = tracks_after(dets, n - 1);
        lemma_frame_step_total(p.0, p.1, dets[n - 1].blobs@, dets[n - 1].t_ms, n - 1);
    }
}

/// Tracks the blobs of the detections across frames; see [`blob_tracks`].
pub fn track_blobs(dets: &[Detection]) -> (r: Vec<Vec<(u32, Blob)>>)
    requires
        all_blobs_in_range(dets@),
    ensures
        sample_seqs(r@) == blob_tracks(dets@),
        tracks_sound(blob_tracks(dets@), dets@.len() as int),
{
    let mut tracks: Vec<Vec<(u32, Blob)>> = Vec::new();
    let mut last: Vec<usize> = Vec::new();
    let mut k: usize = 0;
    proof {
        assert(sample_seqs(tracks@) =~= Seq::<Seq<(u32, Blob)>>::empty());
        assert(frame_numbers(last@) =~= Seq::<int>::empty());
    }
    while k < dets.len()
        invariant
            all_blobs_in_range(dets@),
            0 <= k <= dets@.len(),
            tracks@.len() == last@.len(),
            (sample_seqs(tracks@), frame_numbers(last@)) == tracks_after(dets@, k as int),
            tracks_sound(sample_seqs(tracks@), k as int),
            forall|i: int| 0 <= i < last@.len() ==> #[trigger] last@[i] < k,
        decreases dets@.len() - k,
    {
        let d = &dets[k];
        proof {
            assert forall|q: int| 0 <= q < d.blobs@.len() implies blob_in_range(#[trigger] d.blobs@[q]) by {
                assert(dets@[k as int].blobs@[q] == d.blobs@[q]);
            }
        }
        step_frame(&mut tracks, &mut last, &d.blobs, d.t_ms, k);
        k = k + 1;
    }
    tracks
}

} // verus!
