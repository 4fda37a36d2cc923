//! Decompilation of decoded frames into a document: detection in every
//! frame, then tracking.
use vstd::prelude::*;
use crate::ast::{Document, Number};
use crate::detect::{blob_bounded, detect_all, Blob, Detection, VideoFrame};
use crate::track::{
    blob_in_range, build_document, document_of, keyframe_at, median_number_of, name_bg, name_main,
    number_values, rounded, shape_name, shape_statements, track_in_range, track_keep,
    tracks_statements,
};
use crate::tracking::{all_blobs_in_range, blob_tracks, lemma_tracks_within, tracks_within};
use crate::writer::decimal;
use crate::roundtrip::{
    animation_ok, is_identifier, keyframe_ok, lemma_parse_write_round_trip, numbers_nonneg,
    scene_ok, statement_ok, transform_args, writable,
};
use crate::parser::spec_parse;
use crate::writer::spec_write;
use vstd::utf8::{encode_utf8, is_ascii_chars};

verus! {

/// Why a video could not be decompiled.
pub enum DecompileError {
    /// The video container could not be decoded; the decoder's message.
    Image(String),
    /// The video holds nothing to decompile, or frames it cannot take.
    Other(String),
}

pub open spec fn no_frames_message() -> Seq<char> {
    "no frames in input"@
}

/// The detections of a document built from `frames`: what detection
/// reports for each frame.
pub open spec fn detections_of(frames: Seq<VideoFrame>, dets: Seq<Detection>) -> bool {
    &&& dets.len() == frames.len()
    &&& forall|i: int|
        0 <= i < frames.len() ==> {
            &&& (#[trigger] dets[i]).frame_index == i
            &&& dets[i].t_ms == crate::detect::start_time(frames, i)
            &&& dets[i].bg == crate::detect::background_of(frames[i])
            &&& crate::detect::blob_detected(frames[i], dets[i].bg, dets[i].blob)
            &&& crate::detect::blobs_detected(frames[i], dets[i].bg, dets[i].blobs@)
        }
}

/// What decompiling `frames` gives: an error for no frames, else the
/// document that tracking builds from the detections in every frame, which
/// survives writing and parsing back.
pub open spec fn decompiled(frames: Seq<VideoFrame>, r: Result<Document, DecompileError>) -> bool {
    &&& (frames.len() == 0 <==> r is Err)
    &&& (r is Err ==> (r matches Err(DecompileError::Other(m)) && m@ == no_frames_message()))
    &&& (r matches Ok(d) ==> exists|dets: Seq<Detection>|
        #[trigger] detections_of(frames, dets) && d@ == document_of(frames, dets))
    &&& (r matches Ok(d) ==> spec_parse(encode_utf8(spec_write(d@))) == Ok::<
        crate::ast::DocumentV,
        (int, int),
    >(d@))
}

/// Decompiles decoded frames; see [`decompiled`].
pub fn decompile_frames(frames: &[VideoFrame]) -> (r: Result<Document, DecompileError>)
    requires
        forall|i: int| 0 <= i < frames@.len() ==> #[trigger] frames@[i].well_formed(),
        frames@.len() <= 0x8000_0000,
    ensures
        decompiled(frames@, r),
{
    if frames.len() == 0 {
        proof {
            reveal_strlit("no frames in input");
        }
        return Err(DecompileError::Other("no frames in input".to_owned()));
    }
    let detections = detect_all(frames);
    assert(detections_of(frames@, detections@));
    proof {
        lemma_detections_fit(frames@, detections@);
        assert(all_blobs_in_range(detections@)) by {
            assert forall|i: int, q: int|
                0 <= i < detections@.len() && 0 <= q < detections@[i].blobs@.len() implies blob_in_range(
                #[trigger] detections@[i].blobs@[q],
            ) by {
                assert(blob_fits(detections@[i].blobs@[q]));
            }
        }
        lemma_decompiled_document_round_trips(frames@, detections@);
    }
    let doc = build_document(frames, detections.as_slice());
    Ok(doc)
}

pub open spec fn too_many_frames_message() -> Seq<char> {
    "too many frames"@
}

pub open spec fn frame_too_large_message() -> Seq<char> {
    "frame too large"@
}

/// Every frame holds its pixels and is small enough to be measured.
pub open spec fn frames_fit(frames: Seq<VideoFrame>) -> bool {
    forall|i: int| 0 <= i < frames.len() ==> #[trigger] frames[i].well_formed()
}

/// What [`decompile_checked`] gives for `frames`.
pub open spec fn decompiled_checked(frames: Seq<VideoFrame>, r: Result<Document, DecompileError>) -> bool {
    &&& frames.len() > 0x8000_0000 ==> (r matches Err(DecompileError::Other(m)) && m@
        == too_many_frames_message())
    &&& frames.len() <= 0x8000_0000 && !frames_fit(frames) ==> (r matches Err(
        DecompileError::Other(m),
    ) && m@ == frame_too_large_message())
    &&& frames.len() <= 0x8000_0000 && frames_fit(frames) ==> decompiled(frames, r)
}

/// Decompiles frames of any size: an error for more frames than can be
/// counted, or for a frame that does not hold its pixels or is too large
/// to measure; else [`decompile_frames`].
pub fn decompile_checked(frames: &[VideoFrame]) -> (r: Result<Document, DecompileError>)
    ensures
        decompiled_checked(frames@, r),
{
    if frames.len() > 0x8000_0000 {
        proof {
            reveal_strlit("too many frames");
        }
        return Err(DecompileError::Other("too many frames".to_owned()));
    }
    let mut i: usize = 0;
    while i < frames.len()
        invariant
            0 <= i <= frames@.len(),
            frames@.len() <= 0x8000_0000,
            forall|q: int| 0 <= q < i ==> #[trigger] frames@[q].well_formed(),
        decreases frames@.len() - i,
    {
        let f = &frames[i];
        proof {
            assert(f.width * f.height <= 0xffff_ffff * 0xffff_ffff) by (nonlinear_arith)
                requires
                    f.width <= 0xffff_ffff,
                    f.height <= 0xffff_ffff,
            ;
        }
        let bytes: u128 = f.width as u128 * f.height as u128 * 4;
        if bytes > f.pixels.len() as u128 || bytes > i32::MAX as u128 {
            proof {
                reveal_strlit("frame too large");
                assert(!frames@[i as int].well_formed());
                assert(!frames_fit(frames@));
            }
            let m = "frame too large".to_owned();
            return Err(DecompileError::Other(m));
        }
        i = i + 1;
    }
    decompile_frames(frames)
}

/// Decompiles an animated GIF held in memory: an error where the decoder
/// refuses the bytes, else [`decompile_checked`] on the frames of
/// [`load_gif`].
pub fn decompile_gif(bytes: &[u8]) -> (r: Result<Document, DecompileError>)
    ensures
        crate::frames::gif_frames(bytes@) is None ==> r matches Err(DecompileError::Image(_)),
        crate::frames::gif_frames(bytes@) matches Some(d) ==> exists|v: Seq<VideoFrame>|
            #[trigger] crate::frames::frames_of_decoded(v, d) && decompiled_checked(v, r),
{
    match crate::frames::load_gif(bytes) {
        Err(e) => Err(e),
        Ok(frames) => decompile_checked(frames.as_slice()),
    }
}

/// A blob whose centre and radius are not negative.
pub open spec fn blob_nonneg(b: Blob) -> bool {
    b.cx.ten_thousandths >= 0 && b.cy.ten_thousandths >= 0 && b.radius.ten_thousandths >= 0
}

/// A blob within the tracker's coordinate range, not negative.
pub open spec fn blob_fits(b: Blob) -> bool {
    blob_in_range(b) && blob_nonneg(b)
}

proof fn lemma_rounded_nonneg(n: Number)
    requires
        0 <= n.ten_thousandths <= crate::track::COORD_LIMIT,
    ensures
        rounded(n).ten_thousandths >= 0,
{
}

proof fn lemma_names_are_identifiers()
    ensures
        is_identifier(name_bg()),
        is_identifier(name_main()),
{
    assert(is_ascii_chars(name_bg()));
    assert(is_ascii_chars(name_main()));
}

/// `shape_<n>` is an identifier and no keyword.
proof fn lemma_shape_name(n: nat)
    ensures
        is_identifier(shape_name(n)),
        shape_name(n) != crate::writer::w_duration(),
        shape_name(n) != crate::writer::w_let(),
        shape_name(n) != crate::writer::w_animate(),
{
    let prefix = seq!['s', 'h', 'a', 'p', 'e', '_'];
    let w = shape_name(n);
    let d = decimal(n);
    crate::roundtrip::lemma_decimal(n);
    assert(w == prefix + d);
    assert forall|i: int| 0 <= i < w.len() implies '\0' <= #[trigger] w[i] <= '\u{7f}' && crate::lexer::is_ident_char(
        w[i] as u8,
    ) by {
        if i >= 6 {
            assert(w[i] == d[i - 6]);
            assert(crate::ast::ascii_bytes(d)[i - 6] == d[i - 6] as u8);
            assert(crate::lexer::is_digit(crate::ast::ascii_bytes(d)[i - 6]));
            assert('\0' <= d[i - 6] <= '\u{7f}');
        }
    }
    assert(is_ascii_chars(w));
    assert(w[0] != crate::writer::w_duration()[0]);
    assert(w[0] != crate::writer::w_let()[0]);
    assert(w[0] != crate::writer::w_animate()[0]);
}

/// The shape statements of track `n` are written and parsed back unchanged.
proof fn lemma_shape_statements_ok(n: nat, blobs: Seq<(u32, Blob)>)
    requires
        blobs.len() > 0,
        blobs.len() <= 0x8000_0000,
        forall|i: int| 0 <= i < blobs.len() ==> blob_fits(#[trigger] blobs[i].1),
    ensures
        forall|i: int|
            0 <= i < shape_statements(shape_name(n), blobs).len() ==> statement_ok(
                #[trigger] shape_statements(shape_name(n), blobs)[i],
            ),
{
    lemma_shape_name(n);
    assert(track_in_range(blobs)) by {
        assert forall|i: int| 0 <= i < blobs.len() implies blob_in_range(#[trigger] blobs[i].1) by {
            assert(blob_fits(blobs[i].1));
        }
    }
    let radii = blobs.map_values(|p: (u32, Blob)| p.1.radius);
    let m = median_number_of(radii);
    crate::stats::lemma_median_i64_is_element(number_values(radii));
    let q = choose|q: int|
        0 <= q < number_values(radii).len() && number_values(radii)[q] == crate::stats::median_i64(
            number_values(radii),
        );
    assert(blob_fits(blobs[q].1));
    lemma_rounded_nonneg(m);
    let first = blobs[0].1;
    assert(blob_fits(first));
    lemma_rounded_nonneg(first.cx);
    lemma_rounded_nonneg(first.cy);
    let b = shape_statements(shape_name(n), blobs);
    assert(statement_ok(b[0]));
    if b.len() == 4 {
        let keep = track_keep(blobs);
        crate::track::lemma_true_indices(
            crate::track::trajectory_mask(blobs, crate::track::RDP_TOLERANCE as int),
        );
        let a = b[3]->Animate_0;
        assert forall|i: int| 0 <= i < a.keyframes.len() implies keyframe_ok(
            #[trigger] a.keyframes[i],
        ) by {
            let k = keep[i];
            assert(a.keyframes[i] == keyframe_at(blobs, k));
            let bk = blobs[k as int].1;
            assert(blob_fits(bk));
            lemma_rounded_nonneg(bk.cx);
            lemma_rounded_nonneg(bk.cy);
            let ts = a.keyframes[i].transforms;
            assert(ts.len() == 1);
            assert(numbers_nonneg(transform_args(ts[0]).1));
        }
        assert(animation_ok(a));
    }
}

proof fn lemma_tracks_statements_ok(tracks: Seq<Seq<(u32, Blob)>>, m: int)
    requires
        0 <= m <= tracks.len(),
        tracks_within(tracks, |b: Blob| blob_fits(b), 0x8000_0000),
    ensures
        forall|i: int|
            0 <= i < tracks_statements(tracks, m).len() ==> statement_ok(
                #[trigger] tracks_statements(tracks, m)[i],
            ),
    decreases m,
{
    if m > 0 {
        lemma_tracks_statements_ok(tracks, m - 1);
        let s = tracks[m - 1];
        assert(1 <= s.len() <= 0x8000_0000);
        assert forall|i: int| 0 <= i < s.len() implies blob_fits(#[trigger] s[i].1) by {
            assert((|b: Blob| blob_fits(b))(s[i].1));
        }
        lemma_shape_statements_ok((m - 1) as nat, s);
        let before = tracks_statements(tracks, m - 1);
        let block = shape_statements(shape_name((m - 1) as nat), s);
        assert forall|i: int| 0 <= i < tracks_statements(tracks, m).len() implies statement_ok(
            #[trigger] tracks_statements(tracks, m)[i],
        ) by {
            if i < before.len() {
                assert(tracks_statements(tracks, m)[i] == before[i]);
            } else {
                assert(tracks_statements(tracks, m)[i] == block[i - before.len()]);
            }
        }
    }
}

/// Every blob of every track lies within range and is not negative.
proof fn lemma_tracks_fit(dets: Seq<Detection>)
    requires
        dets.len() <= 0x8000_0000,
        forall|i: int, q: int|
            0 <= i < dets.len() && 0 <= q < dets[i].blobs@.len() ==> blob_fits(
                #[trigger] dets[i].blobs@[q],
            ),
    ensures
        tracks_within(blob_tracks(dets), |b: Blob| blob_fits(b), 0x8000_0000),
{
    let good = |b: Blob| blob_fits(b);
    assert forall|i: int, q: int|
        0 <= i < dets.len() && 0 <= q < dets[i].blobs@.len() implies good(
        #[trigger] dets[i].blobs@[q],
    ) by {
        assert(blob_fits(dets[i].blobs@[q]));
    }
    lemma_tracks_within(dets, good, dets.len() as int);
}

/// Every statement of the document built from detections whose blobs all
/// fit is written and parsed back unchanged.
#[verifier::spinoff_prover]
proof fn lemma_document_statements_ok(frames: Seq<VideoFrame>, dets: Seq<Detection>)
    requires
        frames.len() >= 1,
        dets.len() <= 0x8000_0000,
        forall|i: int, q: int|
            0 <= i < dets.len() && 0 <= q < dets[i].blobs@.len() ==> blob_fits(
                #[trigger] dets[i].blobs@[q],
            ),
    ensures
        forall|i: int|
            0 <= i < document_of(frames, dets).scenes[0].statements.len() ==> statement_ok(
                #[trigger] document_of(frames, dets).scenes[0].statements[i],
            ),
{
    let d = document_of(frames, dets);
    let tracks = blob_tracks(dets);
    lemma_tracks_fit(dets);
    lemma_tracks_statements_ok(tracks, tracks.len() as int);
    lemma_names_are_identifiers();
    let st = d.scenes[0].statements;
    assert(name_bg() != crate::writer::w_duration() && name_bg() != crate::writer::w_let()
        && name_bg() != crate::writer::w_animate()) by {
        assert(name_bg().len() != crate::writer::w_duration().len());
        assert(name_bg().len() != crate::writer::w_let().len());
        assert(name_bg().len() != crate::writer::w_animate().len());
    }
    let ts = tracks_statements(tracks, tracks.len() as int);
    assert(statement_ok(st[0]));
    assert(statement_ok(st[1]));
    assert forall|i: int| 0 <= i < st.len() implies statement_ok(#[trigger] st[i]) by {
        if i >= 2 {
            assert(st[i] == ts[i - 2]);
        }
    }
}

/// The round trip of [`lemma_decompiled_document_round_trips`], for
/// detections whose blobs all fit.
#[verifier::spinoff_prover]
proof fn lemma_round_trip_of_fitting(frames: Seq<VideoFrame>, dets: Seq<Detection>)
    requires
        frames.len() >= 1,
        dets.len() <= 0x8000_0000,
        forall|i: int, q: int|
            0 <= i < dets.len() && 0 <= q < dets[i].blobs@.len() ==> blob_fits(
                #[trigger] dets[i].blobs@[q],
            ),
    ensures
        spec_parse(encode_utf8(spec_write(document_of(frames, dets)))) == Ok::<
            crate::ast::DocumentV,
            (int, int),
        >(document_of(frames, dets)),
{
    let d = document_of(frames, dets);
    lemma_document_statements_ok(frames, dets);
    lemma_names_are_identifiers();
    assert(scene_ok(d.scenes[0]));
    assert(writable(d));
    lemma_parse_write_round_trip(d);
}

/// Every blob that detection reports in well-formed frames fits.
proof fn lemma_detections_fit(frames: Seq<VideoFrame>, dets: Seq<Detection>)
    requires
        forall|i: int| 0 <= i < frames.len() ==> #[trigger] frames[i].well_formed(),
        detections_of(frames, dets),
    ensures
        forall|i: int, q: int|
            0 <= i < dets.len() && 0 <= q < dets[i].blobs@.len() ==> blob_fits(
                #[trigger] dets[i].blobs@[q],
            ),
{
    assert forall|i: int, q: int| 0 <= i < dets.len() && 0 <= q < dets[i].blobs@.len() implies blob_fits(
        #[trigger] dets[i].blobs@[q],
    ) by {
        let f = frames[i];
        assert(f.well_formed());
        assert(crate::detect::blobs_detected(f, dets[i].bg, dets[i].blobs@));
        crate::detect::lemma_detected_blobs_bounded(f, dets[i].bg, dets[i].blobs@);
        let b = dets[i].blobs@[q];
        assert(blob_bounded(b, f.width as int, f.height as int));
        assert(f.width <= 0x2000_0000 && f.height <= 0x2000_0000) by (nonlinear_arith)
            requires
                f.width * f.height * 4 <= i32::MAX,
                f.width >= 1,
                f.height >= 1,
        ;
    }
}

/// The document that decompilation builds from the detections of
/// well-formed frames survives writing and parsing back: the `.vac` text
/// it is written as parses to the same document.
pub proof fn lemma_decompiled_document_round_trips(frames: Seq<VideoFrame>, dets: Seq<Detection>)
    requires
        1 <= frames.len() <= 0x8000_0000,
        forall|i: int| 0 <= i < frames.len() ==> #[trigger] frames[i].well_formed(),
        detections_of(frames, dets),
    ensures
        spec_parse(encode_utf8(spec_write(document_of(frames, dets)))) == Ok::<
            crate::ast::DocumentV,
            (int, int),
        >(document_of(frames, dets)),
{
    lemma_detections_fit(frames, dets);
    lemma_round_trip_of_fitting(frames, dets);
}

} // verus!
