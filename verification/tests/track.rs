use vac::tracking::{cost, track_blobs};
use vac::track::{
    build_document, classify_easing, median_color, median_number, rdp, rdp_1d, round_to_int,
    simplify_trajectory, trajectory_has_motion,
};
use vac::{Blob, Color, Detection, Document, Easing, Number, Property, Shape, Statement, Transform, Value, VideoFrame};

fn num(v: f32) -> Number {
    Number::from_ten_thousandths((v as f64 * 10000.0).round() as i64)
}

fn blob_at(cx: f32, cy: f32) -> Blob {
    Blob { cx: num(cx), cy: num(cy), radius: num(24.0), color: Color::rgb(0, 0, 0) }
}

/// The ease-in-out curve of the format, in floating point.
fn ease_in_out(t: f32) -> f32 {
    let t = t.clamp(0.0, 1.0);
    if t < 0.5 {
        2.0 * t * t
    } else {
        1.0 - (-2.0 * t + 2.0).powi(2) / 2.0
    }
}

#[test]
fn rdp_keeps_corners_only() {
    let mut pts = Vec::new();
    for x in 0..=10 {
        pts.push((num(x as f32), num(0.0)));
    }
    for y in 1..=10 {
        pts.push((num(10.0), num(y as f32)));
    }
    let kept = rdp(&pts, num(0.5));
    assert_eq!(kept.first().copied(), Some(0));
    assert_eq!(kept.last().copied(), Some(pts.len() - 1));
    assert!(kept.contains(&10), "kept indices: {kept:?}");
    assert!(kept.len() <= 4, "expected ~3 keyframes, got {kept:?}");
}

#[test]
fn temporal_rdp_recovers_collinear_apex() {
    let mut blobs = Vec::new();
    for i in 0..=90u32 {
        let t = i * 33;
        let frac = if i <= 45 { i as f32 / 45.0 } else { (90 - i) as f32 / 45.0 };
        let x = 60.0 + frac * 360.0;
        blobs.push((t, blob_at(x, 160.0)));
    }
    let keep = simplify_trajectory(&blobs, num(2.0));
    let last = blobs.len() - 1;
    assert!(keep.contains(&0), "missing start: {keep:?}");
    assert!(keep.contains(&last), "missing end: {keep:?}");
    assert!(keep.iter().any(|&i| (43..=47).contains(&i)), "missing apex near i=45: {keep:?}");
}

#[test]
fn easing_classifier_returns_linear_for_linear_motion() {
    let mut blobs = Vec::new();
    for i in 0..=90u32 {
        let t = i * 33;
        let x = 60.0 + (i as f32 / 90.0) * 360.0;
        blobs.push((t, blob_at(x, 160.0)));
    }
    let keep = vec![0usize, 90];
    assert_eq!(classify_easing(&blobs, &keep), Easing::Linear);
}

#[test]
fn easing_classifier_picks_ease_in_out_when_data_demands_it() {
    let mut blobs = Vec::new();
    for i in 0..=90u32 {
        let t = i * 33;
        let t_norm = i as f32 / 90.0;
        let p = ease_in_out(t_norm);
        let x = 60.0 + p * 360.0;
        blobs.push((t, blob_at(x, 160.0)));
    }
    let keep = vec![0usize, 90];
    let easing = classify_easing(&blobs, &keep);
    assert!(
        matches!(easing, Easing::EaseInOut | Easing::EaseIn | Easing::EaseOut),
        "expected an eased classification, got {easing:?}"
    );
}

#[test]
fn easing_classifier_picks_exactly_ease_in_out() {
    let mut blobs = Vec::new();
    for i in 0..=90u32 {
        let t = i * 33;
        let p = ease_in_out(i as f32 / 90.0);
        blobs.push((t, blob_at(60.0 + p * 360.0, 160.0)));
    }
    assert_eq!(classify_easing(&blobs, &[0, 90]), Easing::EaseInOut);
}

#[test]
fn easing_classifier_without_samples_is_linear() {
    let blobs = vec![(0u32, blob_at(0.0, 0.0)), (100u32, blob_at(50.0, 0.0))];
    assert_eq!(classify_easing(&blobs, &[0, 1]), Easing::Linear);
}

#[test]
fn rdp_1d_keeps_ends_and_drops_collinear() {
    let times: Vec<u32> = (0..10).map(|i| i * 10).collect();
    let values: Vec<Number> = (0..10).map(|i| num(i as f32 * 3.0)).collect();
    assert_eq!(rdp_1d(&times, &values, num(0.5)), vec![0, 9]);
}

#[test]
fn rdp_1d_keeps_a_spike_above_tolerance() {
    let times: Vec<u32> = (0..5).map(|i| i * 10).collect();
    let values = vec![num(0.0), num(0.0), num(5.0), num(0.0), num(0.0)];
    assert_eq!(rdp_1d(&times, &values, num(2.0)), vec![0, 1, 2, 3, 4]);
    assert_eq!(rdp_1d(&times, &values, num(3.0)), vec![0, 2, 4]);
    assert_eq!(rdp_1d(&times, &values, num(5.0)), vec![0, 4]);
}

#[test]
fn rdp_1d_short_signals_keep_everything() {
    assert_eq!(rdp_1d(&[0, 10], &[num(0.0), num(9.0)], num(1.0)), vec![0, 1]);
    assert_eq!(rdp_1d(&[], &[], num(1.0)), Vec::<usize>::new());
}

#[test]
fn rdp_coincident_chord_uses_point_distance() {
    let pts = vec![(num(0.0), num(0.0)), (num(3.0), num(4.0)), (num(0.0), num(0.0))];
    assert_eq!(rdp(&pts, num(4.9)), vec![0, 1, 2]);
    assert_eq!(rdp(&pts, num(5.0)), vec![0, 2]);
}

#[test]
fn rounding_goes_half_away_from_zero() {
    assert_eq!(round_to_int(num(2.5)), num(3.0));
    assert_eq!(round_to_int(num(2.4999)), num(2.0));
    assert_eq!(round_to_int(num(-2.5)), num(-3.0));
    assert_eq!(round_to_int(num(-2.4)), num(-2.0));
}

#[test]
fn medians_take_the_upper_middle() {
    assert_eq!(median_number(&[num(3.0), num(1.0), num(2.0), num(4.0)]), num(3.0));
    assert_eq!(median_number(&[]), num(0.0));
    let c = median_color(&[Color::rgb(10, 200, 3), Color::rgb(20, 100, 1), Color::rgb(30, 150, 2)]);
    assert_eq!(c, Color::rgb(20, 150, 2));
    assert_eq!(median_color(&[]), Color::rgb(0, 0, 0));
}

#[test]
fn motion_needs_more_than_one_and_a_half_pixels() {
    let still = vec![(0u32, blob_at(10.0, 10.0)), (33u32, blob_at(11.0, 11.0))];
    assert!(!trajectory_has_motion(&still));
    let moving = vec![(0u32, blob_at(10.0, 10.0)), (33u32, blob_at(11.5, 11.0))];
    assert!(trajectory_has_motion(&moving));
    assert!(!trajectory_has_motion(&still[..1]));
}

fn frame(w: u32, h: u32, delay_ms: u32) -> VideoFrame {
    VideoFrame { width: w, height: h, pixels: vec![0; (w * h * 4) as usize], delay_ms }
}

fn detection(i: usize, t_ms: u32, blob: Option<Blob>) -> Detection {
    Detection { frame_index: i, t_ms, bg: Color::rgb(26, 26, 46), blob, blobs: blob.into_iter().collect() }
}

fn names(doc: &Document) -> Vec<String> {
    doc.scenes[0]
        .statements
        .iter()
        .filter_map(|s| match s {
            Statement::Let { name, .. } => Some(name.clone()),
            _ => None,
        })
        .collect()
}

#[test]
fn build_document_emits_background_and_one_shape() {
    let frames: Vec<VideoFrame> = (0..5).map(|_| frame(40, 30, 100)).collect();
    let xs = [10.0f32, 15.0, 20.0, 15.0, 10.0];
    let dets: Vec<Detection> =
        (0..5).map(|i| detection(i, i as u32 * 100, Some(blob_at(xs[i], 12.0)))).collect();
    let doc = build_document(&frames, &dets);
    assert_eq!(doc.canvas.width, 40);
    assert_eq!(doc.canvas.height, 30);
    assert_eq!(doc.canvas.fps, 10);
    assert_eq!(doc.scenes.len(), 1);
    assert_eq!(doc.scenes[0].name, "main");
    assert_eq!(doc.scenes[0].duration_ms, 500);
    assert_eq!(names(&doc), vec!["bg".to_string(), "shape_0".to_string()]);
    let st = &doc.scenes[0].statements;
    assert_eq!(
        st[0],
        Statement::Let {
            name: "bg".into(),
            shape: Shape::Rect { x: num(0.0), y: num(0.0), w: num(40.0), h: num(30.0) }
        }
    );
    assert_eq!(
        st[1],
        Statement::Assign {
            target: "bg".into(),
            property: Property::Fill,
            value: Value::Color(Color::rgb(26, 26, 46))
        }
    );
    assert_eq!(
        st[2],
        Statement::Let {
            name: "shape_0".into(),
            shape: Shape::Ellipse { cx: num(10.0), cy: num(12.0), rx: num(24.0), ry: num(24.0) }
        }
    );
    assert_eq!(
        st[4],
        Statement::Assign { target: "shape_0".into(), property: Property::Stroke, value: Value::Absent }
    );
    match &st[5] {
        Statement::Animate(a) => {
            assert_eq!(a.target, "shape_0");
            let times: Vec<u32> = a.keyframes.iter().map(|k| k.time_ms).collect();
            assert_eq!(times, vec![0, 200, 400]);
            assert_eq!(a.keyframes[1].transforms, vec![Transform::Position(num(20.0), num(12.0))]);
            assert_eq!(a.easing, Easing::Linear);
        }
        other => panic!("expected an animation, got {other:?}"),
    }
}

#[test]
fn build_document_without_blobs_has_only_background() {
    let frames = vec![frame(8, 8, 40), frame(8, 8, 40)];
    let dets = vec![detection(0, 0, None), detection(1, 40, None)];
    let doc = build_document(&frames, &dets);
    assert_eq!(names(&doc), vec!["bg".to_string()]);
    assert_eq!(doc.scenes[0].statements.len(), 2);
    assert_eq!(doc.scenes[0].duration_ms, 80);
    assert_eq!(doc.canvas.fps, 25);
}

#[test]
fn build_document_still_ball_has_no_animation() {
    let frames = vec![frame(40, 30, 50), frame(40, 30, 50), frame(40, 30, 50)];
    let dets: Vec<Detection> =
        (0..3).map(|i| detection(i, i as u32 * 50, Some(blob_at(20.0, 20.4)))).collect();
    let doc = build_document(&frames, &dets);
    assert_eq!(doc.scenes[0].statements.len(), 5);
    assert!(doc.scenes[0].statements.iter().all(|s| !matches!(s, Statement::Animate(_))));
}

#[test]
fn rdp_measures_distance_to_the_segment() {
    let pts = vec![(num(0.0), num(0.0)), (num(10.0), num(0.0)), (num(5.0), num(0.0))];
    assert_eq!(rdp(&pts, num(1.0)), vec![0, 1, 2]);
}

fn colored(cx: f32, cy: f32, c: Color) -> Blob {
    Blob { cx: num(cx), cy: num(cy), radius: num(10.0), color: c }
}

fn frame_of(i: usize, t_ms: u32, blobs: Vec<Blob>) -> Detection {
    Detection { frame_index: i, t_ms, bg: Color::rgb(26, 26, 46), blob: blobs.first().copied(), blobs }
}

fn samples_x(track: &[(u32, Blob)]) -> Vec<(u32, f32)> {
    track.iter().map(|(t, b)| (*t, b.cx.ten_thousandths as f32 / 10000.0)).collect()
}

#[test]
fn two_crossing_balls_make_two_tracks() {
    let red = Color::rgb(0xe9, 0x45, 0x60);
    let yellow = Color::rgb(0xff, 0xd1, 0x66);
    // Red goes right along y = 10, yellow goes left along y = 40; the
    // yellow blob comes first in raster order in the later frames.
    let dets: Vec<Detection> = (0..5)
        .map(|i| {
            let x = 10.0 + 10.0 * i as f32;
            let r = colored(x, 10.0, red);
            let y = colored(50.0 - 10.0 * i as f32, 40.0, yellow);
            let blobs = if i < 3 { vec![r, y] } else { vec![y, r] };
            frame_of(i, i as u32 * 40, blobs)
        })
        .collect();
    let tracks = track_blobs(&dets);
    assert_eq!(tracks.len(), 2);
    assert!(tracks[0].iter().all(|(_, b)| b.color == red));
    assert!(tracks[1].iter().all(|(_, b)| b.color == yellow));
    assert_eq!(samples_x(&tracks[0]), vec![(0, 10.0), (40, 20.0), (80, 30.0), (120, 40.0), (160, 50.0)]);
    assert_eq!(samples_x(&tracks[1]), vec![(0, 50.0), (40, 40.0), (80, 30.0), (120, 20.0), (160, 10.0)]);
}

#[test]
fn a_track_survives_three_missing_frames_but_not_four() {
    let c = Color::rgb(200, 10, 10);
    let at = |i: usize, present: bool| frame_of(i, i as u32 * 10, if present { vec![colored(20.0, 20.0, c)] } else { vec![] });
    // Seen in frame 0, missing in 1..=3, seen again in 4: one track.
    let dets: Vec<Detection> = (0..5).map(|i| at(i, i == 0 || i == 4)).collect();
    let tracks = track_blobs(&dets);
    assert_eq!(tracks.len(), 1);
    assert_eq!(tracks[0].len(), 2);
    // Seen in frame 0, missing in 1..=4, seen again in 5: a new track.
    let dets: Vec<Detection> = (0..6).map(|i| at(i, i == 0 || i == 5)).collect();
    let tracks = track_blobs(&dets);
    assert_eq!(tracks.len(), 2);
    assert_eq!(tracks[1][0].0, 50);
}

#[test]
fn a_blob_too_far_away_starts_a_new_track() {
    let c = Color::rgb(200, 10, 10);
    let dets = vec![
        frame_of(0, 0, vec![colored(10.0, 10.0, c)]),
        frame_of(1, 40, vec![colored(250.0, 10.0, c)]),
    ];
    let tracks = track_blobs(&dets);
    assert_eq!(tracks.len(), 2);
    // Within 200 px (taxicab, with size and colour) it is the same track.
    let dets = vec![
        frame_of(0, 0, vec![colored(10.0, 10.0, c)]),
        frame_of(1, 40, vec![colored(150.0, 10.0, c)]),
    ];
    assert_eq!(track_blobs(&dets).len(), 1);
}

#[test]
fn the_cheapest_pairing_wins() {
    let c = Color::rgb(200, 10, 10);
    // Two tracks near x = 10 and x = 30; the single new blob at x = 28 goes
    // to the second, which is nearer, and the first track gets nothing.
    let dets = vec![
        frame_of(0, 0, vec![colored(10.0, 10.0, c), colored(30.0, 10.0, c)]),
        frame_of(1, 40, vec![colored(28.0, 10.0, c)]),
    ];
    let tracks = track_blobs(&dets);
    assert_eq!(tracks.len(), 2);
    assert_eq!(tracks[0].len(), 1);
    assert_eq!(tracks[1].len(), 2);
    assert_eq!(cost(colored(10.0, 10.0, c), colored(12.0, 13.0, Color::rgb(201, 8, 10))), 50000 + 3 * 20000);
}

#[test]
fn build_document_emits_one_shape_per_track() {
    let red = Color::rgb(0xe9, 0x45, 0x60);
    let yellow = Color::rgb(0xff, 0xd1, 0x66);
    let frames: Vec<VideoFrame> = (0..5).map(|_| frame(80, 60, 40)).collect();
    let dets: Vec<Detection> = (0..5)
        .map(|i| {
            let r = colored(10.0 + 10.0 * i as f32, 10.0, red);
            let y = colored(50.0 - 10.0 * i as f32, 40.0, yellow);
            frame_of(i, i as u32 * 40, vec![r, y])
        })
        .collect();
    let doc = build_document(&frames, &dets);
    assert_eq!(names(&doc), vec!["bg".to_string(), "shape_0".to_string(), "shape_1".to_string()]);
    let st = &doc.scenes[0].statements;
    assert_eq!(st.len(), 2 + 4 + 4);
    assert_eq!(
        st[3],
        Statement::Assign { target: "shape_0".into(), property: Property::Fill, value: Value::Color(red) }
    );
    assert_eq!(
        st[7],
        Statement::Assign { target: "shape_1".into(), property: Property::Fill, value: Value::Color(yellow) }
    );
    match (&st[5], &st[9]) {
        (Statement::Animate(a), Statement::Animate(b)) => {
            assert_eq!(a.target, "shape_0");
            assert_eq!(b.target, "shape_1");
            assert_eq!(a.keyframes.last().unwrap().transforms, vec![Transform::Position(num(50.0), num(10.0))]);
            assert_eq!(b.keyframes.last().unwrap().transforms, vec![Transform::Position(num(10.0), num(40.0))]);
        }
        other => panic!("expected two animations, got {other:?}"),
    }
}

#[test]
fn the_tracks_hold_every_blob_once() {
    let red = Color::rgb(200, 10, 10);
    let blue = Color::rgb(10, 10, 200);
    let green = Color::rgb(10, 200, 10);
    let dets = vec![
        frame_of(0, 0, vec![colored(10.0, 10.0, red), colored(100.0, 100.0, blue)]),
        frame_of(1, 40, vec![colored(12.0, 10.0, red), colored(102.0, 100.0, blue), colored(300.0, 300.0, green)]),
        frame_of(2, 80, vec![colored(302.0, 300.0, green)]),
    ];
    let tracks = track_blobs(&dets);
    let samples: usize = tracks.iter().map(|t| t.len()).sum();
    let blobs: usize = dets.iter().map(|d| d.blobs.len()).sum();
    assert_eq!(samples, blobs);
    assert_eq!(tracks.iter().map(|t| t.len()).collect::<Vec<_>>(), vec![2, 2, 2]);
}
