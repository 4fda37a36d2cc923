use vac::detect::{detect_all, detect_blob, detect_blobs, estimate_background, label_components_4, sample_block_avg};
use vac::frames::{estimate_fps, frame_delay_ms};
use vac::union_find::UnionFind;
use vac::decompile::{decompile_checked, decompile_gif};
use vac::frames::{load_gif, video_frames};
use vac::render::encode_gif;
use vac::{decompile_frames, Color, CompileError, DecompileError, Number, RenderedFrame, VideoFrame};

fn solid(w: u32, h: u32, c: Color, delay_ms: u32) -> VideoFrame {
    let mut pixels = Vec::new();
    for _ in 0..(w * h) {
        pixels.extend_from_slice(&[c.r, c.g, c.b, 255]);
    }
    VideoFrame { width: w, height: h, pixels, delay_ms }
}

fn paint(f: &mut VideoFrame, x0: u32, y0: u32, x1: u32, y1: u32, c: Color) {
    for y in y0..y1 {
        for x in x0..x1 {
            let i = ((y * f.width + x) * 4) as usize;
            f.pixels[i] = c.r;
            f.pixels[i + 1] = c.g;
            f.pixels[i + 2] = c.b;
        }
    }
}

const BG: Color = Color { r: 26, g: 26, b: 46, a: 255 };
const RED: Color = Color { r: 233, g: 69, b: 96, a: 255 };

#[test]
fn background_is_the_median_of_the_corners() {
    let mut f = solid(20, 20, BG, 33);
    // One corner differs: the median ignores it.
    paint(&mut f, 0, 0, 5, 5, RED);
    assert_eq!(estimate_background(&f), BG);
    assert_eq!(estimate_background(&solid(0, 0, BG, 33)), Color::rgb(0, 0, 0));
}

#[test]
fn block_average_is_clipped_to_the_frame() {
    let mut f = solid(4, 4, Color::rgb(0, 0, 0), 33);
    paint(&mut f, 2, 2, 4, 4, Color::rgb(100, 50, 9));
    assert_eq!(sample_block_avg(&f, 2, 2, 5, 5), Some((100, 50, 9)));
    assert_eq!(sample_block_avg(&f, 0, 0, 4, 4), Some((25, 12, 2)));
    assert_eq!(sample_block_avg(&f, 4, 0, 5, 5), None);
}

#[test]
fn labels_follow_four_connectivity() {
    // 5 x 3 mask:
    // # # . # .
    // . # . # .
    // # . . # #
    let m = [
        true, true, false, true, false, //
        false, true, false, true, false, //
        true, false, false, true, true,
    ];
    let l = label_components_4(&m, 5, 3);
    assert_eq!(l.len(), 15);
    for i in 0..15 {
        assert_eq!(l[i] == 0, !m[i]);
    }
    assert_eq!(l[0], l[1]);
    assert_eq!(l[1], l[6]);
    assert_eq!(l[3], l[8]);
    assert_eq!(l[8], l[13]);
    assert_eq!(l[13], l[14]);
    assert_ne!(l[0], l[3]);
    assert_ne!(l[10], l[0]);
    assert_ne!(l[10], l[3]);
}

#[test]
fn labels_merge_a_u_shape() {
    // The two arms only meet on the last row.
    // # . #
    // # . #
    // # # #
    let m = [true, false, true, true, false, true, true, true, true];
    let l = label_components_4(&m, 3, 3);
    assert!(l.iter().enumerate().all(|(i, &v)| (v != 0) == m[i]));
    assert_eq!(l[0], l[2]);
    assert_eq!(l[0], l[8]);
}

#[test]
fn union_find_merges_under_the_smaller_root() {
    let mut uf = UnionFind::new();
    uf.make_set(4);
    assert_eq!(uf.find(3), 3);
    uf.union(4, 2);
    assert_eq!(uf.find(4), 2);
    uf.union(2, 1);
    assert_eq!(uf.find(4), 1);
    assert_eq!(uf.find(2), 1);
    assert_eq!(uf.find(3), 3);
}

#[test]
fn blob_of_a_square_ball() {
    let mut f = solid(20, 20, BG, 33);
    paint(&mut f, 8, 6, 13, 11, RED);
    let b = detect_blob(&f, BG).expect("a blob");
    assert_eq!(b.cx, Number::from_int(10));
    assert_eq!(b.cy, Number::from_int(8));
    assert_eq!(b.radius, Number::from_ten_thousandths(25000));
    assert_eq!(b.color, RED);
}

#[test]
fn interior_colour_ignores_the_rim() {
    let mut f = solid(20, 20, BG, 33);
    paint(&mut f, 5, 5, 10, 10, Color::rgb(200, 200, 200));
    paint(&mut f, 6, 6, 9, 9, Color::rgb(100, 0, 0));
    let b = detect_blob(&f, BG).expect("a blob");
    assert_eq!(b.color, Color::rgb(100, 0, 0));
}

#[test]
fn tiny_blobs_are_noise() {
    let mut f = solid(20, 20, BG, 33);
    paint(&mut f, 3, 3, 5, 7, RED);
    assert!(detect_blob(&f, BG).is_none());
    assert!(detect_blob(&solid(20, 20, BG, 33), BG).is_none());
}

#[test]
fn largest_component_wins() {
    let mut f = solid(30, 30, BG, 33);
    paint(&mut f, 1, 10, 5, 14, RED);
    paint(&mut f, 20, 20, 26, 26, RED);
    let b = detect_blob(&f, BG).expect("a blob");
    assert_eq!(b.cx, Number::from_ten_thousandths(225000));
    assert_eq!(b.cy, Number::from_ten_thousandths(225000));
}

#[test]
fn detections_accumulate_time() {
    let frames = vec![solid(10, 10, BG, 40), solid(10, 10, BG, 60), solid(10, 10, BG, 10)];
    let d = detect_all(&frames);
    assert_eq!(d.len(), 3);
    assert_eq!(d.iter().map(|x| x.t_ms).collect::<Vec<_>>(), vec![0, 40, 100]);
    assert_eq!(d.iter().map(|x| x.frame_index).collect::<Vec<_>>(), vec![0, 1, 2]);
    assert!(d.iter().all(|x| x.bg == BG && x.blob.is_none()));
    let late = vec![solid(2, 2, BG, u32::MAX), solid(2, 2, BG, 5), solid(2, 2, BG, 5)];
    assert_eq!(detect_all(&late)[2].t_ms, u32::MAX);
}

#[test]
fn fps_rounds_the_mean_delay() {
    let f = |d| solid(1, 1, BG, d);
    assert_eq!(estimate_fps(&[f(33), f(33), f(34)]), 30);
    assert_eq!(estimate_fps(&[f(16)]), 63);
    assert_eq!(estimate_fps(&[f(0)]), 240);
    assert_eq!(estimate_fps(&[f(5000)]), 1);
    assert_eq!(estimate_fps(&[]), 30);
}

#[test]
fn frame_delay_from_a_ratio() {
    assert_eq!(frame_delay_ms(100, 3), 33);
    assert_eq!(frame_delay_ms(1, 10), 1);
    assert_eq!(frame_delay_ms(7, 0), 33);
}

#[test]
fn decompile_needs_frames() {
    match decompile_frames(&[]) {
        Err(DecompileError::Other(m)) => assert_eq!(m, "no frames in input"),
        _ => panic!("expected an error"),
    }
}

#[test]
fn decompile_recovers_a_moving_square() {
    let mut frames = Vec::new();
    for i in 0..6u32 {
        let mut f = solid(40, 20, BG, 100);
        let x = 4 + i * 4;
        paint(&mut f, x, 6, x + 5, 11, RED);
        frames.push(f);
    }
    let doc = decompile_frames(&frames).ok().expect("a document");
    assert_eq!(doc.canvas.width, 40);
    assert_eq!(doc.canvas.fps, 10);
    assert_eq!(doc.scenes[0].duration_ms, 600);
    let s = vac::to_string(&doc);
    assert!(s.contains("let shape_0 = ellipse(6, 8, 3, 3)"), "got:\n{s}");
    assert!(s.contains("shape_0.fill = #e94560"), "got:\n{s}");
    assert!(s.contains("0ms -> position(6, 8)"), "got:\n{s}");
    assert!(s.contains("500ms -> position(26, 8)"), "got:\n{s}");
    assert_eq!(vac::parse(&s).expect("parses back"), doc);
}

#[test]
fn make_set_on_a_member_makes_it_a_root() {
    let mut uf = UnionFind::new();
    uf.make_set(5);
    uf.union(5, 2);
    uf.union(4, 5);
    assert_eq!(uf.find(4), 2);
    uf.make_set(2);
    assert_eq!(uf.find(4), 2);
    uf.make_set(5);
    assert_eq!(uf.find(5), 5);
    assert_eq!(uf.find(2), 2);
}

const YELLOW: Color = Color { r: 255, g: 209, b: 102, a: 255 };

#[test]
fn decompile_recovers_two_balls_as_two_shapes() {
    let mut frames = Vec::new();
    for i in 0..9u32 {
        let step = if i <= 4 { i } else { 8 - i };
        let mut f = solid(60, 30, BG, 100);
        let xr = 4 + step * 4;
        paint(&mut f, xr, 6, xr + 5, 11, RED);
        let xy = 40 - step * 4;
        paint(&mut f, xy, 18, xy + 5, 23, YELLOW);
        frames.push(f);
    }
    let doc = decompile_frames(&frames).ok().expect("a document");
    let s = vac::to_string(&doc);
    assert!(s.contains("let shape_0 = ellipse(6, 8, 3, 3)"), "got:\n{s}");
    assert!(s.contains("shape_0.fill = #e94560"), "got:\n{s}");
    assert!(s.contains("let shape_1 = ellipse(42, 20, 3, 3)"), "got:\n{s}");
    assert!(s.contains("shape_1.fill = #ffd166"), "got:\n{s}");
    assert!(s.contains("400ms -> position(22, 8)"), "got:\n{s}");
    assert!(s.contains("400ms -> position(26, 20)"), "got:\n{s}");
    assert!(!s.contains("shape_2"), "got:\n{s}");
    assert_eq!(vac::parse(&s).expect("parses back"), doc);
}

#[test]
fn detect_blobs_finds_every_ball_in_raster_order() {
    let mut f = solid(30, 30, BG, 40);
    paint(&mut f, 20, 2, 25, 7, YELLOW);
    paint(&mut f, 2, 10, 7, 15, RED);
    paint(&mut f, 10, 25, 12, 27, RED);
    let blobs = detect_blobs(&f, BG);
    assert_eq!(blobs.len(), 2);
    assert_eq!(blobs[0].color, YELLOW);
    assert_eq!(blobs[0].cx, Number::from_ten_thousandths(220000));
    assert_eq!(blobs[1].color, RED);
    assert_eq!(blobs[1].cy, Number::from_ten_thousandths(120000));
}

#[test]
fn component_labels_are_the_labels_opened_at_their_first_pixels() {
    // A U: the two arms open labels 1 and 2, which are merged under 1.
    let u = [true, false, true, true, true, true];
    assert_eq!(label_components_4(&u, 3, 2), vec![1, 0, 1, 1, 1, 1]);
    // Two diagonal pixels: two components, labels 1 and 2.
    let diag = [true, false, false, true];
    assert_eq!(label_components_4(&diag, 2, 2), vec![1, 0, 0, 2]);
    // Three labels are opened in the first row; the first two are merged,
    // so the second component keeps the third label: labels are not
    // renumbered.
    let m = [true, false, true, false, true, true, true, true, false, true];
    assert_eq!(label_components_4(&m, 5, 2), vec![1, 0, 1, 0, 3, 1, 1, 1, 0, 3]);
}

#[test]
fn find_returns_a_root_no_greater_than_its_element() {
    let mut uf = UnionFind::new();
    uf.make_set(3);
    uf.make_set(7);
    uf.union(7, 3);
    uf.make_set(5);
    uf.union(5, 7);
    for x in [3u32, 5, 7] {
        let r = uf.find(x);
        assert_eq!(r, 3);
        assert!(r <= x);
    }
    assert_eq!(uf.find(6), 6);
}

fn rendered_square(i: u32) -> RenderedFrame {
    let f = {
        let mut f = solid(40, 20, BG, 100);
        let x = 4 + i * 4;
        paint(&mut f, x, 6, x + 5, 11, RED);
        f
    };
    RenderedFrame { width: f.width, height: f.height, rgba: f.pixels }
}

#[test]
fn encoded_gif_decodes_to_the_same_frames() {
    let frames: Vec<RenderedFrame> = (0..6).map(rendered_square).collect();
    let bytes = encode_gif(&frames, 10).ok().expect("encodes");
    assert_eq!(&bytes[..6], b"GIF89a");
    let decoded = load_gif(&bytes).ok().expect("decodes");
    assert_eq!(decoded.len(), 6);
    for (d, f) in decoded.iter().zip(&frames) {
        assert_eq!((d.width, d.height, d.delay_ms), (40, 20, 100));
        assert_eq!(d.pixels, f.rgba);
    }
}

#[test]
fn decompile_gif_recovers_a_moving_square() {
    let frames: Vec<RenderedFrame> = (0..6).map(rendered_square).collect();
    let bytes = encode_gif(&frames, 10).ok().expect("encodes");
    let doc = decompile_gif(&bytes).ok().expect("a document");
    assert_eq!(doc.canvas.width, 40);
    assert_eq!(doc.canvas.fps, 10);
    assert_eq!(doc.scenes[0].duration_ms, 600);
    let s = vac::to_string(&doc);
    assert!(s.contains("let shape_0 = ellipse(6, 8, 3, 3)"), "got:\n{s}");
    assert!(s.contains("shape_0.fill = #e94560"), "got:\n{s}");
    assert!(s.contains("500ms -> position(26, 8)"), "got:\n{s}");
}

#[test]
fn decompile_gif_refuses_what_is_no_gif() {
    assert!(matches!(decompile_gif(b"not a gif at all"), Err(DecompileError::Image(_))));
    assert!(matches!(load_gif(b""), Err(DecompileError::Image(_))));
}

#[test]
fn encode_gif_names_a_frame_with_the_wrong_byte_count() {
    let frames = vec![
        RenderedFrame { width: 1, height: 1, rgba: vec![1, 2, 3, 255] },
        RenderedFrame { width: 2, height: 1, rgba: vec![0; 5] },
    ];
    match encode_gif(&frames, 30) {
        Err(CompileError::Encode(m)) => assert_eq!(m, "frame has wrong byte count: expected 8, got 5"),
        _ => panic!("expected an encoding error"),
    }
}

#[test]
fn decompile_checked_refuses_frames_too_large_to_measure() {
    let frames = vec![VideoFrame { width: 100, height: 100, pixels: vec![0; 16], delay_ms: 40 }];
    match decompile_checked(&frames) {
        Err(DecompileError::Other(m)) => assert_eq!(m, "frame too large"),
        _ => panic!("expected an error"),
    }
    match decompile_checked(&[]) {
        Err(DecompileError::Other(m)) => assert_eq!(m, "no frames in input"),
        _ => panic!("expected an error"),
    }
}

#[test]
fn video_frames_take_the_delay_of_the_ratio() {
    let v = video_frames(vec![
        (1, 1, vec![0, 0, 0, 255], 1000, 10),
        (1, 1, vec![9, 9, 9, 255], 1000, 0),
        (1, 1, vec![0, 0, 0, 255], 1, 10),
    ]);
    assert_eq!(v.iter().map(|f| f.delay_ms).collect::<Vec<_>>(), vec![100, 33, 1]);
    assert_eq!(v[1].pixels, vec![9, 9, 9, 255]);
}
