use vac::writer::{fmt_color, fmt_time, fmt_value};
use vac::{
    parse, Animation, Canvas, Color, Document, Easing, Keyframe, Number, Property, Scene,
    Shape, Statement, Transform, Value,
};

const SAMPLE: &str = r#"
canvas 800x600 @30fps

scene main {
  duration 3s

  let bg = rect(0, 0, 800, 600)
  bg.fill = #1a1a2e

  let ball = ellipse(100, 300, 30, 30)
  ball.fill = #e94560
  ball.stroke = none

  animate ball {
    0ms -> position(100, 300)
    1500ms -> position(700, 300)
    3s -> position(100, 300)
    easing: linear
  }
}
"#;

fn n(v: i32) -> Number {
    Number::from_int(v)
}

fn ball_doc() -> Document {
    Document {
        canvas: Canvas { width: 800, height: 600, fps: 30 },
        scenes: vec![Scene {
            name: "main".into(),
            duration_ms: 3000,
            statements: vec![
                Statement::Let {
                    name: "bg".into(),
                    shape: Shape::Rect { x: n(0), y: n(0), w: n(800), h: n(600) },
                },
                Statement::Assign {
                    target: "bg".into(),
                    property: Property::Fill,
                    value: Value::Color(Color::rgb(0x1a, 0x1a, 0x2e)),
                },
                Statement::Let {
                    name: "ball".into(),
                    shape: Shape::Ellipse { cx: n(100), cy: n(300), rx: n(30), ry: n(30) },
                },
                Statement::Assign {
                    target: "ball".into(),
                    property: Property::Fill,
                    value: Value::Color(Color::rgb(0xe9, 0x45, 0x60)),
                },
                Statement::Assign {
                    target: "ball".into(),
                    property: Property::Stroke,
                    value: Value::Absent,
                },
                Statement::Animate(Animation {
                    target: "ball".into(),
                    keyframes: vec![
                        Keyframe { time_ms: 0, transforms: vec![Transform::Position(n(100), n(300))] },
                        Keyframe { time_ms: 1500, transforms: vec![Transform::Position(n(700), n(300))] },
                        Keyframe { time_ms: 3000, transforms: vec![Transform::Position(n(100), n(300))] },
                    ],
                    easing: Easing::Linear,
                }),
            ],
        }],
    }
}

#[test]
fn parses_sample() {
    let doc = parse(SAMPLE).expect("parse");
    assert_eq!(doc.canvas.width, 800);
    assert_eq!(doc.canvas.height, 600);
    assert_eq!(doc.canvas.fps, 30);
    assert_eq!(doc.scenes.len(), 1);
    assert_eq!(doc.scenes[0].name, "main");
    assert_eq!(doc.scenes[0].duration_ms, 3000);
}

#[test]
fn round_trip_write_then_parse() {
    let doc = parse(SAMPLE).unwrap();
    let text = vac::writer::write(&doc);
    let reparsed = parse(&text).expect("re-parse writer output");
    assert_eq!(doc, reparsed, "round-trip lost data");
}

#[test]
fn rejects_unknown_easing() {
    let bad = r#"
canvas 100x100 @30fps
scene s {
  duration 1s
  let b = ellipse(50, 50, 10, 10)
  animate b {
    0ms -> position(0, 0)
    1s  -> position(100, 100)
    easing: bouncy
  }
}
"#;
    assert!(parse(bad).is_err());
}

#[test]
fn comments_are_skipped() {
    let s = r#"
// header comment
canvas 100x100 @30fps   // trailing comment
scene s {
  // body
  duration 1s
  let b = ellipse(50, 50, 10, 10) // shape
}
"#;
    let doc = parse(s).expect("parse with comments");
    assert_eq!(doc.scenes[0].statements.len(), 1);
}

#[test]
fn writes_canvas_header() {
    let doc = ball_doc();
    let s = vac::writer::write(&doc);
    assert!(s.starts_with("canvas 800x600 @30fps\n"));
}

#[test]
fn writes_durations_in_seconds_when_round() {
    let doc = ball_doc();
    let s = vac::writer::write(&doc);
    assert!(s.contains("duration 3s"), "got:\n{s}");
}

#[test]
fn writes_hex_colors() {
    let doc = ball_doc();
    let s = vac::writer::write(&doc);
    assert!(s.contains("#1a1a2e"), "got:\n{s}");
    assert!(s.contains("#e94560"), "got:\n{s}");
}

#[test]
fn sample_parses_to_the_ball_document() {
    assert_eq!(parse(SAMPLE).unwrap(), ball_doc());
}

#[test]
fn writer_output_is_exact() {
    let expected = "canvas 800x600 @30fps\n\nscene main {\n  duration 3s\n\n  let bg = rect(0, 0, 800, 600)\n  bg.fill = #1a1a2e\n\n  let ball = ellipse(100, 300, 30, 30)\n  ball.fill = #e94560\n  ball.stroke = none\n\n  animate ball {\n    0ms -> position(100, 300)\n    1500ms -> position(700, 300)\n    3s -> position(100, 300)\n    easing: linear\n  }\n}\n";
    assert_eq!(vac::writer::write(&ball_doc()), expected);
}

#[test]
fn value_time_and_color_texts() {
    assert_eq!(fmt_value(Number::from_int(100)), "100");
    assert_eq!(fmt_value(Number::from_ten_thousandths(15000)), "1.5");
    assert_eq!(fmt_value(Number::from_ten_thousandths(-2505)), "-0.2505");
    assert_eq!(fmt_time(0), "0ms");
    assert_eq!(fmt_time(3000), "3s");
    assert_eq!(fmt_time(1500), "1500ms");
    assert_eq!(fmt_color(Color::rgb(0x1a, 0x1a, 0x2e)), "#1a1a2e");
    assert_eq!(fmt_color(Color::rgba(0xe9, 0x45, 0x60, 0x80)), "#e9456080");
}

#[test]
fn syntax_errors_carry_their_position() {
    match parse("canvas 8x8 @30fps\n  $") {
        Err(vac::ParseError::Syntax { line, col, msg }) => {
            assert_eq!((line, col), (2, 3));
            assert_eq!(msg, "unexpected character '$'");
        }
        other => panic!("expected a syntax error, got {other:?}"),
    }
}

#[test]
fn a_scene_needs_a_duration() {
    assert!(parse("canvas 10x10 @30fps\nscene s {\n}").is_err());
    assert!(parse("canvas 10x10 @30fps\nscene s {\n  duration 1s\n}").is_ok());
}

#[test]
fn a_number_needs_digits_after_its_point() {
    let ok = "canvas 10x10 @30fps\nscene s {\n  duration 1s\n  let a = rect(1.5, 0, 2, 2)\n}";
    assert!(parse(ok).is_ok());
    let bad = "canvas 10x10 @30fps\nscene s {\n  duration 1s\n  let a = rect(1., 0, 2, 2)\n}";
    assert!(parse(bad).is_err());
}

#[test]
fn a_dimension_is_made_of_whole_numbers() {
    assert!(parse("canvas 1.5x2 @30fps\nscene s {\n  duration 1s\n}").is_err());
}

fn message_of(src: &str) -> String {
    match parse(src) {
        Err(vac::ParseError::Syntax { msg, .. }) => msg,
        other => panic!("expected a syntax error, got {other:?}"),
    }
}

#[test]
fn syntax_errors_name_what_they_refuse() {
    let head = "canvas 10x10 @30fps\nscene s {\n  duration 1s\n";
    assert_eq!(message_of(&format!("{head}  let a = circle(1, 2)\n}}")), "unknown shape primitive `circle` (expected rect or ellipse)");
    assert_eq!(message_of(&format!("{head}  let a = rect(1, 2)\n}}")), "rect() takes 4 args (x, y, w, h), got 2");
    assert_eq!(message_of(&format!("{head}  a.color = #ffffff\n}}")), "unknown property `color` (expected fill or stroke)");
    assert_eq!(message_of(&format!("{head}  animate a {{\n    easing: bouncy\n  }}\n}}")), "unknown easing `bouncy`");
    assert_eq!(message_of(&format!("{head}  animate a {{\n    0ms -> spin(1)\n  }}\n}}")), "unknown transform `spin` (expected position/scale/opacity)");
    assert_eq!(message_of(&format!("{head}  animate a {{\n    0ms -> position(1)\n  }}\n}}")), "position() takes (x, y), got 1 args");
    assert_eq!(message_of(&format!("{head}  let a = rect(0, 0, 2, 2)\n  a.fill = #fff\n}}")), "hex color must have 6 or 8 digits, got 3");
    assert_eq!(message_of(&format!("{head}  let a = rect(1., 0, 2, 2)\n}}")), "invalid number \"1.\"");
    assert_eq!(message_of("canvas 10x10 @30px\n"), "unknown numeric unit \"px\" (expected ms/s/fps)");
    assert_eq!(message_of("canvas 10x10 @30fps\n\\"), "unexpected character '\\\\'");
    assert_eq!(message_of("canvas 10x10 @30fps\n\u{7f}"), "unexpected character '\\u{7f}'");
}
