use vac::render::{
    apply_animation, bracket, frame_count, frame_time_ms, gif_frame_delay, setup_scene, shapes_at,
    unpremultiply, Point, ShapeState,
};
use vac::{
    Animation, Color, CompileError, Easing, Keyframe, Number, Property, Scene, Shape, Statement,
    Transform, Value,
};

fn n(v: i32) -> Number {
    Number::from_int(v)
}

fn kf(t: u32, ts: Vec<Transform>) -> Keyframe {
    Keyframe { time_ms: t, transforms: ts }
}

fn ball_anim(easing: Easing) -> Animation {
    Animation {
        target: "ball".into(),
        keyframes: vec![
            kf(0, vec![Transform::Position(n(100), n(300))]),
            kf(1500, vec![Transform::Position(n(700), n(300)), Transform::Scale(n(2))]),
            kf(3000, vec![Transform::Position(n(100), n(300))]),
        ],
        easing,
    }
}

fn ellipse() -> Shape {
    Shape::Ellipse { cx: n(100), cy: n(300), rx: n(30), ry: n(30) }
}

#[test]
fn frame_timeline() {
    assert_eq!(frame_count(3000, 30), 90);
    assert_eq!(frame_count(10, 30), 1);
    assert_eq!(frame_count(3000, 0), 3);
    assert_eq!(frame_time_ms(1, 30), 33);
    assert_eq!(frame_time_ms(89, 30), 2966);
    assert_eq!(gif_frame_delay(30), (1000, 30));
    assert_eq!(gif_frame_delay(0), (1000, 1));
}

#[test]
fn unpremultiply_divides_by_alpha() {
    let src = [0, 0, 0, 0, 10, 20, 30, 255, 64, 32, 0, 128, 1, 0, 0, 2, 9, 9];
    let out = unpremultiply(&src, 4, 1);
    assert_eq!(
        out,
        vec![0, 0, 0, 0, 10, 20, 30, 255, 128, 64, 0, 128, 128, 0, 0, 2]
    );
}

#[test]
fn bracket_finds_the_enclosing_keyframes() {
    let a = ball_anim(Easing::Linear);
    assert_eq!(bracket(&a.keyframes, 0), (0, 0, 0, 1));
    assert_eq!(bracket(&a.keyframes, 750), (0, 1, 750, 1500));
    assert_eq!(bracket(&a.keyframes, 1500), (0, 1, 1500, 1500));
    assert_eq!(bracket(&a.keyframes, 2000), (1, 2, 500, 1500));
    assert_eq!(bracket(&a.keyframes, 9000), (2, 2, 0, 1));
}

#[test]
fn animation_interpolates_and_holds() {
    let base = ShapeState::new(ellipse());
    let a = ball_anim(Easing::Linear);
    let mid = apply_animation(base, Some(&a), 750);
    assert_eq!(mid.position, Some(Point { x: n(400), y: n(300) }));
    // Scale is set only at 1500 ms: it is held on both sides.
    assert_eq!(mid.scale, n(2));
    assert_eq!(mid.opacity, n(1));
    let end = apply_animation(base, Some(&a), 3000);
    assert_eq!(end.position, Some(Point { x: n(100), y: n(300) }));
    assert_eq!(apply_animation(base, None, 750), base);
    let eased = apply_animation(base, Some(&ball_anim(Easing::EaseIn)), 750);
    assert_eq!(eased.position, Some(Point { x: n(250), y: n(300) }));
}

fn scene(statements: Vec<Statement>) -> Scene {
    Scene { name: "main".into(), duration_ms: 3000, statements }
}

#[test]
fn scene_setup_applies_assignments_in_order() {
    let s = scene(vec![
        Statement::Animate(ball_anim(Easing::Linear)),
        Statement::Let { name: "ball".into(), shape: ellipse() },
        Statement::Assign {
            target: "ball".into(),
            property: Property::Fill,
            value: Value::Color(Color::rgb(0xe9, 0x45, 0x60)),
        },
        Statement::Assign { target: "ball".into(), property: Property::Stroke, value: Value::Absent },
        Statement::Let { name: "bg".into(), shape: Shape::Rect { x: n(0), y: n(0), w: n(8), h: n(8) } },
    ]);
    let setup = setup_scene(&s).ok().expect("a setup");
    assert_eq!(setup.declared, vec!["ball".to_string(), "bg".to_string()]);
    let shapes = shapes_at(&s, &setup, 1500);
    assert_eq!(shapes.len(), 2);
    assert_eq!(shapes[0].fill, Some(Color::rgb(0xe9, 0x45, 0x60)));
    assert_eq!(shapes[0].stroke, None);
    assert_eq!(shapes[0].position, Some(Point { x: n(700), y: n(300) }));
    assert_eq!(shapes[1].fill, Some(Color::rgb(0, 0, 0)));
    assert_eq!(shapes[1].position, None);
}

#[test]
fn assignment_to_an_undeclared_shape_is_refused() {
    let s = scene(vec![Statement::Assign {
        target: "ghost".into(),
        property: Property::Fill,
        value: Value::Absent,
    }]);
    match setup_scene(&s) {
        Err(CompileError::Render(m)) => assert_eq!(m, "assign to undeclared shape `ghost`"),
        _ => panic!("expected a render error"),
    }
}
