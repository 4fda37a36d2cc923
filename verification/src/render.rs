//! The compiler's scene evaluation: what each shape looks like at a given
//! time, the frame timeline of a scene, the conversion of rasterised
//! premultiplied pixels to plain RGBA, and the encoding of rendered frames
//! as a GIF.
use vstd::prelude::*;
use crate::ast::{
    Animation, AnimationV, Color, Easing, Keyframe, KeyframeV, Number, Property, Scene, SceneV,
    Shape, Statement, StatementV, Transform, Value,
};
use crate::track::{eased, eased_scaled, trunc_div};

verus! {

/// A rendered frame: non-premultiplied RGBA8.
pub struct RenderedFrame {
    pub width: u32,
    pub height: u32,
    /// Non-premultiplied RGBA8.
    pub rgba: Vec<u8>,
}

/// Why a document could not be compiled to a video.
pub enum CompileError {
    /// The scene graph or the canvas cannot be rendered.
    Render(String),
    /// The encoder refused a frame.
    Encode(String),
}

/// A point in canvas coordinates.
#[derive(Debug, Clone, Copy, PartialEq, Eq, Structural)]
pub struct Point {
    pub x: Number,
    pub y: Number,
}

/// How a declared shape is drawn.
#[derive(Debug, Clone, Copy, PartialEq, Eq, Structural)]
pub struct ShapeState {
    pub base: Shape,
    pub fill: Option<Color>,
    pub stroke: Option<Color>,
    /// Absolute position of the anchor point, overriding the declared
    /// one, when an animation sets it.
    pub position: Option<Point>,
    pub scale: Number,
    pub opacity: Number,
}

/// The state of a freshly declared shape: black fill, no stroke, unit
/// scale and opacity.
pub open spec fn initial_state(base: Shape) -> ShapeState {
    ShapeState {
        base,
        fill: Some(Color { r: 0, g: 0, b: 0, a: 255 }),
        stroke: None,
        position: None,
        scale: Number { ten_thousandths: 10000 },
        opacity: Number { ten_thousandths: 10000 },
    }
}

impl ShapeState {
    pub fn new(base: Shape) -> (st: Self)
        ensures
            st == initial_state(base),
    {
        ShapeState {
            base,
            fill: Some(Color::rgb(0, 0, 0)),
            stroke: None,
            position: None,
            scale: Number { ten_thousandths: 10000 },
            opacity: Number { ten_thousandths: 10000 },
        }
    }
}

/// `st` after `<shape>.<property> = <value>`.
pub open spec fn assigned(st: ShapeState, property: Property, value: Value) -> ShapeState {
    let c = match value {
        Value::Color(c) => Some(c),
        Value::Absent => None,
    };
    match property {
        Property::Fill => ShapeState { fill: c, ..st },
        Property::Stroke => ShapeState { stroke: c, ..st },
    }
}

// --------------------------------------------------------------------
// Scene setup
// --------------------------------------------------------------------

/// The shapes of a scene in declaration order (draw order), and the
/// history of their states: the latest entry for a name is its state.
pub struct SceneSetup {
    pub declared: Vec<String>,
    pub states: Vec<(String, ShapeState)>,
}

pub struct SetupV {
    pub declared: Seq<Seq<char>>,
    pub states: Seq<(Seq<char>, ShapeState)>,
}

impl View for SceneSetup {
    type V = SetupV;

    open spec fn view(&self) -> SetupV {
        SetupV {
            declared: self.declared@.map_values(|s: String| s@),
            states: self.states@.map_values(|e: (String, ShapeState)| (e.0@, e.1)),
        }
    }
}

/// The latest state recorded for `name`, if any.
pub open spec fn lookup(states: Seq<(Seq<char>, ShapeState)>, name: Seq<char>) -> Option<ShapeState>
    decreases states.len(),
{
    if states.len() == 0 {
        None
    } else if states.last().0 == name {
        Some(states.last().1)
    } else {
        lookup(states.drop_last(), name)
    }
}

/// The setup after the first `k` statements; `Err(target)` at the first
/// assignment to a shape not declared before it.
pub open spec fn setup_prefix(stmts: Seq<StatementV>, k: int) -> Result<SetupV, Seq<char>>
    decreases k,
{
    if k <= 0 {
        Ok(SetupV { declared: Seq::empty(), states: Seq::empty() })
    } else {
        match setup_prefix(stmts, k - 1) {
            Err(t) => Err(t),
            Ok(su) => match stmts[k - 1] {
                StatementV::Let { name, shape } => Ok(
                    SetupV {
                        declared: su.declared.push(name),
                        states: su.states.push((name, initial_state(shape))),
                    },
                ),
                StatementV::Assign { target, property, value } => match lookup(su.states, target) {
                    Some(st) => Ok(
                        SetupV {
                            declared: su.declared,
                            states: su.states.push((target, assigned(st, property, value))),
                        },
                    ),
                    None => Err(target),
                },
                StatementV::Animate(_) => Ok(su),
            },
        }
    }
}

pub open spec fn setup_of(scene: SceneV) -> Result<SetupV, Seq<char>> {
    setup_prefix(scene.statements, scene.statements.len() as int)
}

pub open spec fn undeclared_message(target: Seq<char>) -> Seq<char> {
    "assign to undeclared shape `"@ + target + "`"@
}

/// The latest state recorded in `states` for `name`.
fn lookup_state(states: &Vec<(String, ShapeState)>, name: &String) -> (r: Option<ShapeState>)
    ensures
        r == lookup(states@.map_values(|e: (String, ShapeState)| (e.0@, e.1)), name@),
{
    let ghost view = states@.map_values(|e: (String, ShapeState)| (e.0@, e.1));
    let mut i: usize = states.len();
    proof {
        assert(view.subrange(0, i as int) == view);
    }
    while i > 0
        invariant
            0 <= i <= states@.len(),
            view == states@.map_values(|e: (String, ShapeState)| (e.0@, e.1)),
            lookup(view, name@) == lookup(view.subrange(0, i as int), name@),
        decreases i,
    {
        proof {
            assert(view.subrange(0, i as int).drop_last() == view.subrange(0, i - 1));
        }
        if states[i - 1].0 == *name {
            return Some(states[i - 1].1);
        }
        i = i - 1;
    }
    proof {
        assert(view.subrange(0, 0) =~= Seq::<(Seq<char>, ShapeState)>::empty());
    }
    None
}

/// Collects the declarations of a scene in order and applies the fill
/// and stroke assignments; an assignment to a shape not declared before it
/// is an error.
pub fn setup_scene(scene: &Scene) -> (r: Result<SceneSetup, CompileError>)
    ensures
        match (r, setup_of(scene@)) {
            (Ok(su), Ok(sv)) => su@ == sv,
            (Err(CompileError::Render(msg)), Err(t)) => msg@ == undeclared_message(t),
            _ => false,
        },
{
    let mut declared: Vec<String> = Vec::new();
    let mut states: Vec<(String, ShapeState)> = Vec::new();
    let ghost stmts = scene@.statements;
    let mut k: usize = 0;
    proof {
        assert(declared@.map_values(|s: String| s@) =~= Seq::<Seq<char>>::empty());
        assert(states@.map_values(|e: (String, ShapeState)| (e.0@, e.1)) =~= Seq::<
            (Seq<char>, ShapeState),
        >::empty());
    }
    while k < scene.statements.len()
        invariant
            stmts == scene@.statements,
            stmts.len() == scene.statements@.len(),
            0 <= k <= stmts.len(),
            setup_prefix(stmts, k as int) == Ok::<SetupV, Seq<char>>(
                SetupV {
                    declared: declared@.map_values(|s: String| s@),
                    states: states@.map_values(|e: (String, ShapeState)| (e.0@, e.1)),
                },
            ),
        decreases stmts.len() - k,
    {
        let ghost d0 = declared@;
        let ghost s0 = states@;
        proof {
            assert(stmts[k as int] == scene.statements@[k as int]@);
        }
        match &scene.statements[k] {
            Statement::Let { name, shape } => {
                declared.push(name.clone());
                states.push((name.clone(), ShapeState::new(*shape)));
                proof {
                    assert(declared@.map_values(|s: String| s@) =~= d0.map_values(|s: String| s@).push(
                        name@,
                    ));
                    assert(states@.map_values(|e: (String, ShapeState)| (e.0@, e.1)) =~= s0.map_values(
                        |e: (String, ShapeState)| (e.0@, e.1),
                    ).push((name@, initial_state(*shape))));
                }
            },
            Statement::Assign { target, property, value } => {
                let found = lookup_state(&states, target);
                match found {
                    Some(st) => {
                        let next = match property {
                            Property::Fill => ShapeState {
                                fill: match value {
                                    Value::Color(c) => Some(*c),
                                    Value::Absent => None,
                                },
                                ..st
                            },
                            Property::Stroke => ShapeState {
                                stroke: match value {
                                    Value::Color(c) => Some(*c),
                                    Value::Absent => None,
                                },
                                ..st
                            },
                        };
                        states.push((target.clone(), next));
                        proof {
                            assert(next == assigned(st, *property, *value));
                            assert(states@.map_values(|e: (String, ShapeState)| (e.0@, e.1))
                                =~= s0.map_values(|e: (String, ShapeState)| (e.0@, e.1)).push(
                                (target@, next),
                            ));
                        }
                    },
                    None => {
                        let mut msg = "assign to undeclared shape `".to_owned();
                        msg.append(target.as_str());
                        msg.append("`");
                        proof {
                            assert(setup_prefix(stmts, k + 1) == Err::<SetupV, Seq<char>>(target@));
                            lemma_setup_error_persists(stmts, k + 1, stmts.len() as int);
                        }
                        return Err(CompileError::Render(msg));
                    },
                }
            },
            Statement::Animate(_) => {},
        }
        k = k + 1;
    }
    Ok(SceneSetup { declared, states })
}

/// Once the setup has failed, it stays failed with the same target.
proof fn lemma_setup_error_persists(stmts: Seq<StatementV>, k: int, n: int)
    requires
        0 <= k <= n,
        setup_prefix(stmts, k) is Err,
    ensures
        setup_prefix(stmts, n) == setup_prefix(stmts, k),
    decreases n - k,
{
    if n > k {
        lemma_setup_error_persists(stmts, k, n - 1);
    }
}

// --------------------------------------------------------------------
// Animation
// --------------------------------------------------------------------

/// The last `animate` block of the statements that targets `name`.
pub open spec fn animation_for(stmts: Seq<StatementV>, name: Seq<char>) -> Option<AnimationV>
    decreases stmts.len(),
{
    if stmts.len() == 0 {
        None
    } else {
        match stmts.last() {
            StatementV::Animate(a) => if a.target == name {
                Some(a)
            } else {
                animation_for(stmts.drop_last(), name)
            },
            _ => animation_for(stmts.drop_last(), name),
        }
    }
}

/// The first `position` among the transforms.
pub open spec fn position_in(ts: Seq<Transform>) -> Option<Point>
    decreases ts.len(),
{
    if ts.len() == 0 {
        None
    } else {
        match ts[0] {
            Transform::Position(x, y) => Some(Point { x, y }),
            _ => position_in(ts.drop_first()),
        }
    }
}

/// The first `scale` among the transforms.
pub open spec fn scale_in(ts: Seq<Transform>) -> Option<Number>
    decreases ts.len(),
{
    if ts.len() == 0 {
        None
    } else {
        match ts[0] {
            Transform::Scale(s) => Some(s),
            _ => scale_in(ts.drop_first()),
        }
    }
}

/// The first `opacity` among the transforms.
pub open spec fn opacity_in(ts: Seq<Transform>) -> Option<Number>
    decreases ts.len(),
{
    if ts.len() == 0 {
        None
    } else {
        match ts[0] {
            Transform::Opacity(o) => Some(o),
            _ => opacity_in(ts.drop_first()),
        }
    }
}

/// The keyframes around time `t`, and the progress `u / span` from the
/// first to the second: before the first keyframe or after the last, that
/// keyframe on both sides with no progress; else the first consecutive
/// pair whose times enclose `t`.
pub open spec fn bracket_spec(kfs: Seq<KeyframeV>, t: int) -> (int, int, int, int) {
    let n = kfs.len() as int;
    if t <= kfs[0].time_ms {
        (0, 0, 0, 1)
    } else if t >= kfs[n - 1].time_ms {
        (n - 1, n - 1, 0, 1)
    } else {
        bracket_from(kfs, t, 0)
    }
}

/// The first pair `j, j + 1` at or after `j` whose times enclose `t`.
pub open spec fn bracket_from(kfs: Seq<KeyframeV>, t: int, j: int) -> (int, int, int, int)
    decreases kfs.len() - j,
{
    let n = kfs.len() as int;
    if j < 0 || j + 1 >= n {
        (n - 1, n - 1, 0, 1)
    } else {
        let a = kfs[j].time_ms as int;
        let b = kfs[j + 1].time_ms as int;
        if a <= t <= b {
            (j, j + 1, t - a, if b - a >= 1 { b - a } else { 1 })
        } else {
            bracket_from(kfs, t, j + 1)
        }
    }
}

/// Resolution of eased progress: `FRAC_ONE` stands for 1.
pub const FRAC_ONE: i128 = 16777216;

/// The eased progress `ease(u / span)`, in units of `1 / FRAC_ONE`,
/// rounded down.
pub open spec fn eased_fraction(e: Easing, u: int, span: int) -> int {
    eased_scaled(e, u, span) * FRAC_ONE / (span * span)
}

/// `a + (b - a) · f / FRAC_ONE`, the change rounded toward zero.
pub open spec fn lerp_num(a: Number, b: Number, f: int) -> Number {
    Number {
        ten_thousandths: (a.ten_thousandths + trunc_div(
            (b.ten_thousandths - a.ten_thousandths) * f,
            FRAC_ONE as int,
        )) as i64,
    }
}

/// Interpolates where both sides are set; holds the one that is set.
pub open spec fn lerp_point(a: Option<Point>, b: Option<Point>, f: int) -> Option<Point> {
    match (a, b) {
        (Some(p), Some(q)) => Some(Point { x: lerp_num(p.x, q.x, f), y: lerp_num(p.y, q.y, f) }),
        (Some(p), None) => Some(p),
        (None, Some(q)) => Some(q),
        (None, None) => None,
    }
}

pub open spec fn lerp_value(a: Option<Number>, b: Option<Number>, f: int) -> Option<Number> {
    match (a, b) {
        (Some(p), Some(q)) => Some(lerp_num(p, q, f)),
        (Some(p), None) => Some(p),
        (None, Some(q)) => Some(q),
        (None, None) => None,
    }
}

/// The state of a shape at time `t` under its animation: position, scale
/// and opacity interpolated between the keyframes around `t` along the
/// easing curve; a transform that only one keyframe sets is held.
pub open spec fn live_state(st: ShapeState, anim: Option<AnimationV>, t: int) -> ShapeState {
    match anim {
        None => st,
        Some(a) => if a.keyframes.len() == 0 {
            st
        } else {
            let (i0, i1, u, span) = bracket_spec(a.keyframes, t);
            let f = eased_fraction(a.easing, u, span);
            let k0 = a.keyframes[i0].transforms;
            let k1 = a.keyframes[i1].transforms;
            let pos = lerp_point(position_in(k0), position_in(k1), f);
            let sc = lerp_value(scale_in(k0), scale_in(k1), f);
            let op = lerp_value(opacity_in(k0), opacity_in(k1), f);
            ShapeState {
                position: if pos is Some { pos } else { st.position },
                scale: match sc {
                    Some(v) => v,
                    None => st.scale,
                },
                opacity: match op {
                    Some(v) => v,
                    None => st.opacity,
                },
                ..st
            }
        },
    }
}

/// The first `position` of a keyframe.
pub fn first_position(k: &Keyframe) -> (r: Option<Point>)
    ensures
        r == position_in(k.transforms@),
{
    let ts = &k.transforms;
    let mut i: usize = 0;
    proof {
        assert(ts@.subrange(0, ts@.len() as int) == ts@);
    }
    while i < ts.len()
        invariant
            ts@ == k.transforms@,
            0 <= i <= ts@.len(),
            position_in(ts@) == position_in(ts@.subrange(i as int, ts@.len() as int)),
        decreases ts@.len() - i,
    {
        proof {
            assert(ts@.subrange(i as int, ts@.len() as int).drop_first() == ts@.subrange(
                i + 1,
                ts@.len() as int,
            ));
        }
        match ts[i] {
            Transform::Position(x, y) => {
                return Some(Point { x, y });
            },
            _ => {},
        }
        i = i + 1;
    }
    None
}

/// The first `scale` of a keyframe.
pub fn first_scale(k: &Keyframe) -> (r: Option<Number>)
    ensures
        r == scale_in(k.transforms@),
{
    let ts = &k.transforms;
    let mut i: usize = 0;
    proof {
        assert(ts@.subrange(0, ts@.len() as int) == ts@);
    }
    while i < ts.len()
        invariant
            ts@ == k.transforms@,
            0 <= i <= ts@.len(),
            scale_in(ts@) == scale_in(ts@.subrange(i as int, ts@.len() as int)),
        decreases ts@.len() - i,
    {
        proof {
            assert(ts@.subrange(i as int, ts@.len() as int).drop_first() == ts@.subrange(
                i + 1,
                ts@.len() as int,
            ));
        }
        match ts[i] {
            Transform::Scale(v) => {
                return Some(v);
            },
            _ => {},
        }
        i = i + 1;
    }
    None
}

/// The first `opacity` of a keyframe.
pub fn first_opacity(k: &Keyframe) -> (r: Option<Number>)
    ensures
        r == opacity_in(k.transforms@),
{
    let ts = &k.transforms;
    let mut i: usize = 0;
    proof {
        assert(ts@.subrange(0, ts@.len() as int) == ts@);
    }
    while i < ts.len()
        invariant
            ts@ == k.transforms@,
            0 <= i <= ts@.len(),
            opacity_in(ts@) == opacity_in(ts@.subrange(i as int, ts@.len() as int)),
        decreases ts@.len() - i,
    {
        proof {
            assert(ts@.subrange(i as int, ts@.len() as int).drop_first() == ts@.subrange(
                i + 1,
                ts@.len() as int,
            ));
        }
        match ts[i] {
            Transform::Opacity(v) => {
                return Some(v);
            },
            _ => {},
        }
        i = i + 1;
    }
    None
}

/// The keyframes around time `t` and the progress between them, as
/// `(first, second, elapsed, span)`; see [`bracket_spec`].
pub fn bracket(kfs: &Vec<Keyframe>, t: u32) -> (r: (usize, usize, u32, u32))
    requires
        kfs@.len() >= 1,
    ensures
        (r.0 as int, r.1 as int, r.2 as int, r.3 as int) == bracket_spec(
            kfs@.map_values(|k: Keyframe| k@),
            t as int,
        ),
{
    let ghost v = kfs@.map_values(|k: Keyframe| k@);
    let n = kfs.len();
    if t <= kfs[0].time_ms {
        return (0, 0, 0, 1);
    }
    if t >= kfs[n - 1].time_ms {
        return (n - 1, n - 1, 0, 1);
    }
    let mut j: usize = 0;
    while j + 1 < n
        invariant
            n == kfs@.len(),
            v == kfs@.map_values(|k: Keyframe| k@),
            0 <= j < n,
            bracket_spec(v, t as int) == bracket_from(v, t as int, j as int),
        decreases n - j,
    {
        let a = kfs[j].time_ms;
        let b = kfs[j + 1].time_ms;
        if a <= t && t <= b {
            let span = if b - a >= 1 { b - a } else { 1 };
            return (j, j + 1, t - a, span);
        }
        j = j + 1;
    }
    (n - 1, n - 1, 0, 1)
}

/// [`lerp_num`] computed exactly.
fn lerp_number(a: Number, b: Number, f: i128) -> (r: Number)
    requires
        0 <= f <= FRAC_ONE,
    ensures
        r == lerp_num(a, b, f as int),
{
    let d: i128 = b.ten_thousandths as i128 - a.ten_thousandths as i128;
    proof {
        assert(-0x1_0000_0000_0000_0000 * FRAC_ONE <= d * f <= 0x1_0000_0000_0000_0000 * FRAC_ONE)
            by (nonlinear_arith)
            requires
                -0x1_0000_0000_0000_0000 <= d <= 0x1_0000_0000_0000_0000,
                0 <= f <= FRAC_ONE,
        ;
    }
    let num: i128 = d * f;
    let delta: i128 = if num >= 0 {
        num / FRAC_ONE
    } else {
        -((-num) / FRAC_ONE)
    };
    proof {
        if d >= 0 {
            assert(0 <= num <= d * FRAC_ONE) by (nonlinear_arith)
                requires
                    d >= 0,
                    0 <= f <= FRAC_ONE,
                    num == d * f,
            ;
            vstd::arithmetic::div_mod::lemma_div_is_ordered(num as int, d * FRAC_ONE, FRAC_ONE as int);
            vstd::arithmetic::div_mod::lemma_div_multiples_vanish(d as int, FRAC_ONE as int);
            assert(0 <= delta <= d);
        } else {
            assert(0 <= -num <= (-d) * FRAC_ONE) by (nonlinear_arith)
                requires
                    d < 0,
                    0 <= f <= FRAC_ONE,
                    num == d * f,
            ;
            vstd::arithmetic::div_mod::lemma_div_is_ordered(-num, (-d) * FRAC_ONE, FRAC_ONE as int);
            vstd::arithmetic::div_mod::lemma_div_multiples_vanish(-d, FRAC_ONE as int);
            assert(d <= delta <= 0);
        }
    }
    Number { ten_thousandths: (a.ten_thousandths as i128 + delta) as i64 }
}

/// Interpolates two optional points; see [`lerp_point`].
pub fn lerp_pair(a: Option<Point>, b: Option<Point>, f: i128) -> (r: Option<Point>)
    requires
        0 <= f <= FRAC_ONE,
    ensures
        r == lerp_point(a, b, f as int),
{
    match (a, b) {
        (Some(p), Some(q)) => Some(Point { x: lerp_number(p.x, q.x, f), y: lerp_number(p.y, q.y, f) }),
        (Some(p), None) => Some(p),
        (None, Some(q)) => Some(q),
        (None, None) => None,
    }
}

/// Interpolates two optional numbers; see [`lerp_value`].
pub fn lerp_scalar(a: Option<Number>, b: Option<Number>, f: i128) -> (r: Option<Number>)
    requires
        0 <= f <= FRAC_ONE,
    ensures
        r == lerp_value(a, b, f as int),
{
    match (a, b) {
        (Some(p), Some(q)) => Some(lerp_number(p, q, f)),
        (Some(p), None) => Some(p),
        (None, Some(q)) => Some(q),
        (None, None) => None,
    }
}

proof fn lemma_bracket_from(kfs: Seq<KeyframeV>, t: int, j: int)
    requires
        kfs.len() >= 1,
        0 <= j,
    ensures
        0 <= bracket_from(kfs, t, j).0 < kfs.len(),
        0 <= bracket_from(kfs, t, j).1 < kfs.len(),
        1 <= bracket_from(kfs, t, j).3 <= u32::MAX,
        0 <= bracket_from(kfs, t, j).2 <= bracket_from(kfs, t, j).3,
    decreases kfs.len() - j,
{
    if j + 1 < kfs.len() {
        lemma_bracket_from(kfs, t, j + 1);
    }
}

/// The bracketing keyframes exist, and the progress lies in `0 ..= span`.
pub proof fn lemma_bracket(kfs: Seq<KeyframeV>, t: int)
    requires
        kfs.len() >= 1,
    ensures
        0 <= bracket_spec(kfs, t).0 < kfs.len(),
        0 <= bracket_spec(kfs, t).1 < kfs.len(),
        1 <= bracket_spec(kfs, t).3 <= u32::MAX,
        0 <= bracket_spec(kfs, t).2 <= bracket_spec(kfs, t).3,
{
    lemma_bracket_from(kfs, t, 0);
}


/// The state of a shape at time `t` under its animation, if any; see
/// [`live_state`].
pub fn apply_animation(base: ShapeState, anim: Option<&Animation>, t_ms: u32) -> (st: ShapeState)
    ensures
        st == live_state(
            base,
            match anim {
                Some(a) => Some(a@),
                None => None,
            },
            t_ms as int,
        ),
{
    let a = match anim {
        Some(a) => a,
        None => {
            return base;
        },
    };
    if a.keyframes.len() == 0 {
        return base;
    }
    let (i0, i1, u, span) = bracket(&a.keyframes, t_ms);
    let ghost kv = a.keyframes@.map_values(|k: Keyframe| k@);
    proof {
        lemma_bracket(kv, t_ms as int);
    }
    let p = eased(a.easing, u as i128, span as i128);
    proof {
        assert(span as i128 * span as i128 <= 0x1_0000_0000_0000_0000) by (nonlinear_arith)
            requires
                1 <= span <= u32::MAX,
        ;
        assert(p * FRAC_ONE <= (span * span) * FRAC_ONE) by (nonlinear_arith)
            requires
                0 <= p <= span * span,
        ;
    }
    let d2: i128 = span as i128 * span as i128;
    proof {
        assert(d2 >= 1) by (nonlinear_arith)
            requires
                d2 == span * span,
                span >= 1,
        ;
    }
    let f: i128 = p * FRAC_ONE / d2;
    proof {
        vstd::arithmetic::div_mod::lemma_div_is_ordered(p * FRAC_ONE, d2 * FRAC_ONE, d2 as int);
        vstd::arithmetic::div_mod::lemma_div_multiples_vanish(FRAC_ONE as int, d2 as int);
        vstd::arithmetic::div_mod::lemma_div_pos_is_pos(p * FRAC_ONE, d2 as int);
        assert(kv[i0 as int] == a.keyframes@[i0 as int]@);
        assert(kv[i1 as int] == a.keyframes@[i1 as int]@);
    }
    let k0 = &a.keyframes[i0];
    let k1 = &a.keyframes[i1];
    let pos = lerp_pair(first_position(k0), first_position(k1), f);
    let sc = lerp_scalar(first_scale(k0), first_scale(k1), f);
    let op = lerp_scalar(first_opacity(k0), first_opacity(k1), f);
    ShapeState {
        position: if pos.is_some() { pos } else { base.position },
        scale: match sc {
            Some(v) => v,
            None => base.scale,
        },
        opacity: match op {
            Some(v) => v,
            None => base.opacity,
        },
        ..base
    }
}

/// Interpolation never overshoots: the interpolated value lies between
/// the two ends.
pub proof fn lemma_lerp_between(a: Number, b: Number, f: int)
    requires
        0 <= f <= FRAC_ONE,
    ensures
        a.ten_thousandths <= b.ten_thousandths ==> a.ten_thousandths <= lerp_num(a, b, f).ten_thousandths
            <= b.ten_thousandths,
        b.ten_thousandths <= a.ten_thousandths ==> b.ten_thousandths <= lerp_num(a, b, f).ten_thousandths
            <= a.ten_thousandths,
{
    let d = b.ten_thousandths - a.ten_thousandths;
    if d >= 0 {
        assert(0 <= d * f <= d * FRAC_ONE) by (nonlinear_arith)
            requires
                d >= 0,
                0 <= f <= FRAC_ONE,
        ;
        vstd::arithmetic::div_mod::lemma_div_is_ordered(d * f, d * FRAC_ONE, FRAC_ONE as int);
        vstd::arithmetic::div_mod::lemma_div_multiples_vanish(d, FRAC_ONE as int);
        vstd::arithmetic::div_mod::lemma_div_pos_is_pos(d * f, FRAC_ONE as int);
    } else {
        assert(0 <= (-d) * f <= (-d) * FRAC_ONE) by (nonlinear_arith)
            requires
                d < 0,
                0 <= f <= FRAC_ONE,
        ;
        assert(-(d * f) == (-d) * f) by (nonlinear_arith);
        vstd::arithmetic::div_mod::lemma_div_is_ordered((-d) * f, (-d) * FRAC_ONE, FRAC_ONE as int);
        vstd::arithmetic::div_mod::lemma_div_multiples_vanish(-d, FRAC_ONE as int);
        vstd::arithmetic::div_mod::lemma_div_pos_is_pos((-d) * f, FRAC_ONE as int);
    }
}

/// The eased progress goes from 0 to 1 (`FRAC_ONE`): it never leaves
/// that range, is 0 at the start and 1 at the end of a span.
pub proof fn lemma_eased_fraction_range(e: Easing, u: int, span: int)
    requires
        span >= 1,
    ensures
        0 <= eased_fraction(e, u, span) <= FRAC_ONE,
        u <= 0 ==> eased_fraction(e, u, span) == 0,
        u >= span ==> eased_fraction(e, u, span) == FRAC_ONE,
{
    crate::track::lemma_eased_bounds(e, u, span);
    let p = eased_scaled(e, u, span);
    let d = span * span;
    assert(d >= 1) by (nonlinear_arith)
        requires
            span >= 1,
            d == span * span,
    ;
    assert(0 <= p * FRAC_ONE <= d * FRAC_ONE) by (nonlinear_arith)
        requires
            0 <= p <= d,
    ;
    vstd::arithmetic::div_mod::lemma_div_is_ordered(p * FRAC_ONE, d * FRAC_ONE, d);
    vstd::arithmetic::div_mod::lemma_div_multiples_vanish(FRAC_ONE as int, d);
    vstd::arithmetic::div_mod::lemma_div_pos_is_pos(p * FRAC_ONE, d);
    if u <= 0 {
        assert(p == 0) by (nonlinear_arith)
            requires
                p == eased_scaled(e, u, span),
                u <= 0,
                span >= 1,
        ;
    }
    if u >= span {
        assert((span - span) * (span - span) == 0);
        match e {
            Easing::Linear => assert(p == d),
            Easing::EaseIn => assert(p == d),
            Easing::EaseOut => assert(p == d),
            Easing::EaseInOut => {
                assert(!(2 * span < span));
                assert(p == d);
            },
        }
    }
}

/// At or before the first keyframe a shape sits at the first keyframe's
/// position; after the first and at or after the last keyframe, at the
/// last keyframe's.
pub proof fn lemma_clamped_at_the_ends(st: ShapeState, a: AnimationV, t: int)
    requires
        a.keyframes.len() >= 1,
        position_in(a.keyframes[0].transforms) is Some,
        position_in(a.keyframes[a.keyframes.len() - 1].transforms) is Some,
    ensures
        t <= a.keyframes[0].time_ms ==> live_state(st, Some(a), t).position == position_in(
            a.keyframes[0].transforms,
        ),
        t > a.keyframes[0].time_ms && t >= a.keyframes[a.keyframes.len() - 1].time_ms ==> live_state(
            st,
            Some(a),
            t,
        ).position == position_in(a.keyframes[a.keyframes.len() - 1].transforms),
{
    let n = a.keyframes.len() as int;
    let f = eased_fraction(a.easing, 0, 1);
    lemma_eased_fraction_range(a.easing, 0, 1);
    assert(f == 0);
    if t <= a.keyframes[0].time_ms {
        let p = position_in(a.keyframes[0].transforms)->Some_0;
        assert(lerp_num(p.x, p.x, f) == p.x);
        assert(lerp_num(p.y, p.y, f) == p.y);
    } else if t >= a.keyframes[n - 1].time_ms {
        let p = position_in(a.keyframes[n - 1].transforms)->Some_0;
        assert(lerp_num(p.x, p.x, f) == p.x);
        assert(lerp_num(p.y, p.y, f) == p.y);
    }
}

// --------------------------------------------------------------------
// Frames of a scene
// --------------------------------------------------------------------

/// The last `animate` block of the scene that targets `name`.
pub fn find_animation<'a>(scene: &'a Scene, name: &String) -> (r: Option<&'a Animation>)
    ensures
        match r {
            Some(a) => animation_for(scene@.statements, name@) == Some(a@),
            None => animation_for(scene@.statements, name@) is None,
        },
{
    let ghost v = scene@.statements;
    let mut i: usize = scene.statements.len();
    proof {
        assert(v.subrange(0, i as int) == v);
    }
    while i > 0
        invariant
            v == scene@.statements,
            v.len() == scene.statements@.len(),
            0 <= i <= v.len(),
            animation_for(v, name@) == animation_for(v.subrange(0, i as int), name@),
        decreases i,
    {
        proof {
            assert(v.subrange(0, i as int).drop_last() == v.subrange(0, i - 1));
            assert(v[i - 1] == scene.statements@[i - 1]@);
        }
        match &scene.statements[i - 1] {
            Statement::Animate(a) => {
                if a.target == *name {
                    return Some(a);
                }
            },
            _ => {},
        }
        i = i - 1;
    }
    proof {
        assert(v.subrange(0, 0) =~= Seq::<StatementV>::empty());
    }
    None
}

/// Every declared name has a recorded state.
proof fn lemma_declared_have_states(stmts: Seq<StatementV>, k: int)
    requires
        0 <= k,
        setup_prefix(stmts, k) is Ok,
    ensures
        forall|d: int|
            0 <= d < setup_prefix(stmts, k)->Ok_0.declared.len() ==> #[trigger] lookup(
                setup_prefix(stmts, k)->Ok_0.states,
                setup_prefix(stmts, k)->Ok_0.declared[d],
            ) is Some,
    decreases k,
{
    if k > 0 {
        lemma_declared_have_states(stmts, k - 1);
        let su = setup_prefix(stmts, k - 1)->Ok_0;
        let now = setup_prefix(stmts, k)->Ok_0;
        assert forall|d: int| 0 <= d < now.declared.len() implies #[trigger] lookup(
            now.states,
            now.declared[d],
        ) is Some by {
            match stmts[k - 1] {
                StatementV::Let { name, shape } => {
                    if d < su.declared.len() {
                        assert(now.declared[d] == su.declared[d]);
                        assert(now.states.drop_last() == su.states);
                        assert(lookup(su.states, su.declared[d]) is Some);
                    }
                },
                StatementV::Assign { target, property, value } => {
                    assert(now.states.drop_last() == su.states);
                    assert(lookup(su.states, su.declared[d]) is Some);
                },
                StatementV::Animate(_) => {},
            }
        }
    }
}

/// The state of the declared shape `name` at time `t`.
pub open spec fn shape_at(scene: SceneV, setup: SetupV, name: Seq<char>, t: int) -> ShapeState {
    live_state(lookup(setup.states, name)->Some_0, animation_for(scene.statements, name), t)
}

/// The shapes to draw at time `t`, in declaration order.
pub fn shapes_at(scene: &Scene, setup: &SceneSetup, t_ms: u32) -> (r: Vec<ShapeState>)
    requires
        setup_of(scene@) == Ok::<SetupV, Seq<char>>(setup@),
    ensures
        r@ == setup@.declared.map_values(|name: Seq<char>| shape_at(scene@, setup@, name, t_ms as int)),
{
    proof {
        lemma_declared_have_states(scene@.statements, scene@.statements.len() as int);
    }
    let mut r: Vec<ShapeState> = Vec::new();
    let mut i: usize = 0;
    while i < setup.declared.len()
        invariant
            setup_of(scene@) == Ok::<SetupV, Seq<char>>(setup@),
            forall|d: int|
                0 <= d < setup@.declared.len() ==> #[trigger] lookup(setup@.states, setup@.declared[d])
                    is Some,
            0 <= i <= setup.declared@.len(),
            r@ == setup@.declared.subrange(0, i as int).map_values(
                |name: Seq<char>| shape_at(scene@, setup@, name, t_ms as int),
            ),
        decreases setup.declared@.len() - i,
    {
        let name = &setup.declared[i];
        proof {
            assert(setup@.declared[i as int] == name@);
            assert(lookup(setup@.states, name@) is Some);
        }
        let base = lookup_state(&setup.states, name).unwrap();
        let anim = find_animation(scene, name);
        let live = apply_animation(base, anim, t_ms);
        let ghost before = r@;
        r.push(live);
        proof {
            assert(setup@.declared.subrange(0, i + 1) == setup@.declared.subrange(0, i as int).push(name@));
            assert(live == shape_at(scene@, setup@, name@, t_ms as int));
            assert(r@ =~= setup@.declared.subrange(0, i + 1).map_values(
                |name: Seq<char>| shape_at(scene@, setup@, name, t_ms as int),
            ));
        }
        i = i + 1;
    }
    proof {
        assert(setup@.declared.subrange(0, setup@.declared.len() as int) == setup@.declared);
    }
    r
}

/// The frame rate used for rendering: at least 1.
pub open spec fn effective_fps(fps: u32) -> int {
    if fps >= 1 { fps as int } else { 1 }
}

/// Number of frames of a scene: one per tick of the frame rate over its
/// duration, at least one.
pub open spec fn frame_count_of(duration_ms: u32, fps: u32) -> u32 {
    let n = duration_ms * effective_fps(fps) / 1000;
    (if n >= 1 { n } else { 1 }) as u32
}

/// Number of frames of a scene lasting `duration_ms` at `fps`.
pub fn frame_count(duration_ms: u32, fps: u32) -> (n: u32)
    ensures
        n == frame_count_of(duration_ms, fps),
{
    let f: u64 = if fps >= 1 { fps as u64 } else { 1 };
    proof {
        assert(duration_ms * f <= u32::MAX * u32::MAX) by (nonlinear_arith)
            requires
                f <= u32::MAX,
        ;
    }
    let n: u64 = duration_ms as u64 * f / 1000;
    let m: u64 = if n >= 1 { n } else { 1 };
    m as u32
}

/// Time of frame `i`, in milliseconds, rounded down.
pub open spec fn frame_time_of(i: u32, fps: u32) -> u32 {
    (i * 1000 / effective_fps(fps)) as u32
}

/// Time of frame `i` at `fps`, in milliseconds.
pub fn frame_time_ms(i: u32, fps: u32) -> (t: u32)
    ensures
        t == frame_time_of(i, fps),
{
    let f: u64 = if fps >= 1 { fps as u64 } else { 1 };
    ((i as u64 * 1000) / f) as u32
}

/// The delay of each frame of the encoded video: `1000 / fps`
/// milliseconds, as a ratio, with a rate of at least 1.
pub fn gif_frame_delay(fps: u32) -> (r: (u32, u32))
    ensures
        r.0 == 1000,
        r.1 == effective_fps(fps),
{
    (1000, if fps >= 1 { fps } else { 1 })
}

// --------------------------------------------------------------------
// GIF encoding
// --------------------------------------------------------------------

pub open spec fn rendered_view(frames: Seq<RenderedFrame>) -> Seq<(u32, u32, Seq<u8>)> {
    frames.map_values(|f: RenderedFrame| (f.width, f.height, f.rgba@))
}

/// The GIF that the `image` crate's encoder makes of the frames (width,
/// height, RGBA bytes), each shown for `numer / denom` milliseconds and
/// looping forever, or `None` where it refuses them.
pub uninterp spec fn gif_bytes(frames: Seq<(u32, u32, Seq<u8>)>, numer: u32, denom: u32) -> Option<Seq<u8>>;

/// Encodes the frames into a GIF in memory with
/// `image::codecs::gif::GifEncoder` (`set_repeat(Repeat::Infinite)`, then
/// `encode_frame` on `Frame::from_parts(RgbaImage::from_raw(..), 0, 0,
/// Delay::from_numer_denom_ms(numer, denom))` for each frame, in order).
/// The contract claims only that the outcome is a function of the frames
/// and the delay, named [`gif_bytes`]; the error text is the encoder's and
/// is not stated.
#[verifier::external_body]
fn encode_gif_frames(frames: &[RenderedFrame], numer: u32, denom: u32) -> (r: Result<Vec<u8>, String>)
    requires
        forall|i: int| 0 <= i < frames@.len() ==> #[trigger] frame_bytes_ok(frames@[i]),
    ensures
        r is Ok <==> gif_bytes(rendered_view(frames@), numer, denom) is Some,
        r matches Ok(b) ==> gif_bytes(rendered_view(frames@), numer, denom) == Some(b@),
{
    let mut out: Vec<u8> = Vec::new();
    {
        let mut encoder = image::codecs::gif::GifEncoder::new(&mut out);
        encoder.set_repeat(image::codecs::gif::Repeat::Infinite).map_err(|e| format!("set_repeat: {e}"))?;
        for f in frames {
            let img = image::RgbaImage::from_raw(f.width, f.height, f.rgba.clone()).ok_or_else(|| String::from("frame has wrong byte count"))?;
            let delay = image::Delay::from_numer_denom_ms(numer, denom);
            encoder.encode_frame(image::Frame::from_parts(img, 0, 0, delay)).map_err(|e| format!("encode_frame: {e}"))?;
        }
    }
    Ok(out)
}

/// The frame holds exactly `width × height` RGBA pixels.
pub open spec fn frame_bytes_ok(f: RenderedFrame) -> bool {
    f.rgba@.len() == f.width * f.height * 4
}

pub open spec fn wrong_count_message(expected: nat, got: nat) -> Seq<char> {
    "frame has wrong byte count: expected "@ + crate::writer::decimal(expected) + ", got "@
        + crate::writer::decimal(got)
}

/// Encodes rendered frames as an animated GIF shown at `fps` frames a
/// second: an error naming the first frame whose byte count does not match
/// its size; else what the encoder makes of the frames with each frame
/// shown for `1000 / fps` milliseconds (see [`gif_frame_delay`]).
pub fn encode_gif(frames: &[RenderedFrame], fps: u32) -> (r: Result<Vec<u8>, CompileError>)
    ensures
        forall|k: int|
            0 <= k < frames@.len() && !frame_bytes_ok(#[trigger] frames@[k]) && (forall|q: int|
                0 <= q < k ==> frame_bytes_ok(frames@[q])) ==> (r matches Err(CompileError::Encode(m))
                && m@ == wrong_count_message(
                (frames@[k].width * frames@[k].height * 4) as nat,
                frames@[k].rgba@.len(),
            )),
        (forall|q: int| 0 <= q < frames@.len() ==> #[trigger] frame_bytes_ok(frames@[q])) ==> {
            &&& (r is Ok <==> gif_bytes(rendered_view(frames@), 1000, effective_fps(fps) as u32) is Some)
            &&& (r matches Ok(b) ==> gif_bytes(rendered_view(frames@), 1000, effective_fps(fps) as u32) == Some(b@))
            &&& (r is Err ==> r matches Err(CompileError::Encode(_)))
        },
{
    let (numer, denom) = gif_frame_delay(fps);
    let mut i: usize = 0;
    while i < frames.len()
        invariant
            0 <= i <= frames@.len(),
            forall|q: int| 0 <= q < i ==> #[trigger] frame_bytes_ok(frames@[q]),
        decreases frames@.len() - i,
    {
        let f = &frames[i];
        proof {
            assert(f.width * f.height <= 0xffff_ffff * 0xffff_ffff) by (nonlinear_arith)
                requires
                    f.width <= 0xffff_ffff,
                    f.height <= 0xffff_ffff,
            ;
        }
        let expected: u128 = f.width as u128 * f.height as u128 * 4;
        if f.rgba.len() as u128 != expected {
            proof {
                reveal_strlit("frame has wrong byte count: expected ");
                reveal_strlit(", got ");
            }
            let mut m = "frame has wrong byte count: expected ".to_owned();
            crate::writer::push_decimal_wide(&mut m, expected);
            m.append(", got ");
            crate::writer::push_decimal_wide(&mut m, f.rgba.len() as u128);
            proof {
                assert(m@ =~= wrong_count_message(expected as nat, f.rgba@.len()));
                assert(!frame_bytes_ok(frames@[i as int]));
            }
            return Err(CompileError::Encode(m));
        }
        i = i + 1;
    }
    match encode_gif_frames(frames, numer, denom) {
        Ok(b) => Ok(b),
        Err(e) => Err(CompileError::Encode(e)),
    }
}

/// Every frame of a scene falls within the scene: frame `i` of a scene
/// lasting `duration_ms` starts no later than its end.
pub proof fn lemma_frames_within_scene(duration_ms: u32, fps: u32, i: u32)
    requires
        i < frame_count_of(duration_ms, fps),
    ensures
        frame_time_of(i, fps) <= duration_ms,
{
    let f = effective_fps(fps);
    let n = duration_ms * f / 1000;
    if n >= 1 {
        assert(i < n);
        assert(n * 1000 <= duration_ms * f) by (nonlinear_arith)
            requires
                n == duration_ms * f / 1000,
                f >= 1,
        ;
        assert(i * 1000 <= duration_ms * f) by (nonlinear_arith)
            requires
                i < n,
                n * 1000 <= duration_ms * f,
                i >= 0,
        ;
        assert(i * 1000 / f <= duration_ms) by (nonlinear_arith)
            requires
                i * 1000 <= duration_ms * f,
                f >= 1,
                i >= 0,
                duration_ms >= 0,
        ;
    } else {
        assert(i == 0);
    }
}

// --------------------------------------------------------------------
// Premultiplied to plain RGBA
// --------------------------------------------------------------------

/// Channel `c` of a pixel with alpha `a` (neither 0 nor 255), divided by
/// the alpha: `c · 255 / a` rounded to nearest (halves up), at most 255.
pub open spec fn unpremul_channel(c: u8, a: u8) -> u8 {
    let v = (2 * c * 255 + a) / (2 * a);
    (if v > 255 { 255 } else { v }) as u8
}

/// Byte `j` of the plain RGBA image: transparent pixels become all zero,
/// opaque ones are kept, others have their colour divided by the alpha.
pub open spec fn unpremul_byte(src: Seq<u8>, j: int) -> u8 {
    let base = j / 4 * 4;
    let a = src[base + 3];
    if a == 0 {
        0
    } else if a == 255 || j % 4 == 3 {
        src[j]
    } else {
        unpremul_channel(src[j], a)
    }
}

fn unpremul_of(c: u8, a: u8) -> (r: u8)
    requires
        a != 0,
    ensures
        r == unpremul_channel(c, a),
{
    let v: u32 = (2 * c as u32 * 255 + a as u32) / (2 * a as u32);
    if v > 255 {
        255
    } else {
        v as u8
    }
}

/// Converts premultiplied RGBA8 (whole pixels of `src`) to plain RGBA8.
pub fn unpremultiply(src: &[u8], w: u32, h: u32) -> (out: Vec<u8>)
    ensures
        out@.len() == src@.len() / 4 * 4,
        forall|j: int| 0 <= j < out@.len() ==> #[trigger] out@[j] == unpremul_byte(src@, j),
{
    let n: usize = src.len() / 4;
    let mut out: Vec<u8> = Vec::new();
    let mut k: usize = 0;
    while k < n
        invariant
            n == src@.len() / 4,
            src@.len() <= usize::MAX,
            0 <= k <= n,
            out@.len() == k * 4,
            forall|j: int| 0 <= j < out@.len() ==> #[trigger] out@[j] == unpremul_byte(src@, j),
        decreases n - k,
    {
        proof {
            assert(k * 4 + 3 < src@.len()) by (nonlinear_arith)
                requires
                    k < n,
                    n == src@.len() / 4,
            ;
        }
        let b = k * 4;
        let pr = src[b];
        let pg = src[b + 1];
        let pb = src[b + 2];
        let pa = src[b + 3];
        let ghost before = out@;
        if pa == 0 {
            out.push(0);
            out.push(0);
            out.push(0);
            out.push(0);
        } else if pa == 255 {
            out.push(pr);
            out.push(pg);
            out.push(pb);
            out.push(pa);
        } else {
            out.push(unpremul_of(pr, pa));
            out.push(unpremul_of(pg, pa));
            out.push(unpremul_of(pb, pa));
            out.push(pa);
        }
        proof {
            assert forall|j: int| 0 <= j < out@.len() implies #[trigger] out@[j] == unpremul_byte(src@, j) by {
                if j >= before.len() {
                    let c = j - b;
                    crate::detect::lemma_coords(j, 4, c, k as int);
                } else {
                    assert(out@[j] == before[j]);
                }
            }
        }
        k = k + 1;
    }
    out
}

} // verus!
