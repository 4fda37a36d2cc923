//! Recursive-descent parser for the `.vac` grammar:
//!
//! ```text
//! document      = canvas_decl scene*
//! canvas_decl   = "canvas" Dimension "@" Fps
//! scene         = "scene" Ident "{" scene_stmt* "}"
//! scene_stmt    = duration_stmt | let_stmt | assign_stmt | animate_stmt
//! duration_stmt = "duration" Time
//! let_stmt      = "let" Ident "=" shape_expr
//! shape_expr    = ("rect" | "ellipse") "(" Number ("," Number){3} ")"
//! assign_stmt   = Ident "." Ident "=" value
//! value         = HexColor | "none"
//! animate_stmt  = "animate" Ident "{" (keyframe | easing_decl)* "}"
//! keyframe      = Time "->" transform ("," transform)*
//! transform     = "position" "(" Number "," Number ")"
//!               | "scale"    "(" Number ")"
//!               | "opacity"  "(" Number ")"
//! easing_decl   = "easing" ":" Ident
//! ```
//!
//! The specification works on the sequence of token kinds: each `p_*`
//! function takes the index of the next token and gives either the parsed
//! value with the index after it, or the index of the token that the error
//! is reported at.
use vstd::prelude::*;
use vstd::string::StringSliceAdditionalSpecFns;
use crate::ast::{
    ascii_bytes, ascii_chars, easing_from_name, property_from_name, Animation, AnimationV, Canvas,
    Document, DocumentV, Easing, Keyframe, KeyframeV, Number, Property, Scene, SceneV, Shape,
    Statement, StatementV, Transform, Value,
};
use crate::lexer::{
    lex_from, line_col, span_pos, tokenize, lemma_lex_from_well_formed, ParseError,
    Spanned, Token, TokenV,
};

verus! {

// --------------------------------------------------------------------
// Keywords
// --------------------------------------------------------------------

pub open spec fn kw_canvas() -> Seq<u8> {
    ascii_bytes(seq!['c', 'a', 'n', 'v', 'a', 's'])
}

pub open spec fn kw_scene() -> Seq<u8> {
    ascii_bytes(seq!['s', 'c', 'e', 'n', 'e'])
}

pub open spec fn kw_duration() -> Seq<u8> {
    ascii_bytes(seq!['d', 'u', 'r', 'a', 't', 'i', 'o', 'n'])
}

pub open spec fn kw_let() -> Seq<u8> {
    ascii_bytes(seq!['l', 'e', 't'])
}

pub open spec fn kw_animate() -> Seq<u8> {
    ascii_bytes(seq!['a', 'n', 'i', 'm', 'a', 't', 'e'])
}

pub open spec fn kw_easing() -> Seq<u8> {
    ascii_bytes(seq!['e', 'a', 's', 'i', 'n', 'g'])
}

pub open spec fn kw_rect() -> Seq<u8> {
    ascii_bytes(seq!['r', 'e', 'c', 't'])
}

pub open spec fn kw_ellipse() -> Seq<u8> {
    ascii_bytes(seq!['e', 'l', 'l', 'i', 'p', 's', 'e'])
}

pub open spec fn kw_position() -> Seq<u8> {
    ascii_bytes(seq!['p', 'o', 's', 'i', 't', 'i', 'o', 'n'])
}

pub open spec fn kw_scale() -> Seq<u8> {
    ascii_bytes(seq!['s', 'c', 'a', 'l', 'e'])
}

pub open spec fn kw_opacity() -> Seq<u8> {
    ascii_bytes(seq!['o', 'p', 'a', 'c', 'i', 't', 'y'])
}

pub open spec fn kw_none() -> Seq<u8> {
    ascii_bytes(seq!['n', 'o', 'n', 'e'])
}

// --------------------------------------------------------------------
// Specification over token kinds
// --------------------------------------------------------------------

/// The token at `i`; `Eof` past the end.
pub open spec fn tok(ts: Seq<TokenV>, i: int) -> TokenV {
    if 0 <= i < ts.len() {
        ts[i]
    } else {
        TokenV::Eof
    }
}

pub open spec fn p_keyword(ts: Seq<TokenV>, i: int, kw: Seq<u8>) -> Result<int, int> {
    match tok(ts, i) {
        TokenV::Ident(n) => if n == kw {
            Ok(i + 1)
        } else {
            Err(i)
        },
        _ => Err(i),
    }
}

pub open spec fn p_ident(ts: Seq<TokenV>, i: int) -> Result<(Seq<u8>, int), int> {
    match tok(ts, i) {
        TokenV::Ident(n) => Ok((n, i + 1)),
        _ => Err(i),
    }
}

/// `target` is a punctuation token.
pub open spec fn p_expect(ts: Seq<TokenV>, i: int, target: TokenV) -> Result<int, int> {
    if tok(ts, i) == target {
        Ok(i + 1)
    } else {
        Err(i)
    }
}

pub open spec fn p_time(ts: Seq<TokenV>, i: int) -> Result<(u32, int), int> {
    match tok(ts, i) {
        TokenV::TimeMs(t) => Ok((t, i + 1)),
        _ => Err(i),
    }
}

pub open spec fn p_canvas(ts: Seq<TokenV>, i: int) -> Result<(Canvas, int), int> {
    match p_keyword(ts, i, kw_canvas()) {
        Err(e) => Err(e),
        Ok(i1) => match tok(ts, i1) {
            TokenV::Dimension(w, h) => match p_expect(ts, i1 + 1, TokenV::At) {
                Err(e) => Err(e),
                Ok(i2) => match tok(ts, i2) {
                    TokenV::Fps(f) => Ok((Canvas { width: w, height: h, fps: f }, i2 + 1)),
                    _ => Err(i2),
                },
            },
            _ => Err(i1),
        },
    }
}

pub open spec fn p_number_tail(ts: Seq<TokenV>, i: int, acc: Seq<Number>) -> Result<
    (Seq<Number>, int),
    int,
>
    decreases ts.len() - i,
{
    if tok(ts, i) is Comma {
        match tok(ts, i + 1) {
            TokenV::Number(n) => p_number_tail(ts, i + 2, acc.push(n)),
            _ => Err(i + 1),
        }
    } else {
        Ok((acc, i))
    }
}

pub open spec fn p_number_list(ts: Seq<TokenV>, i: int) -> Result<(Seq<Number>, int), int> {
    match tok(ts, i) {
        TokenV::RParen => Ok((Seq::empty(), i)),
        TokenV::Number(n) => p_number_tail(ts, i + 1, seq![n]),
        _ => Err(i),
    }
}

/// `kind(` number-list `)`, with the kind name, the numbers and the index after `)`.
pub open spec fn p_call(ts: Seq<TokenV>, i: int) -> Result<(Seq<u8>, Seq<Number>, int), int> {
    match p_ident(ts, i) {
        Err(e) => Err(e),
        Ok((kind, i1)) => match p_expect(ts, i1, TokenV::LParen) {
            Err(e) => Err(e),
            Ok(i2) => match p_number_list(ts, i2) {
                Err(e) => Err(e),
                Ok((nums, i3)) => match p_expect(ts, i3, TokenV::RParen) {
                    Err(e) => Err(e),
                    Ok(i4) => Ok((kind, nums, i4)),
                },
            },
        },
    }
}

pub open spec fn p_shape(ts: Seq<TokenV>, i: int) -> Result<(Shape, int), int> {
    match p_call(ts, i) {
        Err(e) => Err(e),
        Ok((kind, nums, j)) => if kind == kw_rect() {
            if nums.len() != 4 {
                Err(i)
            } else {
                Ok((Shape::Rect { x: nums[0], y: nums[1], w: nums[2], h: nums[3] }, j))
            }
        } else if kind == kw_ellipse() {
            if nums.len() != 4 {
                Err(i)
            } else {
                Ok((Shape::Ellipse { cx: nums[0], cy: nums[1], rx: nums[2], ry: nums[3] }, j))
            }
        } else {
            Err(i)
        },
    }
}

/// `let` statement after the keyword.
pub open spec fn p_let(ts: Seq<TokenV>, i: int) -> Result<(StatementV, int), int> {
    match p_ident(ts, i) {
        Err(e) => Err(e),
        Ok((name, i1)) => match p_expect(ts, i1, TokenV::Equals) {
            Err(e) => Err(e),
            Ok(i2) => match p_shape(ts, i2) {
                Err(e) => Err(e),
                Ok((shape, i3)) => Ok((StatementV::Let { name: ascii_chars(name), shape }, i3)),
            },
        },
    }
}

pub open spec fn p_value(ts: Seq<TokenV>, i: int) -> Result<(Value, int), int> {
    match tok(ts, i) {
        TokenV::HexColor(c) => Ok((Value::Color(c), i + 1)),
        TokenV::Ident(n) => if n == kw_none() {
            Ok((Value::Absent, i + 1))
        } else {
            Err(i)
        },
        _ => Err(i),
    }
}

pub open spec fn p_assign(ts: Seq<TokenV>, i: int) -> Result<(StatementV, int), int> {
    match p_ident(ts, i) {
        Err(e) => Err(e),
        Ok((target, i1)) => match p_expect(ts, i1, TokenV::Dot) {
            Err(e) => Err(e),
            Ok(i2) => match p_ident(ts, i2) {
                Err(e) => Err(e),
                Ok((prop, i3)) => match p_expect(ts, i3, TokenV::Equals) {
                    Err(e) => Err(e),
                    Ok(i4) => match property_from_name(ascii_chars(prop)) {
                        None => Err(i),
                        Some(property) => match p_value(ts, i4) {
                            Err(e) => Err(e),
                            Ok((value, i5)) => Ok(
                                (
                                    StatementV::Assign {
                                        target: ascii_chars(target),
                                        property,
                                        value,
                                    },
                                    i5,
                                ),
                            ),
                        },
                    },
                },
            },
        },
    }
}

pub open spec fn p_transform(ts: Seq<TokenV>, i: int) -> Result<(Transform, int), int> {
    match p_call(ts, i) {
        Err(e) => Err(e),
        Ok((kind, nums, j)) => if kind == kw_position() {
            if nums.len() != 2 {
                Err(i)
            } else {
                Ok((Transform::Position(nums[0], nums[1]), j))
            }
        } else if kind == kw_scale() {
            if nums.len() != 1 {
                Err(i)
            } else {
                Ok((Transform::Scale(nums[0]), j))
            }
        } else if kind == kw_opacity() {
            if nums.len() != 1 {
                Err(i)
            } else {
                Ok((Transform::Opacity(nums[0]), j))
            }
        } else {
            Err(i)
        },
    }
}

pub open spec fn p_transform_tail(ts: Seq<TokenV>, i: int, acc: Seq<Transform>) -> Result<
    (Seq<Transform>, int),
    int,
>
    decreases ts.len() - i,
{
    if tok(ts, i) is Comma {
        match p_transform(ts, i + 1) {
            Err(e) => Err(e),
            Ok((t, j)) => {
                proof {
                    lemma_p_transform_advances(ts, i + 1);
                }
                p_transform_tail(ts, j, acc.push(t))
            },
        }
    } else {
        Ok((acc, i))
    }
}

pub open spec fn p_keyframe(ts: Seq<TokenV>, i: int) -> Result<(KeyframeV, int), int> {
    match p_time(ts, i) {
        Err(e) => Err(e),
        Ok((time_ms, i1)) => match p_expect(ts, i1, TokenV::Arrow) {
            Err(e) => Err(e),
            Ok(i2) => match p_transform(ts, i2) {
                Err(e) => Err(e),
                Ok((t, i3)) => match p_transform_tail(ts, i3, seq![t]) {
                    Err(e) => Err(e),
                    Ok((transforms, i4)) => Ok((KeyframeV { time_ms, transforms }, i4)),
                },
            },
        },
    }
}

/// Body of an `animate` block up to and including its `}`.
pub open spec fn p_animate_body(
    ts: Seq<TokenV>,
    i: int,
    keyframes: Seq<KeyframeV>,
    easing: Easing,
) -> Result<(Seq<KeyframeV>, Easing, int), int>
    decreases ts.len() - i,
{
    match tok(ts, i) {
        TokenV::RBrace => Ok((keyframes, easing, i + 1)),
        TokenV::TimeMs(_) => match p_keyframe(ts, i) {
            Err(e) => Err(e),
            Ok((kf, j)) => {
                proof {
                    lemma_p_keyframe_advances(ts, i);
                }
                p_animate_body(ts, j, keyframes.push(kf), easing)
            },
        },
        TokenV::Ident(n) => if n == kw_easing() {
            match p_expect(ts, i + 1, TokenV::Colon) {
                Err(e) => Err(e),
                Ok(i2) => match p_ident(ts, i2) {
                    Err(e) => Err(e),
                    Ok((name, i3)) => match easing_from_name(ascii_chars(name)) {
                        None => Err(i2),
                        Some(e) => p_animate_body(ts, i3, keyframes, e),
                    },
                },
            }
        } else {
            Err(i)
        },
        _ => Err(i),
    }
}

/// `animate` statement after the keyword.
pub open spec fn p_animate(ts: Seq<TokenV>, i: int) -> Result<(AnimationV, int), int> {
    match p_ident(ts, i) {
        Err(e) => Err(e),
        Ok((target, i1)) => match p_expect(ts, i1, TokenV::LBrace) {
            Err(e) => Err(e),
            Ok(i2) => match p_animate_body(ts, i2, Seq::empty(), Easing::Linear) {
                Err(e) => Err(e),
                Ok((keyframes, easing, i3)) => Ok(
                    (AnimationV { target: ascii_chars(target), keyframes, easing }, i3),
                ),
            },
        },
    }
}

/// Statements of a scene up to and including its `}`, with the declared
/// duration; a scene must declare its duration exactly once.
pub open spec fn p_scene_body(
    ts: Seq<TokenV>,
    i: int,
    duration: Option<u32>,
    stmts: Seq<StatementV>,
) -> Result<(Option<u32>, Seq<StatementV>, int), int>
    decreases ts.len() - i,
{
    match tok(ts, i) {
        TokenV::RBrace => if duration is Some {
            Ok((duration, stmts, i + 1))
        } else {
            Err(i)
        },
        TokenV::Ident(n) => if n == kw_duration() {
            match p_time(ts, i + 1) {
                Err(e) => Err(e),
                Ok((t, j)) => if duration is Some {
                    Err(i)
                } else {
                    p_scene_body(ts, j, Some(t), stmts)
                },
            }
        } else if n == kw_let() {
            match p_let(ts, i + 1) {
                Err(e) => Err(e),
                Ok((st, j)) => {
                    proof {
                        lemma_p_let_advances(ts, i + 1);
                    }
                    p_scene_body(ts, j, duration, stmts.push(st))
                },
            }
        } else if n == kw_animate() {
            match p_animate(ts, i + 1) {
                Err(e) => Err(e),
                Ok((a, j)) => {
                    proof {
                        lemma_p_animate_advances(ts, i + 1);
                    }
                    p_scene_body(ts, j, duration, stmts.push(StatementV::Animate(a)))
                },
            }
        } else {
            match p_assign(ts, i) {
                Err(e) => Err(e),
                Ok((st, j)) => {
                    proof {
                        lemma_p_assign_advances(ts, i);
                    }
                    p_scene_body(ts, j, duration, stmts.push(st))
                },
            }
        },
        _ => Err(i),
    }
}

pub open spec fn p_scene(ts: Seq<TokenV>, i: int) -> Result<(SceneV, int), int> {
    match p_keyword(ts, i, kw_scene()) {
        Err(e) => Err(e),
        Ok(i1) => match p_ident(ts, i1) {
            Err(e) => Err(e),
            Ok((name, i2)) => match p_expect(ts, i2, TokenV::LBrace) {
                Err(e) => Err(e),
                Ok(i3) => match p_scene_body(ts, i3, None, Seq::empty()) {
                    Err(e) => Err(e),
                    Ok((duration, statements, i4)) => Ok(
                        (
                            SceneV {
                                name: ascii_chars(name),
                                duration_ms: match duration {
                                    Some(d) => d,
                                    None => 0,
                                },
                                statements,
                            },
                            i4,
                        ),
                    ),
                },
            },
        },
    }
}

pub open spec fn p_scenes(ts: Seq<TokenV>, i: int, acc: Seq<SceneV>) -> Result<Seq<SceneV>, int>
    decreases ts.len() - i,
{
    if tok(ts, i) is Eof {
        Ok(acc)
    } else {
        match p_scene(ts, i) {
            Err(e) => Err(e),
            Ok((sc, j)) => {
                proof {
                    lemma_p_scene_advances(ts, i);
                }
                p_scenes(ts, j, acc.push(sc))
            },
        }
    }
}

pub open spec fn p_document(ts: Seq<TokenV>) -> Result<DocumentV, int> {
    match p_canvas(ts, 0) {
        Err(e) => Err(e),
        Ok((canvas, i)) => match p_scenes(ts, i, Seq::empty()) {
            Err(e) => Err(e),
            Ok(scenes) => Ok(DocumentV { canvas, scenes }),
        },
    }
}

pub open spec fn token_kinds(ts: Seq<(TokenV, int)>) -> Seq<TokenV> {
    ts.map_values(|t: (TokenV, int)| t.0)
}

/// What parsing the bytes `s` gives: the document, or the line and column
/// of the first error.
pub open spec fn spec_parse(s: Seq<u8>) -> Result<DocumentV, (int, int)> {
    match lex_from(s, 0) {
        Err(p) => Err(line_col(s, p)),
        Ok(ts) => match p_document(token_kinds(ts)) {
            Ok(d) => Ok(d),
            Err(i) => Err(line_col(s, ts[i].1)),
        },
    }
}

// --------------------------------------------------------------------
// Progress lemmas: every successful step consumes at least one token
// --------------------------------------------------------------------

pub proof fn lemma_p_number_tail_advances(ts: Seq<TokenV>, i: int, acc: Seq<Number>)
    ensures
        p_number_tail(ts, i, acc) matches Ok((_, j)) ==> i <= j && (i <= ts.len() ==> j <= ts.len()),
    decreases ts.len() - i,
{
    if tok(ts, i) is Comma {
        if let TokenV::Number(n) = tok(ts, i + 1) {
            lemma_p_number_tail_advances(ts, i + 2, acc.push(n));
        }
    }
}

pub proof fn lemma_p_call_advances(ts: Seq<TokenV>, i: int)
    ensures
        p_call(ts, i) matches Ok((_, _, j)) ==> i < j <= ts.len(),
{
    if let Ok((_, i1)) = p_ident(ts, i) {
        if let Ok(i2) = p_expect(ts, i1, TokenV::LParen) {
            if let TokenV::Number(n) = tok(ts, i2) {
                lemma_p_number_tail_advances(ts, i2 + 1, seq![n]);
            }
        }
    }
}

pub proof fn lemma_p_transform_advances(ts: Seq<TokenV>, i: int)
    ensures
        p_transform(ts, i) matches Ok((_, j)) ==> i < j <= ts.len(),
{
    lemma_p_call_advances(ts, i);
}

pub proof fn lemma_p_transform_tail_advances(ts: Seq<TokenV>, i: int, acc: Seq<Transform>)
    ensures
        p_transform_tail(ts, i, acc) matches Ok((_, j)) ==> i <= j && (i <= ts.len() ==> j <= ts.len()),
    decreases ts.len() - i,
{
    if tok(ts, i) is Comma {
        lemma_p_transform_advances(ts, i + 1);
        if let Ok((t, j)) = p_transform(ts, i + 1) {
            lemma_p_transform_tail_advances(ts, j, acc.push(t));
        }
    }
}

pub proof fn lemma_p_keyframe_advances(ts: Seq<TokenV>, i: int)
    ensures
        p_keyframe(ts, i) matches Ok((_, j)) ==> i < j <= ts.len(),
{
    if let Ok((_, i1)) = p_time(ts, i) {
        if let Ok(i2) = p_expect(ts, i1, TokenV::Arrow) {
            lemma_p_transform_advances(ts, i2);
            if let Ok((t, i3)) = p_transform(ts, i2) {
                lemma_p_transform_tail_advances(ts, i3, seq![t]);
            }
        }
    }
}

pub proof fn lemma_p_let_advances(ts: Seq<TokenV>, i: int)
    ensures
        p_let(ts, i) matches Ok((_, j)) ==> i < j <= ts.len(),
{
    if let Ok((_, i1)) = p_ident(ts, i) {
        if let Ok(i2) = p_expect(ts, i1, TokenV::Equals) {
            lemma_p_call_advances(ts, i2);
        }
    }
}

pub proof fn lemma_p_assign_advances(ts: Seq<TokenV>, i: int)
    ensures
        p_assign(ts, i) matches Ok((_, j)) ==> i < j <= ts.len(),
{
}

pub proof fn lemma_p_animate_body_advances(
    ts: Seq<TokenV>,
    i: int,
    keyframes: Seq<KeyframeV>,
    easing: Easing,
)
    ensures
        p_animate_body(ts, i, keyframes, easing) matches Ok((_, _, j)) ==> i < j <= ts.len(),
    decreases ts.len() - i,
{
    match tok(ts, i) {
        TokenV::TimeMs(_) => {
            lemma_p_keyframe_advances(ts, i);
            if let Ok((kf, j)) = p_keyframe(ts, i) {
                lemma_p_animate_body_advances(ts, j, keyframes.push(kf), easing);
            }
        },
        TokenV::Ident(n) => {
            if n == kw_easing() {
                if let Ok(i2) = p_expect(ts, i + 1, TokenV::Colon) {
                    if let Ok((name, i3)) = p_ident(ts, i2) {
                        if let Some(e) = easing_from_name(ascii_chars(name)) {
                            lemma_p_animate_body_advances(ts, i3, keyframes, e);
                        }
                    }
                }
            }
        },
        _ => {},
    }
}

pub proof fn lemma_p_animate_advances(ts: Seq<TokenV>, i: int)
    ensures
        p_animate(ts, i) matches Ok((_, j)) ==> i < j <= ts.len(),
{
    if let Ok((_, i1)) = p_ident(ts, i) {
        if let Ok(i2) = p_expect(ts, i1, TokenV::LBrace) {
            lemma_p_animate_body_advances(ts, i2, Seq::empty(), Easing::Linear);
        }
    }
}

pub proof fn lemma_p_scene_body_advances(
    ts: Seq<TokenV>,
    i: int,
    duration: Option<u32>,
    stmts: Seq<StatementV>,
)
    ensures
        p_scene_body(ts, i, duration, stmts) matches Ok((_, _, j)) ==> i < j <= ts.len(),
    decreases ts.len() - i,
{
    if let TokenV::Ident(n) = tok(ts, i) {
        if n == kw_duration() {
            if let Ok((t, j)) = p_time(ts, i + 1) {
                if duration is None {
                    lemma_p_scene_body_advances(ts, j, Some(t), stmts);
                }
            }
        } else if n == kw_let() {
            lemma_p_let_advances(ts, i + 1);
            if let Ok((st, j)) = p_let(ts, i + 1) {
                lemma_p_scene_body_advances(ts, j, duration, stmts.push(st));
            }
        } else if n == kw_animate() {
            lemma_p_animate_advances(ts, i + 1);
            if let Ok((a, j)) = p_animate(ts, i + 1) {
                lemma_p_scene_body_advances(ts, j, duration, stmts.push(StatementV::Animate(a)));
            }
        } else {
            lemma_p_assign_advances(ts, i);
            if let Ok((st, j)) = p_assign(ts, i) {
                lemma_p_scene_body_advances(ts, j, duration, stmts.push(st));
            }
        }
    }
}

pub proof fn lemma_p_scene_advances(ts: Seq<TokenV>, i: int)
    ensures
        p_scene(ts, i) matches Ok((_, j)) ==> i < j <= ts.len(),
{
    if let Ok(i1) = p_keyword(ts, i, kw_scene()) {
        if let Ok((_, i2)) = p_ident(ts, i1) {
            if let Ok(i3) = p_expect(ts, i2, TokenV::LBrace) {
                lemma_p_scene_body_advances(ts, i3, None, Seq::empty());
            }
        }
    }
}

// --------------------------------------------------------------------
// Executable parser
// --------------------------------------------------------------------

pub const KW_CANVAS: [u8; 6] = [99, 97, 110, 118, 97, 115];
pub const KW_SCENE: [u8; 5] = [115, 99, 101, 110, 101];
pub const KW_DURATION: [u8; 8] = [100, 117, 114, 97, 116, 105, 111, 110];
pub const KW_LET: [u8; 3] = [108, 101, 116];
pub const KW_ANIMATE: [u8; 7] = [97, 110, 105, 109, 97, 116, 101];
pub const KW_EASING: [u8; 6] = [101, 97, 115, 105, 110, 103];
pub const KW_RECT: [u8; 4] = [114, 101, 99, 116];
pub const KW_ELLIPSE: [u8; 7] = [101, 108, 108, 105, 112, 115, 101];
pub const KW_POSITION: [u8; 8] = [112, 111, 115, 105, 116, 105, 111, 110];
pub const KW_SCALE: [u8; 5] = [115, 99, 97, 108, 101];
pub const KW_OPACITY: [u8; 7] = [111, 112, 97, 99, 105, 116, 121];
pub const KW_NONE: [u8; 4] = [110, 111, 110, 101];

proof fn lemma_keywords()
    ensures
        KW_CANVAS@ =~= kw_canvas(),
        KW_SCENE@ =~= kw_scene(),
        KW_DURATION@ =~= kw_duration(),
        KW_LET@ =~= kw_let(),
        KW_ANIMATE@ =~= kw_animate(),
        KW_EASING@ =~= kw_easing(),
        KW_RECT@ =~= kw_rect(),
        KW_ELLIPSE@ =~= kw_ellipse(),
        KW_POSITION@ =~= kw_position(),
        KW_SCALE@ =~= kw_scale(),
        KW_OPACITY@ =~= kw_opacity(),
        KW_NONE@ =~= kw_none(),
{
}

/// The text that a sequence of bytes stands for, byte by byte.
pub fn bytes_to_string(b: &Vec<u8>) -> (s: String)
    ensures
        s@ == ascii_chars(b@),
{
    let mut s = String::new();
    let mut i: usize = 0;
    while i < b.len()
        invariant
            0 <= i <= b@.len(),
            s@ =~= ascii_chars(b@.subrange(0, i as int)),
        decreases b@.len() - i,
    {
        crate::ast::string_push(&mut s, b[i] as char);
        proof {
            assert(ascii_chars(b@.subrange(0, i + 1)) =~= ascii_chars(b@.subrange(0, i as int)).push(
                b@[i as int] as char,
            ));
        }
        i = i + 1;
    }
    proof {
        assert(b@.subrange(0, b@.len() as int) =~= b@);
    }
    s
}

/// `prefix`, the name between backquotes, then `suffix`.
fn named_message(prefix: &str, name: &Vec<u8>, suffix: &str) -> (m: String)
    ensures
        m@ == prefix@ + "`"@ + ascii_chars(name@) + "`"@ + suffix@,
{
    let mut m = prefix.to_owned();
    m.append("`");
    let text = bytes_to_string(name);
    m.append(text.as_str());
    m.append("`");
    m.append(suffix);
    m
}

/// Whether a token is the identifier `kw`.
fn ident_is(t: &Token, kw: &[u8]) -> (r: bool)
    ensures
        r == (t@ matches TokenV::Ident(n) && n == kw@),
{
    match t {
        Token::Ident(n) => crate::ast::bytes_equal(n.as_slice(), kw),
        _ => false,
    }
}

pub open spec fn is_punct(t: TokenV) -> bool {
    t is LBrace || t is RBrace || t is LParen || t is RParen || t is Comma || t is Equals || t is Dot
        || t is At || t is Colon || t is Arrow
}

/// Whether `a` is the punctuation token `b`.
fn same_punct(a: &Token, b: &Token) -> (r: bool)
    requires
        is_punct(b@),
    ensures
        r == (a@ == b@),
{
    match (a, b) {
        (Token::LBrace, Token::LBrace) => true,
        (Token::RBrace, Token::RBrace) => true,
        (Token::LParen, Token::LParen) => true,
        (Token::RParen, Token::RParen) => true,
        (Token::Comma, Token::Comma) => true,
        (Token::Equals, Token::Equals) => true,
        (Token::Dot, Token::Dot) => true,
        (Token::At, Token::At) => true,
        (Token::Colon, Token::Colon) => true,
        (Token::Arrow, Token::Arrow) => true,
        _ => false,
    }
}

pub open spec fn statements_view(v: Seq<Statement>) -> Seq<StatementV> {
    v.map_values(|s: Statement| s@)
}

pub open spec fn keyframes_view(v: Seq<Keyframe>) -> Seq<KeyframeV> {
    v.map_values(|k: Keyframe| k@)
}

pub open spec fn scenes_view(v: Seq<Scene>) -> Seq<SceneV> {
    v.map_values(|s: Scene| s@)
}

/// How a statement of a scene starts.
enum SceneStmtStart {
    Close,
    Duration,
    Let,
    Animate,
    Assign,
    Other,
}

/// How an item of an `animate` body starts.
enum AnimateItemStart {
    Close,
    Keyframe,
    Easing,
    Other,
}

pub struct Parser {
    pub tokens: Vec<Spanned>,
    pub cursor: usize,
}

impl Parser {
    pub open spec fn kinds(&self) -> Seq<TokenV> {
        self.tokens@.map_values(|t: Spanned| t.tok@)
    }

    pub open spec fn wf(&self) -> bool {
        &&& self.tokens@.len() > 0
        &&& self.kinds().last() is Eof
        &&& forall|i: int| 0 <= i < self.tokens@.len() - 1 ==> !(#[trigger] self.kinds()[i] is Eof)
        &&& self.cursor < self.tokens@.len()
    }

    pub open spec fn err_pos(&self, i: int) -> (int, int) {
        span_pos(self.tokens@[i].span)
    }

    pub open spec fn same_tokens(&self, other: &Parser) -> bool {
        self.tokens@ == other.tokens@
    }

    pub fn new(tokens: Vec<Spanned>) -> (p: Self)
        ensures
            p.tokens@ == tokens@,
            p.cursor == 0,
    {
        Parser { tokens, cursor: 0 }
    }

    fn peek(&self) -> (t: &Token)
        requires
            self.wf(),
        ensures
            t@ == tok(self.kinds(), self.cursor as int),
    {
        &self.tokens[self.cursor].tok
    }

    fn bump(&mut self)
        requires
            old(self).wf(),
            !(tok(old(self).kinds(), old(self).cursor as int) is Eof),
        ensures
            final(self).wf(),
            final(self).tokens@ == old(self).tokens@,
            final(self).cursor == old(self).cursor + 1,
    {
        let n = self.tokens.len();
        proof {
            assert(self.cursor < n);
        }
        self.cursor = self.cursor + 1;
    }

    fn error_at(&self, i: usize, msg: &str) -> (e: ParseError)
        requires
            i < self.tokens@.len(),
        ensures
            e.position() == self.err_pos(i as int),
    {
        let sp = self.tokens[i].span;
        ParseError::syntax(sp, msg)
    }

    fn expect_keyword(&mut self, kw: &[u8]) -> (r: Result<(), ParseError>)
        requires
            old(self).wf(),
        ensures
            final(self).wf(),
            final(self).tokens@ == old(self).tokens@,
            match p_keyword(old(self).kinds(), old(self).cursor as int, kw@) {
                Ok(j) => r is Ok && final(self).cursor == j,
                Err(e) => r matches Err(x) && 0 <= e < old(self).tokens@.len() && x.position()
                    == old(self).err_pos(e),
            },
    {
        if ident_is(self.peek(), kw) {
            self.bump();
            Ok(())
        } else {
            Err(self.error_at(self.cursor, "expected keyword"))
        }
    }

    fn expect_ident(&mut self) -> (r: Result<Vec<u8>, ParseError>)
        requires
            old(self).wf(),
        ensures
            final(self).wf(),
            final(self).tokens@ == old(self).tokens@,
            match p_ident(old(self).kinds(), old(self).cursor as int) {
                Ok((n, j)) => r matches Ok(x) && x@ == n && final(self).cursor == j,
                Err(e) => r matches Err(x) && 0 <= e < old(self).tokens@.len() && x.position()
                    == old(self).err_pos(e),
            },
    {
        let name = match self.peek() {
            Token::Ident(n) => crate::lexer::slice_to_vec_range(n.as_slice(), 0, n.len()),
            _ => {
                return Err(self.error_at(self.cursor, "expected identifier"));
            },
        };
        proof {
            assert(name@ =~= tok(self.kinds(), self.cursor as int)->Ident_0);
        }
        self.bump();
        Ok(name)
    }

    fn expect(&mut self, target: &Token) -> (r: Result<(), ParseError>)
        requires
            old(self).wf(),
            is_punct(target@),
        ensures
            final(self).wf(),
            final(self).tokens@ == old(self).tokens@,
            match p_expect(old(self).kinds(), old(self).cursor as int, target@) {
                Ok(j) => r is Ok && final(self).cursor == j,
                Err(e) => r matches Err(x) && 0 <= e < old(self).tokens@.len() && x.position()
                    == old(self).err_pos(e),
            },
    {
        if same_punct(self.peek(), target) {
            self.bump();
            Ok(())
        } else {
            Err(self.error_at(self.cursor, "unexpected token"))
        }
    }

    fn expect_time_ms(&mut self) -> (r: Result<u32, ParseError>)
        requires
            old(self).wf(),
        ensures
            final(self).wf(),
            final(self).tokens@ == old(self).tokens@,
            match p_time(old(self).kinds(), old(self).cursor as int) {
                Ok((t, j)) => r == Ok::<u32, ParseError>(t) && final(self).cursor == j,
                Err(e) => r matches Err(x) && 0 <= e < old(self).tokens@.len() && x.position()
                    == old(self).err_pos(e),
            },
    {
        let t = match self.peek() {
            Token::TimeMs(t) => *t,
            _ => {
                return Err(self.error_at(self.cursor, "expected time (e.g. 500ms or 2s)"));
            },
        };
        self.bump();
        Ok(t)
    }

    pub fn parse_document(&mut self) -> (r: Result<Document, ParseError>)
        requires
            old(self).wf(),
            old(self).cursor == 0,
        ensures
            match p_document(old(self).kinds()) {
                Ok(d) => r matches Ok(x) && x@ == d,
                Err(e) => r matches Err(x) && 0 <= e < old(self).tokens@.len() && x.position()
                    == old(self).err_pos(e),
            },
    {
        let canvas = match self.parse_canvas_decl() {
            Ok(v) => v,
            Err(e) => {
                return Err(e);
            },
        };
        let ghost ts = self.kinds();
        let mut scenes: Vec<Scene> = Vec::new();
        assert(scenes_view(scenes@) =~= Seq::<SceneV>::empty());
        loop
            invariant
                self.wf(),
                self.tokens@ == old(self).tokens@,
                ts == self.kinds(),
                p_document(ts) == match p_scenes(ts, self.cursor as int, scenes_view(scenes@)) {
                    Err(e) => Err(e),
                    Ok(sc) => Ok(DocumentV { canvas, scenes: sc }),
                },
            decreases ts.len() - self.cursor,
        {
            let at_end = match self.peek() {
                Token::Eof => true,
                _ => false,
            };
            if at_end {
                return Ok(Document { canvas, scenes });
            }
            let ghost i = self.cursor as int;
            let sc = match self.parse_scene() {
                Ok(v) => v,
                Err(e) => {
                    return Err(e);
                },
            };
            proof {
                lemma_p_scene_advances(ts, i);
                assert(scenes_view(scenes@.push(sc)) =~= scenes_view(scenes@).push(sc@));
            }
            scenes.push(sc);
        }
    }

    fn parse_canvas_decl(&mut self) -> (r: Result<Canvas, ParseError>)
        requires
            old(self).wf(),
        ensures
            final(self).wf(),
            final(self).tokens@ == old(self).tokens@,
            match p_canvas(old(self).kinds(), old(self).cursor as int) {
                Ok((c, j)) => r == Ok::<Canvas, ParseError>(c) && final(self).cursor == j,
                Err(e) => r matches Err(x) && 0 <= e < old(self).tokens@.len() && x.position()
                    == old(self).err_pos(e),
            },
    {
        proof {
            lemma_keywords();
        }
        match self.expect_keyword(&KW_CANVAS) {
            Ok(_) => {},
            Err(e) => {
                return Err(e);
            },
        }
        let (width, height) = match self.peek() {
            Token::Dimension(w, h) => (*w, *h),
            _ => {
                return Err(self.error_at(self.cursor, "expected canvas size like `800x600`"));
            },
        };
        self.bump();
        match self.expect(&Token::At) {
            Ok(_) => {},
            Err(e) => {
                return Err(e);
            },
        }
        let fps = match self.peek() {
            Token::Fps(f) => *f,
            _ => {
                return Err(self.error_at(self.cursor, "expected fps like `30fps`"));
            },
        };
        self.bump();
        Ok(Canvas { width, height, fps })
    }

    fn scene_stmt_start(&self) -> (k: SceneStmtStart)
        requires
            self.wf(),
        ensures
            ({
                let t = tok(self.kinds(), self.cursor as int);
                match k {
                    SceneStmtStart::Close => t is RBrace,
                    SceneStmtStart::Duration => t matches TokenV::Ident(n) && n == kw_duration(),
                    SceneStmtStart::Let => t matches TokenV::Ident(n) && n == kw_let(),
                    SceneStmtStart::Animate => t matches TokenV::Ident(n) && n == kw_animate(),
                    SceneStmtStart::Assign => t matches TokenV::Ident(n) && n != kw_duration() && n
                        != kw_let() && n != kw_animate(),
                    SceneStmtStart::Other => !(t is RBrace) && !(t is Ident),
                }
            }),
    {
        proof {
            lemma_keywords();
        }
        let t = self.peek();
        match t {
            Token::RBrace => SceneStmtStart::Close,
            Token::Ident(_) => {
                if ident_is(t, &KW_DURATION) {
                    SceneStmtStart::Duration
                } else if ident_is(t, &KW_LET) {
                    SceneStmtStart::Let
                } else if ident_is(t, &KW_ANIMATE) {
                    SceneStmtStart::Animate
                } else {
                    SceneStmtStart::Assign
                }
            },
            _ => SceneStmtStart::Other,
        }
    }

    fn parse_scene(&mut self) -> (r: Result<Scene, ParseError>)
        requires
            old(self).wf(),
        ensures
            final(self).wf(),
            final(self).tokens@ == old(self).tokens@,
            match p_scene(old(self).kinds(), old(self).cursor as int) {
                Ok((sc, j)) => r matches Ok(x) && x@ == sc && final(self).cursor == j,
                Err(e) => r matches Err(x) && 0 <= e < old(self).tokens@.len() && x.position()
                    == old(self).err_pos(e),
            },
    {
        proof {
            lemma_keywords();
        }
        match self.expect_keyword(&KW_SCENE) {
            Ok(_) => {},
            Err(e) => {
                return Err(e);
            },
        }
        let name_bytes = match self.expect_ident() {
            Ok(v) => v,
            Err(e) => {
                return Err(e);
            },
        };
        let name = bytes_to_string(&name_bytes);
        match self.expect(&Token::LBrace) {
            Ok(_) => {},
            Err(e) => {
                return Err(e);
            },
        }
        let ghost ts = self.kinds();
        let ghost i0 = self.cursor as int;
        let mut duration_ms: Option<u32> = None;
        let mut statements: Vec<Statement> = Vec::new();
        assert(statements_view(statements@) =~= Seq::<StatementV>::empty());
        loop
            invariant
                self.wf(),
                self.tokens@ == old(self).tokens@,
                ts == self.kinds(),
                name@ == ascii_chars(name_bytes@),
                p_scene(ts, old(self).cursor as int) == match p_scene_body(
                    ts,
                    self.cursor as int,
                    duration_ms,
                    statements_view(statements@),
                ) {
                    Err(e) => Err(e),
                    Ok((d, st, j)) => Ok(
                        (
                            SceneV {
                                name: ascii_chars(name_bytes@),
                                duration_ms: match d {
                                    Some(d) => d,
                                    None => 0,
                                },
                                statements: st,
                            },
                            j,
                        ),
                    ),
                },
            decreases ts.len() - self.cursor,
        {
            let ghost i = self.cursor as int;
            match self.scene_stmt_start() {
                SceneStmtStart::Close => {
                    if duration_ms.is_none() {
                        return Err(self.error_at(self.cursor, "scene has no duration"));
                    }
                    self.bump();
                    let d = match duration_ms {
                        Some(d) => d,
                        None => 0,
                    };
                    return Ok(Scene { name, duration_ms: d, statements });
                },
                SceneStmtStart::Duration => {
                    let at = self.cursor;
                    self.bump();
                    let t = match self.expect_time_ms() {
                        Ok(v) => v,
                        Err(e) => {
                            return Err(e);
                        },
                    };
                    if duration_ms.is_some() {
                        return Err(self.error_at(at, "duration declared twice in scene"));
                    }
                    duration_ms = Some(t);
                },
                SceneStmtStart::Let => {
                    self.bump();
                    let st = match self.parse_let_after_keyword() {
                        Ok(v) => v,
                        Err(e) => {
                            return Err(e);
                        },
                    };
                    proof {
                        lemma_p_let_advances(ts, i + 1);
                        assert(statements_view(statements@.push(st)) =~= statements_view(
                            statements@,
                        ).push(st@));
                    }
                    statements.push(st);
                },
                SceneStmtStart::Animate => {
                    self.bump();
                    let a = match self.parse_animate_after_keyword() {
                        Ok(v) => v,
                        Err(e) => {
                            return Err(e);
                        },
                    };
                    let st = Statement::Animate(a);
                    proof {
                        lemma_p_animate_advances(ts, i + 1);
                        assert(statements_view(statements@.push(st)) =~= statements_view(
                            statements@,
                        ).push(st@));
                    }
                    statements.push(st);
                },
                SceneStmtStart::Assign => {
                    let st = match self.parse_assign() {
                        Ok(v) => v,
                        Err(e) => {
                            return Err(e);
                        },
                    };
                    proof {
                        lemma_p_assign_advances(ts, i);
                        assert(statements_view(statements@.push(st)) =~= statements_view(
                            statements@,
                        ).push(st@));
                    }
                    statements.push(st);
                },
                SceneStmtStart::Other => {
                    return Err(self.error_at(self.cursor, "unexpected token in scene"));
                },
            }
        }
    }

    fn parse_let_after_keyword(&mut self) -> (r: Result<Statement, ParseError>)
        requires
            old(self).wf(),
        ensures
            final(self).wf(),
            final(self).tokens@ == old(self).tokens@,
            match p_let(old(self).kinds(), old(self).cursor as int) {
                Ok((st, j)) => r matches Ok(x) && x@ == st && final(self).cursor == j,
                Err(e) => r matches Err(x) && 0 <= e < old(self).tokens@.len() && x.position()
                    == old(self).err_pos(e),
            },
    {
        let name_bytes = match self.expect_ident() {
            Ok(v) => v,
            Err(e) => {
                return Err(e);
            },
        };
        match self.expect(&Token::Equals) {
            Ok(_) => {},
            Err(e) => {
                return Err(e);
            },
        }
        let shape = match self.parse_shape_expr() {
            Ok(v) => v,
            Err(e) => {
                return Err(e);
            },
        };
        let name = bytes_to_string(&name_bytes);
        Ok(Statement::Let { name, shape })
    }

    /// `kind(numbers)`: the kind's name, the numbers.
    fn parse_call(&mut self) -> (r: Result<(Vec<u8>, Vec<Number>), ParseError>)
        requires
            old(self).wf(),
        ensures
            final(self).wf(),
            final(self).tokens@ == old(self).tokens@,
            match p_call(old(self).kinds(), old(self).cursor as int) {
                Ok((kind, nums, j)) => r matches Ok(x) && x.0@ == kind && x.1@ == nums
                    && final(self).cursor == j,
                Err(e) => r matches Err(x) && 0 <= e < old(self).tokens@.len() && x.position()
                    == old(self).err_pos(e),
            },
    {
        let kind = match self.expect_ident() {
            Ok(v) => v,
            Err(e) => {
                return Err(e);
            },
        };
        match self.expect(&Token::LParen) {
            Ok(_) => {},
            Err(e) => {
                return Err(e);
            },
        }
        let nums = match self.parse_number_list() {
            Ok(v) => v,
            Err(e) => {
                return Err(e);
            },
        };
        match self.expect(&Token::RParen) {
            Ok(_) => {},
            Err(e) => {
                return Err(e);
            },
        }
        Ok((kind, nums))
    }

    fn parse_shape_expr(&mut self) -> (r: Result<Shape, ParseError>)
        requires
            old(self).wf(),
        ensures
            final(self).wf(),
            final(self).tokens@ == old(self).tokens@,
            match p_shape(old(self).kinds(), old(self).cursor as int) {
                Ok((sh, j)) => r == Ok::<Shape, ParseError>(sh) && final(self).cursor == j,
                Err(e) => r matches Err(x) && 0 <= e < old(self).tokens@.len() && x.position()
                    == old(self).err_pos(e),
            },
    {
        proof {
            lemma_keywords();
        }
        let at = self.cursor;
        let (kind, nums) = match self.parse_call() {
            Ok(v) => v,
            Err(e) => {
                return Err(e);
            },
        };
        if crate::ast::bytes_equal(kind.as_slice(), &KW_RECT) {
            if nums.len() != 4 {
                return Err(self.error_at(at, crate::lexer::counted_message("rect() takes 4 args (x, y, w, h), got ", nums.len(), "").as_str()));
            }
            Ok(Shape::Rect { x: nums[0], y: nums[1], w: nums[2], h: nums[3] })
        } else if crate::ast::bytes_equal(kind.as_slice(), &KW_ELLIPSE) {
            if nums.len() != 4 {
                return Err(self.error_at(at, crate::lexer::counted_message("ellipse() takes 4 args (cx, cy, rx, ry), got ", nums.len(), "").as_str()));
            }
            Ok(Shape::Ellipse { cx: nums[0], cy: nums[1], rx: nums[2], ry: nums[3] })
        } else {
            Err(self.error_at(at, named_message("unknown shape primitive ", &kind, " (expected rect or ellipse)").as_str()))
        }
    }

    fn parse_number_list(&mut self) -> (r: Result<Vec<Number>, ParseError>)
        requires
            old(self).wf(),
        ensures
            final(self).wf(),
            final(self).tokens@ == old(self).tokens@,
            match p_number_list(old(self).kinds(), old(self).cursor as int) {
                Ok((nums, j)) => r matches Ok(x) && x@ == nums && final(self).cursor == j,
                Err(e) => r matches Err(x) && 0 <= e < old(self).tokens@.len() && x.position()
                    == old(self).err_pos(e),
            },
    {
        let ghost ts = self.kinds();
        let mut out: Vec<Number> = Vec::new();
        let first = match self.peek() {
            Token::RParen => {
                return Ok(out);
            },
            Token::Number(n) => *n,
            _ => {
                return Err(self.error_at(self.cursor, "expected number"));
            },
        };
        let ghost i0 = self.cursor as int;
        self.bump();
        out.push(first);
        assert(out@ =~= seq![first]);
        loop
            invariant
                self.wf(),
                self.tokens@ == old(self).tokens@,
                ts == self.kinds(),
                p_number_list(ts, old(self).cursor as int) == p_number_tail(
                    ts,
                    self.cursor as int,
                    out@,
                ),
            decreases ts.len() - self.cursor,
        {
            let is_comma = match self.peek() {
                Token::Comma => true,
                _ => false,
            };
            if !is_comma {
                return Ok(out);
            }
            self.bump();
            let n = match self.peek() {
                Token::Number(n) => *n,
                _ => {
                    return Err(self.error_at(self.cursor, "expected number"));
                },
            };
            self.bump();
            out.push(n);
        }
    }

    fn parse_assign(&mut self) -> (r: Result<Statement, ParseError>)
        requires
            old(self).wf(),
        ensures
            final(self).wf(),
            final(self).tokens@ == old(self).tokens@,
            match p_assign(old(self).kinds(), old(self).cursor as int) {
                Ok((st, j)) => r matches Ok(x) && x@ == st && final(self).cursor == j,
                Err(e) => r matches Err(x) && 0 <= e < old(self).tokens@.len() && x.position()
                    == old(self).err_pos(e),
            },
    {
        let at = self.cursor;
        let target_bytes = match self.expect_ident() {
            Ok(v) => v,
            Err(e) => {
                return Err(e);
            },
        };
        match self.expect(&Token::Dot) {
            Ok(_) => {},
            Err(e) => {
                return Err(e);
            },
        }
        let prop_name = match self.expect_ident() {
            Ok(v) => v,
            Err(e) => {
                return Err(e);
            },
        };
        match self.expect(&Token::Equals) {
            Ok(_) => {},
            Err(e) => {
                return Err(e);
            },
        }
        let property = match property_from_bytes(&prop_name) {
            Some(p) => p,
            None => {
                return Err(self.error_at(at, named_message("unknown property ", &prop_name, " (expected fill or stroke)").as_str()));
            },
        };
        let value = match self.parse_value() {
            Ok(v) => v,
            Err(e) => {
                return Err(e);
            },
        };
        let target = bytes_to_string(&target_bytes);
        Ok(Statement::Assign { target, property, value })
    }

    fn parse_value(&mut self) -> (r: Result<Value, ParseError>)
        requires
            old(self).wf(),
        ensures
            final(self).wf(),
            final(self).tokens@ == old(self).tokens@,
            match p_value(old(self).kinds(), old(self).cursor as int) {
                Ok((v, j)) => r == Ok::<Value, ParseError>(v) && final(self).cursor == j,
                Err(e) => r matches Err(x) && 0 <= e < old(self).tokens@.len() && x.position()
                    == old(self).err_pos(e),
            },
    {
        proof {
            lemma_keywords();
        }
        let t = self.peek();
        let v = match t {
            Token::HexColor(c) => Value::Color(*c),
            Token::Ident(_) => {
                if ident_is(t, &KW_NONE) {
                    Value::Absent
                } else {
                    return Err(self.error_at(self.cursor, "expected color or `none`"));
                }
            },
            _ => {
                return Err(self.error_at(self.cursor, "expected color or `none`"));
            },
        };
        self.bump();
        Ok(v)
    }

    fn animate_item_start(&self) -> (k: AnimateItemStart)
        requires
            self.wf(),
        ensures
            ({
                let t = tok(self.kinds(), self.cursor as int);
                match k {
                    AnimateItemStart::Close => t is RBrace,
                    AnimateItemStart::Keyframe => t is TimeMs,
                    AnimateItemStart::Easing => t matches TokenV::Ident(n) && n == kw_easing(),
                    AnimateItemStart::Other => !(t is RBrace) && !(t is TimeMs) && !(t matches TokenV::Ident(n)
                        && n == kw_easing()),
                }
            }),
    {
        proof {
            lemma_keywords();
        }
        let t = self.peek();
        match t {
            Token::RBrace => AnimateItemStart::Close,
            Token::TimeMs(_) => AnimateItemStart::Keyframe,
            _ => {
                if ident_is(t, &KW_EASING) {
                    AnimateItemStart::Easing
                } else {
                    AnimateItemStart::Other
                }
            },
        }
    }

    fn parse_animate_after_keyword(&mut self) -> (r: Result<Animation, ParseError>)
        requires
            old(self).wf(),
        ensures
            final(self).wf(),
            final(self).tokens@ == old(self).tokens@,
            match p_animate(old(self).kinds(), old(self).cursor as int) {
                Ok((a, j)) => r matches Ok(x) && x@ == a && final(self).cursor == j,
                Err(e) => r matches Err(x) && 0 <= e < old(self).tokens@.len() && x.position()
                    == old(self).err_pos(e),
            },
    {
        let target_bytes = match self.expect_ident() {
            Ok(v) => v,
            Err(e) => {
                return Err(e);
            },
        };
        match self.expect(&Token::LBrace) {
            Ok(_) => {},
            Err(e) => {
                return Err(e);
            },
        }
        let ghost ts = self.kinds();
        let ghost i0 = self.cursor as int;
        let mut keyframes: Vec<Keyframe> = Vec::new();
        let mut easing = Easing::Linear;
        assert(keyframes_view(keyframes@) =~= Seq::<KeyframeV>::empty());
        loop
            invariant
                self.wf(),
                self.tokens@ == old(self).tokens@,
                ts == self.kinds(),
                p_animate(ts, old(self).cursor as int) == match p_animate_body(
                    ts,
                    self.cursor as int,
                    keyframes_view(keyframes@),
                    easing,
                ) {
                    Err(e) => Err(e),
                    Ok((k, e, j)) => Ok(
                        (AnimationV { target: ascii_chars(target_bytes@), keyframes: k, easing: e }, j),
                    ),
                },
            decreases ts.len() - self.cursor,
        {
            let ghost i = self.cursor as int;
            match self.animate_item_start() {
                AnimateItemStart::Close => {
                    self.bump();
                    let target = bytes_to_string(&target_bytes);
                    return Ok(Animation { target, keyframes, easing });
                },
                AnimateItemStart::Keyframe => {
                    let kf = match self.parse_keyframe() {
                        Ok(v) => v,
                        Err(e) => {
                            return Err(e);
                        },
                    };
                    proof {
                        lemma_p_keyframe_advances(ts, i);
                        assert(keyframes_view(keyframes@.push(kf)) =~= keyframes_view(
                            keyframes@,
                        ).push(kf@));
                    }
                    keyframes.push(kf);
                },
                AnimateItemStart::Easing => {
                    self.bump();
                    match self.expect(&Token::Colon) {
                        Ok(_) => {},
                        Err(e) => {
                            return Err(e);
                        },
                    }
                    let at = self.cursor;
                    let name = match self.expect_ident() {
                        Ok(v) => v,
                        Err(e) => {
                            return Err(e);
                        },
                    };
                    easing = match easing_from_bytes(&name) {
                        Some(e) => e,
                        None => {
                            return Err(self.error_at(at, named_message("unknown easing ", &name, "").as_str()));
                        },
                    };
                },
                AnimateItemStart::Other => {
                    return Err(self.error_at(self.cursor, "unexpected token in animate body"));
                },
            }
        }
    }

    fn parse_keyframe(&mut self) -> (r: Result<Keyframe, ParseError>)
        requires
            old(self).wf(),
        ensures
            final(self).wf(),
            final(self).tokens@ == old(self).tokens@,
            match p_keyframe(old(self).kinds(), old(self).cursor as int) {
                Ok((kf, j)) => r matches Ok(x) && x@ == kf && final(self).cursor == j,
                Err(e) => r matches Err(x) && 0 <= e < old(self).tokens@.len() && x.position()
                    == old(self).err_pos(e),
            },
    {
        let time_ms = match self.expect_time_ms() {
            Ok(v) => v,
            Err(e) => {
                return Err(e);
            },
        };
        match self.expect(&Token::Arrow) {
            Ok(_) => {},
            Err(e) => {
                return Err(e);
            },
        }
        let ghost ts = self.kinds();
        let first = match self.parse_transform() {
            Ok(v) => v,
            Err(e) => {
                return Err(e);
            },
        };
        let ghost i0 = self.cursor as int;
        let mut transforms: Vec<Transform> = Vec::new();
        transforms.push(first);
        assert(transforms@ =~= seq![first]);
        loop
            invariant
                self.wf(),
                self.tokens@ == old(self).tokens@,
                ts == self.kinds(),
                p_keyframe(ts, old(self).cursor as int) == match p_transform_tail(
                    ts,
                    self.cursor as int,
                    transforms@,
                ) {
                    Err(e) => Err(e),
                    Ok((tr, j)) => Ok((KeyframeV { time_ms, transforms: tr }, j)),
                },
            decreases ts.len() - self.cursor,
        {
            let is_comma = match self.peek() {
                Token::Comma => true,
                _ => false,
            };
            if !is_comma {
                return Ok(Keyframe { time_ms, transforms });
            }
            let ghost i = self.cursor as int;
            self.bump();
            let t = match self.parse_transform() {
                Ok(v) => v,
                Err(e) => {
                    return Err(e);
                },
            };
            proof {
                lemma_p_transform_advances(ts, i + 1);
            }
            transforms.push(t);
        }
    }

    fn parse_transform(&mut self) -> (r: Result<Transform, ParseError>)
        requires
            old(self).wf(),
        ensures
            final(self).wf(),
            final(self).tokens@ == old(self).tokens@,
            match p_transform(old(self).kinds(), old(self).cursor as int) {
                Ok((t, j)) => r == Ok::<Transform, ParseError>(t) && final(self).cursor == j,
                Err(e) => r matches Err(x) && 0 <= e < old(self).tokens@.len() && x.position()
                    == old(self).err_pos(e),
            },
    {
        proof {
            lemma_keywords();
        }
        let at = self.cursor;
        let (kind, nums) = match self.parse_call() {
            Ok(v) => v,
            Err(e) => {
                return Err(e);
            },
        };
        if crate::ast::bytes_equal(kind.as_slice(), &KW_POSITION) {
            if nums.len() != 2 {
                return Err(self.error_at(at, crate::lexer::counted_message("position() takes (x, y), got ", nums.len(), " args").as_str()));
            }
            Ok(Transform::Position(nums[0], nums[1]))
        } else if crate::ast::bytes_equal(kind.as_slice(), &KW_SCALE) {
            if nums.len() != 1 {
                return Err(self.error_at(at, crate::lexer::counted_message("scale() takes 1 arg, got ", nums.len(), "").as_str()));
            }
            Ok(Transform::Scale(nums[0]))
        } else if crate::ast::bytes_equal(kind.as_slice(), &KW_OPACITY) {
            if nums.len() != 1 {
                return Err(self.error_at(at, crate::lexer::counted_message("opacity() takes 1 arg, got ", nums.len(), "").as_str()));
            }
            Ok(Transform::Opacity(nums[0]))
        } else {
            Err(self.error_at(at, named_message("unknown transform ", &kind, " (expected position/scale/opacity)").as_str()))
        }
    }
}

/// The property that an identifier names.
fn property_from_bytes(b: &Vec<u8>) -> (r: Option<Property>)
    ensures
        r == property_from_name(ascii_chars(b@)),
{
    let fill: [u8; 4] = [102, 105, 108, 108];
    let stroke: [u8; 6] = [115, 116, 114, 111, 107, 101];
    proof {
        lemma_ascii_word_eq(b@, crate::ast::property_name(Property::Fill));
        lemma_ascii_word_eq(b@, crate::ast::property_name(Property::Stroke));
        assert(fill@ =~= ascii_bytes(crate::ast::property_name(Property::Fill)));
        assert(stroke@ =~= ascii_bytes(crate::ast::property_name(Property::Stroke)));
    }
    if crate::ast::bytes_equal(b.as_slice(), &fill) {
        Some(Property::Fill)
    } else if crate::ast::bytes_equal(b.as_slice(), &stroke) {
        Some(Property::Stroke)
    } else {
        None
    }
}

/// The easing that an identifier names.
fn easing_from_bytes(b: &Vec<u8>) -> (r: Option<Easing>)
    ensures
        r == easing_from_name(ascii_chars(b@)),
{
    let linear: [u8; 6] = [108, 105, 110, 101, 97, 114];
    let ease_in: [u8; 7] = [101, 97, 115, 101, 45, 105, 110];
    let ease_out: [u8; 8] = [101, 97, 115, 101, 45, 111, 117, 116];
    let ease_in_out: [u8; 11] = [101, 97, 115, 101, 45, 105, 110, 45, 111, 117, 116];
    proof {
        lemma_ascii_word_eq(b@, crate::ast::easing_name(Easing::Linear));
        lemma_ascii_word_eq(b@, crate::ast::easing_name(Easing::EaseIn));
        lemma_ascii_word_eq(b@, crate::ast::easing_name(Easing::EaseOut));
        lemma_ascii_word_eq(b@, crate::ast::easing_name(Easing::EaseInOut));
        assert(linear@ =~= ascii_bytes(crate::ast::easing_name(Easing::Linear)));
        assert(ease_in@ =~= ascii_bytes(crate::ast::easing_name(Easing::EaseIn)));
        assert(ease_out@ =~= ascii_bytes(crate::ast::easing_name(Easing::EaseOut)));
        assert(ease_in_out@ =~= ascii_bytes(crate::ast::easing_name(Easing::EaseInOut)));
    }
    if crate::ast::bytes_equal(b.as_slice(), &linear) {
        Some(Easing::Linear)
    } else if crate::ast::bytes_equal(b.as_slice(), &ease_in) {
        Some(Easing::EaseIn)
    } else if crate::ast::bytes_equal(b.as_slice(), &ease_out) {
        Some(Easing::EaseOut)
    } else if crate::ast::bytes_equal(b.as_slice(), &ease_in_out) {
        Some(Easing::EaseInOut)
    } else {
        None
    }
}

/// Bytes spell an ASCII word exactly when the characters they stand for are the word.
proof fn lemma_ascii_word_eq(b: Seq<u8>, w: Seq<char>)
    requires
        vstd::utf8::is_ascii_chars(w),
    ensures
        (ascii_chars(b) == w) <==> (b == ascii_bytes(w)),
{
    if ascii_chars(b) == w {
        assert(b =~= ascii_bytes(w));
    }
    if b == ascii_bytes(w) {
        vstd::utf8::is_ascii_chars_nat_bound(w);
        assert forall|i: int| 0 <= i < w.len() implies ascii_chars(b)[i] == w[i] by {
            assert(b[i] == w[i] as u8);
            assert((w[i] as nat) < 128);
        }
        assert(ascii_chars(b) =~= w);
    }
}

/// Parse `.vac` source text into a [`Document`].
pub fn parse(src: &str) -> (r: Result<Document, ParseError>)
    requires
        src.spec_bytes().len() < usize::MAX,
    ensures
        match spec_parse(src.spec_bytes()) {
            Ok(d) => r matches Ok(x) && x@ == d,
            Err(p) => r matches Err(e) && e.position() == p,
        },
{
    let bytes = src.as_bytes();
    let tokens = match tokenize(bytes) {
        Ok(v) => v,
        Err(e) => {
            return Err(e);
        },
    };
    let ghost s = bytes@;
    proof {
        lemma_lex_from_well_formed(s, 0);
    }
    let mut parser = Parser::new(tokens);
    proof {
        let ts = lex_from(s, 0)->Ok_0;
        assert(parser.kinds() =~= token_kinds(ts));
    }
    parser.parse_document()
}

} // verus!
