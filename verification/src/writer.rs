//! AST → `.vac` text.
//!
//! Format conventions:
//! - 2-space indentation inside `scene` and `animate` blocks.
//! - Numbers: integers print bare (`100`), others with up to 4 decimals,
//!   trailing zeros trimmed (`1.4`, not `1.4000`).
//! - Colors: `#rrggbb` when alpha is 0xFF, otherwise `#rrggbbaa`.
//! - Times: `0ms`; multiples of 1000 with the `s` suffix (`3000` → `3s`);
//!   otherwise milliseconds with the `ms` suffix.
//!
//! The specification describes the output as a sequence of [`Chunk`]s:
//! words, literals of each kind, punctuation and whitespace.
use vstd::prelude::*;
use crate::ast::{
    easing_name, property_name, Animation, AnimationV, Canvas, Color, Document, DocumentV, Keyframe, KeyframeV, Number, Scene, SceneV, Shape, Statement, StatementV, Transform,
    Value,
};

verus! {

pub enum Chunk {
    /// An identifier or keyword.
    Word(Seq<char>),
    Num(Number),
    Time(u32),
    Fps(u32),
    Dim(u32, u32),
    Hex(Color),
    Punct(char),
    Arrow,
    Space(Seq<char>),
}

pub open spec fn digit_char(d: nat) -> char {
    (d + 48) as char
}

/// Decimal digits of `n`, most significant first.
pub open spec fn decimal(n: nat) -> Seq<char>
    decreases n,
{
    if n < 10 {
        seq![digit_char(n)]
    } else {
        decimal(n / 10) + seq![digit_char(n % 10)]
    }
}

/// Drops trailing `'0'` characters.
pub open spec fn trim_zeros(s: Seq<char>) -> Seq<char>
    decreases s.len(),
{
    if s.len() > 0 && s.last() == '0' {
        trim_zeros(s.drop_last())
    } else {
        s
    }
}

/// The four digits of `f < 10000`, with leading zeros.
pub open spec fn four_digits(f: nat) -> Seq<char> {
    seq![
        digit_char(f / 1000),
        digit_char((f / 100) % 10),
        digit_char((f / 10) % 10),
        digit_char(f % 10),
    ]
}

pub open spec fn unsigned_number_text(u: nat) -> Seq<char> {
    if u % 10000 == 0 {
        decimal(u / 10000)
    } else {
        decimal(u / 10000) + seq!['.'] + trim_zeros(four_digits(u % 10000))
    }
}

pub open spec fn number_text(n: Number) -> Seq<char> {
    let u = n.ten_thousandths as int;
    if u < 0 {
        seq!['-'] + unsigned_number_text((-u) as nat)
    } else {
        unsigned_number_text(u as nat)
    }
}

pub open spec fn time_text(ms: u32) -> Seq<char> {
    if ms == 0 {
        seq!['0', 'm', 's']
    } else if ms % 1000 == 0 {
        decimal((ms / 1000) as nat) + seq!['s']
    } else {
        decimal(ms as nat) + seq!['m', 's']
    }
}

pub open spec fn hex_char(d: nat) -> char {
    if d < 10 {
        (d + 48) as char
    } else {
        (d + 87) as char
    }
}

pub open spec fn hex2(b: u8) -> Seq<char> {
    seq![hex_char((b / 16) as nat), hex_char((b % 16) as nat)]
}

pub open spec fn color_text(c: Color) -> Seq<char> {
    seq!['#'] + hex2(c.r) + hex2(c.g) + hex2(c.b) + if c.a == 0xFF {
        Seq::empty()
    } else {
        hex2(c.a)
    }
}

pub open spec fn chunk_text(c: Chunk) -> Seq<char> {
    match c {
        Chunk::Word(w) => w,
        Chunk::Num(n) => number_text(n),
        Chunk::Time(ms) => time_text(ms),
        Chunk::Fps(f) => decimal(f as nat) + seq!['f', 'p', 's'],
        Chunk::Dim(w, h) => decimal(w as nat) + seq!['x'] + decimal(h as nat),
        Chunk::Hex(c) => color_text(c),
        Chunk::Punct(c) => seq![c],
        Chunk::Arrow => seq!['-', '>'],
        Chunk::Space(s) => s,
    }
}

pub open spec fn chunks_text(cs: Seq<Chunk>) -> Seq<char>
    decreases cs.len(),
{
    if cs.len() == 0 {
        Seq::empty()
    } else {
        chunks_text(cs.drop_last()) + chunk_text(cs.last())
    }
}

// --------------------------------------------------------------------
// The chunks of a document
// --------------------------------------------------------------------

pub open spec fn sp() -> Chunk {
    Chunk::Space(seq![' '])
}

pub open spec fn nl() -> Chunk {
    Chunk::Space(seq!['\n'])
}

pub open spec fn pad(indent: nat) -> Chunk {
    if indent == 1 {
        Chunk::Space(seq![' ', ' '])
    } else {
        Chunk::Space(seq![' ', ' ', ' ', ' '])
    }
}

pub open spec fn w_canvas() -> Seq<char> {
    seq!['c', 'a', 'n', 'v', 'a', 's']
}

pub open spec fn w_scene() -> Seq<char> {
    seq!['s', 'c', 'e', 'n', 'e']
}

pub open spec fn w_duration() -> Seq<char> {
    seq!['d', 'u', 'r', 'a', 't', 'i', 'o', 'n']
}

pub open spec fn w_let() -> Seq<char> {
    seq!['l', 'e', 't']
}

pub open spec fn w_animate() -> Seq<char> {
    seq!['a', 'n', 'i', 'm', 'a', 't', 'e']
}

pub open spec fn w_easing() -> Seq<char> {
    seq!['e', 'a', 's', 'i', 'n', 'g']
}

pub open spec fn w_rect() -> Seq<char> {
    seq!['r', 'e', 'c', 't']
}

pub open spec fn w_ellipse() -> Seq<char> {
    seq!['e', 'l', 'l', 'i', 'p', 's', 'e']
}

pub open spec fn w_position() -> Seq<char> {
    seq!['p', 'o', 's', 'i', 't', 'i', 'o', 'n']
}

pub open spec fn w_scale() -> Seq<char> {
    seq!['s', 'c', 'a', 'l', 'e']
}

pub open spec fn w_opacity() -> Seq<char> {
    seq!['o', 'p', 'a', 'c', 'i', 't', 'y']
}

pub open spec fn w_none() -> Seq<char> {
    seq!['n', 'o', 'n', 'e']
}

pub open spec fn canvas_chunks(c: Canvas) -> Seq<Chunk> {
    seq![
        Chunk::Word(w_canvas()),
        sp(),
        Chunk::Dim(c.width, c.height),
        sp(),
        Chunk::Punct('@'),
        Chunk::Fps(c.fps),
        nl(),
    ]
}

/// `(a, b, c, d)` argument list.
pub open spec fn args_chunks(ns: Seq<Number>) -> Seq<Chunk>
    decreases ns.len(),
{
    if ns.len() == 0 {
        Seq::empty()
    } else if ns.len() == 1 {
        seq![Chunk::Num(ns[0])]
    } else {
        args_chunks(ns.drop_last()) + seq![Chunk::Punct(','), sp(), Chunk::Num(ns.last())]
    }
}

pub open spec fn call_chunks(name: Seq<char>, ns: Seq<Number>) -> Seq<Chunk> {
    seq![Chunk::Word(name), Chunk::Punct('(')] + args_chunks(ns) + seq![Chunk::Punct(')')]
}

pub open spec fn shape_chunks(s: Shape) -> Seq<Chunk> {
    match s {
        Shape::Rect { x, y, w, h } => call_chunks(w_rect(), seq![x, y, w, h]),
        Shape::Ellipse { cx, cy, rx, ry } => call_chunks(w_ellipse(), seq![cx, cy, rx, ry]),
    }
}

pub open spec fn value_chunks(v: Value) -> Seq<Chunk> {
    match v {
        Value::Color(c) => seq![Chunk::Hex(c)],
        Value::Absent => seq![Chunk::Word(w_none())],
    }
}

pub open spec fn transform_chunks(t: Transform) -> Seq<Chunk> {
    match t {
        Transform::Position(x, y) => call_chunks(w_position(), seq![x, y]),
        Transform::Scale(s) => call_chunks(w_scale(), seq![s]),
        Transform::Opacity(o) => call_chunks(w_opacity(), seq![o]),
    }
}

/// Transforms joined by `", "`.
pub open spec fn transforms_chunks(ts: Seq<Transform>) -> Seq<Chunk>
    decreases ts.len(),
{
    if ts.len() == 0 {
        Seq::empty()
    } else if ts.len() == 1 {
        transform_chunks(ts[0])
    } else {
        transforms_chunks(ts.drop_last()) + seq![Chunk::Punct(','), sp()] + transform_chunks(
            ts.last(),
        )
    }
}

pub open spec fn keyframe_chunks(k: KeyframeV) -> Seq<Chunk> {
    seq![pad(2), Chunk::Time(k.time_ms), sp(), Chunk::Arrow, sp()] + transforms_chunks(
        k.transforms,
    ) + seq![nl()]
}

pub open spec fn keyframes_chunks(ks: Seq<KeyframeV>) -> Seq<Chunk>
    decreases ks.len(),
{
    if ks.len() == 0 {
        Seq::empty()
    } else {
        keyframes_chunks(ks.drop_last()) + keyframe_chunks(ks.last())
    }
}

pub open spec fn animation_chunks(a: AnimationV) -> Seq<Chunk> {
    seq![pad(1), Chunk::Word(w_animate()), sp(), Chunk::Word(a.target), sp(), Chunk::Punct('{'), nl()]
        + keyframes_chunks(a.keyframes) + seq![
        pad(2),
        Chunk::Word(w_easing()),
        Chunk::Punct(':'),
        sp(),
        Chunk::Word(easing_name(a.easing)),
        nl(),
        pad(1),
        Chunk::Punct('}'),
        nl(),
    ]
}

pub open spec fn statement_chunks(s: StatementV) -> Seq<Chunk> {
    match s {
        StatementV::Let { name, shape } => seq![
            pad(1),
            Chunk::Word(w_let()),
            sp(),
            Chunk::Word(name),
            sp(),
            Chunk::Punct('='),
            sp(),
        ] + shape_chunks(shape) + seq![nl()],
        StatementV::Assign { target, property, value } => seq![
            pad(1),
            Chunk::Word(target),
            Chunk::Punct('.'),
            Chunk::Word(property_name(property)),
            sp(),
            Chunk::Punct('='),
            sp(),
        ] + value_chunks(value) + seq![nl()],
        StatementV::Animate(a) => animation_chunks(a),
    }
}

/// A blank line goes between groups of unrelated statements: before the
/// first one, between an assignment and the next `let` or `animate`,
/// between a `let` and an `animate`, and after an `animate`.
pub open spec fn needs_blank_line(prev: Option<StatementV>, next: StatementV) -> bool {
    match prev {
        None => true,
        Some(p) => match (p, next) {
            (StatementV::Assign { .. }, StatementV::Let { .. }) => true,
            (StatementV::Assign { .. }, StatementV::Animate(_)) => true,
            (StatementV::Let { .. }, StatementV::Animate(_)) => true,
            (StatementV::Animate(_), _) => true,
            _ => false,
        },
    }
}

pub open spec fn statements_chunks(ss: Seq<StatementV>) -> Seq<Chunk>
    decreases ss.len(),
{
    if ss.len() == 0 {
        Seq::empty()
    } else {
        let prev = if ss.len() >= 2 {
            Some(ss[ss.len() - 2])
        } else {
            None
        };
        statements_chunks(ss.drop_last()) + (if needs_blank_line(prev, ss.last()) {
            seq![nl()]
        } else {
            Seq::empty()
        }) + statement_chunks(ss.last())
    }
}

pub open spec fn scene_chunks(s: SceneV) -> Seq<Chunk> {
    seq![
        Chunk::Word(w_scene()),
        sp(),
        Chunk::Word(s.name),
        sp(),
        Chunk::Punct('{'),
        nl(),
        pad(1),
        Chunk::Word(w_duration()),
        sp(),
        Chunk::Time(s.duration_ms),
        nl(),
    ] + statements_chunks(s.statements) + seq![Chunk::Punct('}'), nl()]
}

/// Scenes, each preceded by a blank line.
pub open spec fn scenes_chunks(ss: Seq<SceneV>) -> Seq<Chunk>
    decreases ss.len(),
{
    if ss.len() == 0 {
        Seq::empty()
    } else {
        scenes_chunks(ss.drop_last()) + seq![nl()] + scene_chunks(ss.last())
    }
}

pub open spec fn document_chunks(d: DocumentV) -> Seq<Chunk> {
    canvas_chunks(d.canvas) + scenes_chunks(d.scenes)
}

/// The text that [`write`] produces for a document.
pub open spec fn spec_write(d: DocumentV) -> Seq<char> {
    chunks_text(document_chunks(d))
}

pub proof fn lemma_chunks_text_append(a: Seq<Chunk>, b: Seq<Chunk>)
    ensures
        chunks_text(a + b) == chunks_text(a) + chunks_text(b),
    decreases b.len(),
{
    if b.len() == 0 {
        assert(a + b =~= a);
        assert(chunks_text(b) =~= Seq::<char>::empty());
        assert(chunks_text(a) + chunks_text(b) =~= chunks_text(a));
    } else {
        assert((a + b).drop_last() =~= a + b.drop_last());
        lemma_chunks_text_append(a, b.drop_last());
        assert(chunks_text(a + b) =~= chunks_text(a) + chunks_text(b));
    }
}

pub proof fn lemma_chunks_text_push(a: Seq<Chunk>, c: Chunk)
    ensures
        chunks_text(a.push(c)) == chunks_text(a) + chunk_text(c),
{
    assert(a.push(c).drop_last() =~= a);
}

// --------------------------------------------------------------------
// Executable writer
// --------------------------------------------------------------------

/// Appends the text of chunk `c`, given as `s`.
fn emit_text(out: &mut String, s: &str, Ghost(cs): Ghost<Seq<Chunk>>, Ghost(c): Ghost<Chunk>)
    requires
        old(out)@ == chunks_text(cs),
        chunk_text(c) == s@,
    ensures
        final(out)@ == chunks_text(cs.push(c)),
{
    out.append(s);
    proof {
        lemma_chunks_text_push(cs, c);
    }
}

fn emit_char(out: &mut String, ch: char, Ghost(cs): Ghost<Seq<Chunk>>, Ghost(c): Ghost<Chunk>)
    requires
        old(out)@ == chunks_text(cs),
        chunk_text(c) == seq![ch],
    ensures
        final(out)@ == chunks_text(cs.push(c)),
{
    crate::ast::string_push(out, ch);
    proof {
        lemma_chunks_text_push(cs, c);
        assert(old(out)@.push(ch) =~= chunks_text(cs) + seq![ch]);
    }
}

fn push_digit(out: &mut String, d: u64)
    requires
        d < 10,
    ensures
        final(out)@ == old(out)@.push(digit_char(d as nat)),
{
    crate::ast::string_push(out, (d as u8 + 48) as char);
}

/// Appends `decimal(n)`.
pub(crate) fn push_decimal(out: &mut String, n: u64)
    ensures
        final(out)@ == old(out)@ + decimal(n as nat),
    decreases n,
{
    if n >= 10 {
        push_decimal(out, n / 10);
    }
    push_digit(out, n % 10);
    proof {
        if n >= 10 {
            assert(final(out)@ =~= old(out)@ + decimal(n as nat));
        } else {
            assert(final(out)@ =~= old(out)@ + decimal(n as nat));
        }
    }
}

/// Appends `decimal(n)`, for wide integers.
pub(crate) fn push_decimal_wide(out: &mut String, n: u128)
    ensures
        final(out)@ == old(out)@ + decimal(n as nat),
    decreases n,
{
    if n >= 10 {
        push_decimal_wide(out, n / 10);
    }
    push_digit(out, (n % 10) as u64);
    proof {
        assert(final(out)@ =~= old(out)@ + decimal(n as nat));
    }
}

fn push_hex(out: &mut String, d: u8)
    requires
        d < 16,
    ensures
        final(out)@ == old(out)@.push(hex_char(d as nat)),
{
    if d < 10 {
        crate::ast::string_push(out, (d + 48) as char);
    } else {
        crate::ast::string_push(out, (d + 87) as char);
    }
}

fn push_hex2(out: &mut String, b: u8)
    ensures
        final(out)@ == old(out)@ + hex2(b),
{
    push_hex(out, b / 16);
    push_hex(out, b % 16);
    assert(final(out)@ =~= old(out)@ + hex2(b));
}

pub proof fn lemma_digits_decompose(f: nat)
    requires
        f < 10000,
    ensures
        f == 1000 * (f / 1000) + 100 * ((f / 100) % 10) + 10 * ((f / 10) % 10) + f % 10,
        f / 1000 < 10,
{
    assert(f == 10 * (f / 10) + f % 10);
    assert(f / 10 == 10 * (f / 100) + (f / 10) % 10);
    assert(f / 100 == 10 * (f / 1000) + (f / 100) % 10);
}

pub proof fn lemma_four_digits_trim(f: nat)
    requires
        0 < f < 10000,
    ensures
        (f % 10 != 0) ==> trim_zeros(four_digits(f)) == four_digits(f),
        (f % 10 == 0 && (f / 10) % 10 != 0) ==> trim_zeros(four_digits(f)) == four_digits(f).take(3),
        (f % 10 == 0 && (f / 10) % 10 == 0 && (f / 100) % 10 != 0) ==> trim_zeros(four_digits(f))
            == four_digits(f).take(2),
        (f % 10 == 0 && (f / 10) % 10 == 0 && (f / 100) % 10 == 0) ==> trim_zeros(four_digits(f))
            == four_digits(f).take(1),
{
    let s = four_digits(f);
    let d0 = f / 1000;
    let d1 = (f / 100) % 10;
    let d2 = (f / 10) % 10;
    let d3 = f % 10;
    lemma_digits_decompose(f);
    assert(s.drop_last() =~= s.take(3));
    assert(s.take(3).drop_last() =~= s.take(2));
    assert(s.take(2).drop_last() =~= s.take(1));
    assert(s.last() == digit_char(d3));
    assert(s.take(3).last() == digit_char(d2));
    assert(s.take(2).last() == digit_char(d1));
    assert(s.take(1).last() == digit_char(d0));
    assert(digit_char(0) == '0');
    if d3 != 0 {
        assert(digit_char(d3) != '0');
    } else {
        assert(trim_zeros(s) == trim_zeros(s.take(3)));
        if d2 != 0 {
            assert(digit_char(d2) != '0');
        } else {
            assert(trim_zeros(s.take(3)) == trim_zeros(s.take(2)));
            if d1 != 0 {
                assert(digit_char(d1) != '0');
            } else {
                assert(trim_zeros(s.take(2)) == trim_zeros(s.take(1)));
                assert(d0 != 0);
                assert(digit_char(d0) != '0');
            }
        }
    }
}

fn push_fraction(out: &mut String, f: u64)
    requires
        0 < f < 10000,
    ensures
        final(out)@ == old(out)@ + trim_zeros(four_digits(f as nat)),
{
    let ghost start = out@;
    push_digit(out, f / 1000);
    if f % 10 != 0 || (f / 10) % 10 != 0 || (f / 100) % 10 != 0 {
        push_digit(out, (f / 100) % 10);
        if f % 10 != 0 || (f / 10) % 10 != 0 {
            push_digit(out, (f / 10) % 10);
            if f % 10 != 0 {
                push_digit(out, f % 10);
            }
        }
    }
    proof {
        lemma_four_digits_trim(f as nat);
        lemma_digits_decompose(f as nat);
        assert(out@ =~= start + trim_zeros(four_digits(f as nat)));
    }
}

fn push_unsigned_number(out: &mut String, u: u64)
    ensures
        final(out)@ == old(out)@ + unsigned_number_text(u as nat),
{
    let ghost start = out@;
    push_decimal(out, u / 10000);
    let f = u % 10000;
    if f != 0 {
        crate::ast::string_push(out, '.');
        push_fraction(out, f);
    }
    assert(out@ =~= start + unsigned_number_text(u as nat));
}

fn emit_number(out: &mut String, n: Number, Ghost(cs): Ghost<Seq<Chunk>>)
    requires
        old(out)@ == chunks_text(cs),
    ensures
        final(out)@ == chunks_text(cs.push(Chunk::Num(n))),
{
    let ghost start = out@;
    let u = n.ten_thousandths;
    if u < 0 {
        crate::ast::string_push(out, '-');
        let abs: u64 = (0i128 - u as i128) as u64;
        push_unsigned_number(out, abs);
    } else {
        push_unsigned_number(out, u as u64);
    }
    proof {
        assert(out@ =~= start + number_text(n));
        lemma_chunks_text_push(cs, Chunk::Num(n));
    }
}

fn emit_time(out: &mut String, ms: u32, Ghost(cs): Ghost<Seq<Chunk>>)
    requires
        old(out)@ == chunks_text(cs),
    ensures
        final(out)@ == chunks_text(cs.push(Chunk::Time(ms))),
{
    let ghost start = out@;
    if ms == 0 {
        crate::ast::string_push(out, '0');
        crate::ast::string_push(out, 'm');
        crate::ast::string_push(out, 's');
    } else if ms % 1000 == 0 {
        push_decimal(out, (ms / 1000) as u64);
        crate::ast::string_push(out, 's');
    } else {
        push_decimal(out, ms as u64);
        crate::ast::string_push(out, 'm');
        crate::ast::string_push(out, 's');
    }
    proof {
        assert(out@ =~= start + time_text(ms));
        lemma_chunks_text_push(cs, Chunk::Time(ms));
    }
}

fn emit_color(out: &mut String, c: Color, Ghost(cs): Ghost<Seq<Chunk>>)
    requires
        old(out)@ == chunks_text(cs),
    ensures
        final(out)@ == chunks_text(cs.push(Chunk::Hex(c))),
{
    let ghost start = out@;
    crate::ast::string_push(out, '#');
    push_hex2(out, c.r);
    push_hex2(out, c.g);
    push_hex2(out, c.b);
    if c.a != 0xFF {
        push_hex2(out, c.a);
    }
    proof {
        assert(out@ =~= start + color_text(c));
        lemma_chunks_text_push(cs, Chunk::Hex(c));
    }
}

/// The text of a number: whole numbers without decimals, others with up
/// to four decimals and no trailing zeros.
pub fn fmt_value(n: Number) -> (s: String)
    ensures
        s@ == number_text(n),
{
    let mut s = String::new();
    let ghost empty = Seq::<Chunk>::empty();
    assert(chunks_text(empty) =~= s@);
    emit_number(&mut s, n, Ghost(empty));
    assert(chunks_text(empty.push(Chunk::Num(n))) =~= number_text(n)) by {
        assert(empty.push(Chunk::Num(n)).drop_last() =~= empty);
    }
    s
}

/// The text of a time: `0ms`, whole seconds as `<n>s`, else `<n>ms`.
pub fn fmt_time(ms: u32) -> (s: String)
    ensures
        s@ == time_text(ms),
{
    let mut s = String::new();
    let ghost empty = Seq::<Chunk>::empty();
    assert(chunks_text(empty) =~= s@);
    emit_time(&mut s, ms, Ghost(empty));
    assert(chunks_text(empty.push(Chunk::Time(ms))) =~= time_text(ms)) by {
        assert(empty.push(Chunk::Time(ms)).drop_last() =~= empty);
    }
    s
}

/// The text of a colour: `#rrggbb`, with `aa` appended unless opaque.
pub fn fmt_color(c: Color) -> (s: String)
    ensures
        s@ == color_text(c),
{
    let mut s = String::new();
    let ghost empty = Seq::<Chunk>::empty();
    assert(chunks_text(empty) =~= s@);
    emit_color(&mut s, c, Ghost(empty));
    assert(chunks_text(empty.push(Chunk::Hex(c))) =~= color_text(c)) by {
        assert(empty.push(Chunk::Hex(c)).drop_last() =~= empty);
    }
    s
}

fn write_canvas(out: &mut String, c: &Canvas, Ghost(cs): Ghost<Seq<Chunk>>)
    requires
        old(out)@ == chunks_text(cs),
    ensures
        final(out)@ == chunks_text(cs + canvas_chunks(*c)),
{
    let ghost mut acc = cs;
    proof {
        reveal_strlit("canvas");
        reveal_strlit(" ");
    }
    proof {
        reveal_strlit("canvas");
        assert(chunk_text(Chunk::Word(w_canvas())) =~= "canvas"@);
    }
    emit_text(out, "canvas", Ghost(acc), Ghost(Chunk::Word(w_canvas())));
    proof { acc = acc.push(Chunk::Word(w_canvas())); }
    emit_char(out, ' ', Ghost(acc), Ghost(sp()));
    proof { acc = acc.push(sp()); }
    let ghost before = out@;
    push_decimal(out, c.width as u64);
    crate::ast::string_push(out, 'x');
    push_decimal(out, c.height as u64);
    proof {
        assert(out@ =~= before + chunk_text(Chunk::Dim(c.width, c.height)));
        lemma_chunks_text_push(acc, Chunk::Dim(c.width, c.height));
        acc = acc.push(Chunk::Dim(c.width, c.height));
    }
    emit_char(out, ' ', Ghost(acc), Ghost(sp()));
    proof { acc = acc.push(sp()); }
    emit_char(out, '@', Ghost(acc), Ghost(Chunk::Punct('@')));
    proof { acc = acc.push(Chunk::Punct('@')); }
    let ghost before = out@;
    push_decimal(out, c.fps as u64);
    crate::ast::string_push(out, 'f');
    crate::ast::string_push(out, 'p');
    crate::ast::string_push(out, 's');
    proof {
        assert(out@ =~= before + chunk_text(Chunk::Fps(c.fps)));
        lemma_chunks_text_push(acc, Chunk::Fps(c.fps));
        acc = acc.push(Chunk::Fps(c.fps));
    }
    emit_char(out, '\n', Ghost(acc), Ghost(nl()));
    proof {
        acc = acc.push(nl());
        assert(acc =~= cs + canvas_chunks(*c));
    }
}

/// Appends `(a, b, ...)` of `ns[..k]`-style argument lists.
fn write_args(out: &mut String, ns: &Vec<Number>, Ghost(cs): Ghost<Seq<Chunk>>)
    requires
        old(out)@ == chunks_text(cs),
    ensures
        final(out)@ == chunks_text(cs + args_chunks(ns@)),
{
    let mut i: usize = 0;
    assert(args_chunks(ns@.take(0)) =~= Seq::<Chunk>::empty());
    assert(cs + Seq::<Chunk>::empty() =~= cs);
    while i < ns.len()
        invariant
            0 <= i <= ns@.len(),
            out@ == chunks_text(cs + args_chunks(ns@.take(i as int))),
        decreases ns@.len() - i,
    {
        let ghost acc = cs + args_chunks(ns@.take(i as int));
        let ghost acc2 = acc;
        if i > 0 {
            emit_char(out, ',', Ghost(acc), Ghost(Chunk::Punct(',')));
            emit_char(out, ' ', Ghost(acc.push(Chunk::Punct(','))), Ghost(sp()));
            proof {
                acc2 = acc.push(Chunk::Punct(',')).push(sp());
            }
        }
        emit_number(out, ns[i], Ghost(acc2));
        proof {
            let t = ns@.take(i + 1);
            assert(t.drop_last() =~= ns@.take(i as int));
            if i > 0 {
                assert(acc2.push(Chunk::Num(ns@[i as int])) =~= cs + args_chunks(t));
            } else {
                assert(acc2.push(Chunk::Num(ns@[i as int])) =~= cs + args_chunks(t));
            }
        }
        i = i + 1;
    }
    assert(ns@.take(ns@.len() as int) =~= ns@);
}

fn write_call(out: &mut String, name: &str, ns: &Vec<Number>, Ghost(cs): Ghost<Seq<Chunk>>)
    requires
        old(out)@ == chunks_text(cs),
    ensures
        final(out)@ == chunks_text(cs + call_chunks(name@, ns@)),
{
    emit_text(out, name, Ghost(cs), Ghost(Chunk::Word(name@)));
    let ghost a1 = cs.push(Chunk::Word(name@));
    emit_char(out, '(', Ghost(a1), Ghost(Chunk::Punct('(')));
    let ghost a2 = a1.push(Chunk::Punct('('));
    write_args(out, ns, Ghost(a2));
    let ghost a3 = a2 + args_chunks(ns@);
    emit_char(out, ')', Ghost(a3), Ghost(Chunk::Punct(')')));
    proof {
        assert(a3.push(Chunk::Punct(')')) =~= cs + call_chunks(name@, ns@));
    }
}

fn write_shape(out: &mut String, s: &Shape, Ghost(cs): Ghost<Seq<Chunk>>)
    requires
        old(out)@ == chunks_text(cs),
    ensures
        final(out)@ == chunks_text(cs + shape_chunks(*s)),
{
    match s {
        Shape::Rect { x, y, w, h } => {
            let ns = vec![*x, *y, *w, *h];
            proof {
                reveal_strlit("rect");
                assert("rect"@ =~= w_rect());
                assert(ns@ =~= seq![*x, *y, *w, *h]);
            }
            write_call(out, "rect", &ns, Ghost(cs));
        },
        Shape::Ellipse { cx, cy, rx, ry } => {
            let ns = vec![*cx, *cy, *rx, *ry];
            proof {
                reveal_strlit("ellipse");
                assert("ellipse"@ =~= w_ellipse());
                assert(ns@ =~= seq![*cx, *cy, *rx, *ry]);
            }
            write_call(out, "ellipse", &ns, Ghost(cs));
        },
    }
}

fn write_transform(out: &mut String, t: &Transform, Ghost(cs): Ghost<Seq<Chunk>>)
    requires
        old(out)@ == chunks_text(cs),
    ensures
        final(out)@ == chunks_text(cs + transform_chunks(*t)),
{
    match t {
        Transform::Position(x, y) => {
            let ns = vec![*x, *y];
            proof {
                reveal_strlit("position");
                assert("position"@ =~= w_position());
                assert(ns@ =~= seq![*x, *y]);
            }
            write_call(out, "position", &ns, Ghost(cs));
        },
        Transform::Scale(v) => {
            let ns = vec![*v];
            proof {
                reveal_strlit("scale");
                assert("scale"@ =~= w_scale());
                assert(ns@ =~= seq![*v]);
            }
            write_call(out, "scale", &ns, Ghost(cs));
        },
        Transform::Opacity(v) => {
            let ns = vec![*v];
            proof {
                reveal_strlit("opacity");
                assert("opacity"@ =~= w_opacity());
                assert(ns@ =~= seq![*v]);
            }
            write_call(out, "opacity", &ns, Ghost(cs));
        },
    }
}

fn write_keyframe(out: &mut String, k: &Keyframe, Ghost(cs): Ghost<Seq<Chunk>>)
    requires
        old(out)@ == chunks_text(cs),
    ensures
        final(out)@ == chunks_text(cs + keyframe_chunks(k@)),
{
    proof {
        reveal_strlit("    ");
        reveal_strlit(" -> ");
    }
    proof {
        reveal_strlit("    ");
        assert(chunk_text(pad(2)) =~= "    "@);
    }
    emit_text(out, "    ", Ghost(cs), Ghost(pad(2)));
    let ghost a1 = cs.push(pad(2));
    emit_time(out, k.time_ms, Ghost(a1));
    let ghost a2 = a1.push(Chunk::Time(k.time_ms));
    emit_char(out, ' ', Ghost(a2), Ghost(sp()));
    let ghost a3 = a2.push(sp());
    proof {
        reveal_strlit("->");
        assert(chunk_text(Chunk::Arrow) =~= "->"@);
    }
    emit_text(out, "->", Ghost(a3), Ghost(Chunk::Arrow));
    let ghost a4 = a3.push(Chunk::Arrow);
    emit_char(out, ' ', Ghost(a4), Ghost(sp()));
    let ghost a5 = a4.push(sp());
    let mut i: usize = 0;
    assert(transforms_chunks(k.transforms@.take(0)) =~= Seq::<Chunk>::empty());
    assert(a5 + Seq::<Chunk>::empty() =~= a5);
    while i < k.transforms.len()
        invariant
            0 <= i <= k.transforms@.len(),
            out@ == chunks_text(a5 + transforms_chunks(k.transforms@.take(i as int))),
        decreases k.transforms@.len() - i,
    {
        let ghost acc = a5 + transforms_chunks(k.transforms@.take(i as int));
        let ghost acc2 = acc;
        if i > 0 {
            emit_char(out, ',', Ghost(acc), Ghost(Chunk::Punct(',')));
            emit_char(out, ' ', Ghost(acc.push(Chunk::Punct(','))), Ghost(sp()));
            proof {
                acc2 = acc.push(Chunk::Punct(',')).push(sp());
            }
        }
        write_transform(out, &k.transforms[i], Ghost(acc2));
        proof {
            let t = k.transforms@.take(i + 1);
            assert(t.drop_last() =~= k.transforms@.take(i as int));
            assert(acc2 + transform_chunks(k.transforms@[i as int]) =~= a5 + transforms_chunks(t));
        }
        i = i + 1;
    }
    assert(k.transforms@.take(k.transforms@.len() as int) =~= k.transforms@);
    let ghost a6 = a5 + transforms_chunks(k.transforms@);
    emit_char(out, '\n', Ghost(a6), Ghost(nl()));
    proof {
        assert(a6.push(nl()) =~= cs + keyframe_chunks(k@));
    }
}

fn write_animation(out: &mut String, a: &Animation, Ghost(cs): Ghost<Seq<Chunk>>)
    requires
        old(out)@ == chunks_text(cs),
    ensures
        final(out)@ == chunks_text(cs + animation_chunks(a@)),
{
    proof {
        reveal_strlit("  ");
        reveal_strlit("    ");
        reveal_strlit("animate");
        reveal_strlit("easing");
    }
    proof {
        reveal_strlit("  ");
        assert(chunk_text(pad(1)) =~= "  "@);
    }
    emit_text(out, "  ", Ghost(cs), Ghost(pad(1)));
    let ghost a1 = cs.push(pad(1));
    proof {
        reveal_strlit("animate");
        assert(chunk_text(Chunk::Word(w_animate())) =~= "animate"@);
    }
    emit_text(out, "animate", Ghost(a1), Ghost(Chunk::Word(w_animate())));
    let ghost a2 = a1.push(Chunk::Word(w_animate()));
    emit_char(out, ' ', Ghost(a2), Ghost(sp()));
    let ghost a3 = a2.push(sp());
    emit_text(out, a.target.as_str(), Ghost(a3), Ghost(Chunk::Word(a.target@)));
    let ghost a4 = a3.push(Chunk::Word(a.target@));
    emit_char(out, ' ', Ghost(a4), Ghost(sp()));
    let ghost a5 = a4.push(sp());
    emit_char(out, '{', Ghost(a5), Ghost(Chunk::Punct('{')));
    let ghost a6 = a5.push(Chunk::Punct('{'));
    emit_char(out, '\n', Ghost(a6), Ghost(nl()));
    let ghost a7 = a6.push(nl());
    let ghost kv = a@.keyframes;
    let mut i: usize = 0;
    assert(keyframes_chunks(kv.take(0)) =~= Seq::<Chunk>::empty());
    assert(a7 + Seq::<Chunk>::empty() =~= a7);
    while i < a.keyframes.len()
        invariant
            0 <= i <= kv.len(),
            kv == a@.keyframes,
            kv.len() == a.keyframes@.len(),
            out@ == chunks_text(a7 + keyframes_chunks(kv.take(i as int))),
        decreases kv.len() - i,
    {
        let ghost acc = a7 + keyframes_chunks(kv.take(i as int));
        write_keyframe(out, &a.keyframes[i], Ghost(acc));
        proof {
            let t = kv.take(i + 1);
            assert(t.drop_last() =~= kv.take(i as int));
            assert(t.last() == a.keyframes@[i as int]@);
            assert(acc + keyframe_chunks(a.keyframes@[i as int]@) =~= a7 + keyframes_chunks(t));
        }
        i = i + 1;
    }
    assert(kv.take(kv.len() as int) =~= kv);
    let ghost b0 = a7 + keyframes_chunks(kv);
    proof {
        reveal_strlit("    ");
        assert(chunk_text(pad(2)) =~= "    "@);
    }
    emit_text(out, "    ", Ghost(b0), Ghost(pad(2)));
    let ghost b1 = b0.push(pad(2));
    proof {
        reveal_strlit("easing");
        assert(chunk_text(Chunk::Word(w_easing())) =~= "easing"@);
    }
    emit_text(out, "easing", Ghost(b1), Ghost(Chunk::Word(w_easing())));
    let ghost b2 = b1.push(Chunk::Word(w_easing()));
    emit_char(out, ':', Ghost(b2), Ghost(Chunk::Punct(':')));
    let ghost b3 = b2.push(Chunk::Punct(':'));
    emit_char(out, ' ', Ghost(b3), Ghost(sp()));
    let ghost b4 = b3.push(sp());
    emit_text(out, a.easing.as_str(), Ghost(b4), Ghost(Chunk::Word(easing_name(a.easing))));
    let ghost b5 = b4.push(Chunk::Word(easing_name(a.easing)));
    emit_char(out, '\n', Ghost(b5), Ghost(nl()));
    let ghost b6 = b5.push(nl());
    proof {
        reveal_strlit("  ");
        assert(chunk_text(pad(1)) =~= "  "@);
    }
    emit_text(out, "  ", Ghost(b6), Ghost(pad(1)));
    let ghost b7 = b6.push(pad(1));
    emit_char(out, '}', Ghost(b7), Ghost(Chunk::Punct('}')));
    let ghost b8 = b7.push(Chunk::Punct('}'));
    emit_char(out, '\n', Ghost(b8), Ghost(nl()));
    proof {
        assert(b8.push(nl()) =~= cs + animation_chunks(a@));
    }
}

fn write_statement(out: &mut String, st: &Statement, Ghost(cs): Ghost<Seq<Chunk>>)
    requires
        old(out)@ == chunks_text(cs),
    ensures
        final(out)@ == chunks_text(cs + statement_chunks(st@)),
{
    proof {
        reveal_strlit("  ");
        reveal_strlit("let");
    }
    match st {
        Statement::Let { name, shape } => {
            proof {
                reveal_strlit("  ");
                assert(chunk_text(pad(1)) =~= "  "@);
            }
            emit_text(out, "  ", Ghost(cs), Ghost(pad(1)));
            let ghost a1 = cs.push(pad(1));
            proof {
                reveal_strlit("let");
                assert(chunk_text(Chunk::Word(w_let())) =~= "let"@);
            }
            emit_text(out, "let", Ghost(a1), Ghost(Chunk::Word(w_let())));
            let ghost a2 = a1.push(Chunk::Word(w_let()));
            emit_char(out, ' ', Ghost(a2), Ghost(sp()));
            let ghost a3 = a2.push(sp());
            emit_text(out, name.as_str(), Ghost(a3), Ghost(Chunk::Word(name@)));
            let ghost a4 = a3.push(Chunk::Word(name@));
            emit_char(out, ' ', Ghost(a4), Ghost(sp()));
            let ghost a5 = a4.push(sp());
            emit_char(out, '=', Ghost(a5), Ghost(Chunk::Punct('=')));
            let ghost a6 = a5.push(Chunk::Punct('='));
            emit_char(out, ' ', Ghost(a6), Ghost(sp()));
            let ghost a7 = a6.push(sp());
            write_shape(out, shape, Ghost(a7));
            let ghost a8 = a7 + shape_chunks(*shape);
            emit_char(out, '\n', Ghost(a8), Ghost(nl()));
            proof {
                assert(a8.push(nl()) =~= cs + statement_chunks(st@));
            }
        },
        Statement::Assign { target, property, value } => {
            proof {
                reveal_strlit("  ");
                assert(chunk_text(pad(1)) =~= "  "@);
            }
            emit_text(out, "  ", Ghost(cs), Ghost(pad(1)));
            let ghost a1 = cs.push(pad(1));
            emit_text(out, target.as_str(), Ghost(a1), Ghost(Chunk::Word(target@)));
            let ghost a2 = a1.push(Chunk::Word(target@));
            emit_char(out, '.', Ghost(a2), Ghost(Chunk::Punct('.')));
            let ghost a3 = a2.push(Chunk::Punct('.'));
            emit_text(out, property.as_str(), Ghost(a3), Ghost(Chunk::Word(property_name(*property))));
            let ghost a4 = a3.push(Chunk::Word(property_name(*property)));
            emit_char(out, ' ', Ghost(a4), Ghost(sp()));
            let ghost a5 = a4.push(sp());
            emit_char(out, '=', Ghost(a5), Ghost(Chunk::Punct('=')));
            let ghost a6 = a5.push(Chunk::Punct('='));
            emit_char(out, ' ', Ghost(a6), Ghost(sp()));
            let ghost a7 = a6.push(sp());
            match value {
                Value::Color(c) => {
                    emit_color(out, *c, Ghost(a7));
                },
                Value::Absent => {
                    proof {
                        reveal_strlit("none");
                    }
                    proof {
                        reveal_strlit("none");
                        assert(chunk_text(Chunk::Word(w_none())) =~= "none"@);
                    }
                    emit_text(out, "none", Ghost(a7), Ghost(Chunk::Word(w_none())));
                },
            }
            let ghost a8 = a7 + value_chunks(*value);
            proof {
                assert(a8 =~= a7.push(value_chunks(*value)[0]));
            }
            emit_char(out, '\n', Ghost(a8), Ghost(nl()));
            proof {
                assert(a8.push(nl()) =~= cs + statement_chunks(st@));
            }
        },
        Statement::Animate(a) => {
            write_animation(out, a, Ghost(cs));
        },
    }
}

fn blank_line_between(prev: Option<&Statement>, next: &Statement) -> (r: bool)
    ensures
        r == needs_blank_line(
            match prev {
                Some(p) => Some(p@),
                None => None,
            },
            next@,
        ),
{
    match prev {
        None => true,
        Some(p) => match (p, next) {
            (Statement::Assign { .. }, Statement::Let { .. }) => true,
            (Statement::Assign { .. }, Statement::Animate(_)) => true,
            (Statement::Let { .. }, Statement::Animate(_)) => true,
            (Statement::Animate(_), _) => true,
            _ => false,
        },
    }
}

fn write_scene(out: &mut String, s: &Scene, Ghost(cs): Ghost<Seq<Chunk>>)
    requires
        old(out)@ == chunks_text(cs),
    ensures
        final(out)@ == chunks_text(cs + scene_chunks(s@)),
{
    proof {
        reveal_strlit("scene");
        reveal_strlit("  ");
        reveal_strlit("duration");
    }
    proof {
        reveal_strlit("scene");
        assert(chunk_text(Chunk::Word(w_scene())) =~= "scene"@);
    }
    emit_text(out, "scene", Ghost(cs), Ghost(Chunk::Word(w_scene())));
    let ghost a1 = cs.push(Chunk::Word(w_scene()));
    emit_char(out, ' ', Ghost(a1), Ghost(sp()));
    let ghost a2 = a1.push(sp());
    emit_text(out, s.name.as_str(), Ghost(a2), Ghost(Chunk::Word(s.name@)));
    let ghost a3 = a2.push(Chunk::Word(s.name@));
    emit_char(out, ' ', Ghost(a3), Ghost(sp()));
    let ghost a4 = a3.push(sp());
    emit_char(out, '{', Ghost(a4), Ghost(Chunk::Punct('{')));
    let ghost a5 = a4.push(Chunk::Punct('{'));
    emit_char(out, '\n', Ghost(a5), Ghost(nl()));
    let ghost a6 = a5.push(nl());
    proof {
        reveal_strlit("  ");
        assert(chunk_text(pad(1)) =~= "  "@);
    }
    emit_text(out, "  ", Ghost(a6), Ghost(pad(1)));
    let ghost a7 = a6.push(pad(1));
    proof {
        reveal_strlit("duration");
        assert(chunk_text(Chunk::Word(w_duration())) =~= "duration"@);
    }
    emit_text(out, "duration", Ghost(a7), Ghost(Chunk::Word(w_duration())));
    let ghost a8 = a7.push(Chunk::Word(w_duration()));
    emit_char(out, ' ', Ghost(a8), Ghost(sp()));
    let ghost a9 = a8.push(sp());
    emit_time(out, s.duration_ms, Ghost(a9));
    let ghost a10 = a9.push(Chunk::Time(s.duration_ms));
    emit_char(out, '\n', Ghost(a10), Ghost(nl()));
    let ghost a11 = a10.push(nl());
    let ghost sv = s@.statements;
    let mut i: usize = 0;
    assert(statements_chunks(sv.take(0)) =~= Seq::<Chunk>::empty());
    assert(a11 + Seq::<Chunk>::empty() =~= a11);
    while i < s.statements.len()
        invariant
            0 <= i <= sv.len(),
            sv == s@.statements,
            sv.len() == s.statements@.len(),
            out@ == chunks_text(a11 + statements_chunks(sv.take(i as int))),
        decreases sv.len() - i,
    {
        let ghost acc = a11 + statements_chunks(sv.take(i as int));
        let prev = if i > 0 {
            Some(&s.statements[i - 1])
        } else {
            None
        };
        let blank = blank_line_between(prev, &s.statements[i]);
        let ghost acc2 = acc;
        if blank {
            emit_char(out, '\n', Ghost(acc), Ghost(nl()));
            proof {
                acc2 = acc.push(nl());
            }
        }
        write_statement(out, &s.statements[i], Ghost(acc2));
        proof {
            let t = sv.take(i + 1);
            assert(t.drop_last() =~= sv.take(i as int));
            assert(t.last() == s.statements@[i as int]@);
            if i > 0 {
                assert(t[t.len() - 2] == s.statements@[i - 1]@);
            }
            assert(acc2 + statement_chunks(s.statements@[i as int]@) =~= a11 + statements_chunks(t));
        }
        i = i + 1;
    }
    assert(sv.take(sv.len() as int) =~= sv);
    let ghost b0 = a11 + statements_chunks(sv);
    emit_char(out, '}', Ghost(b0), Ghost(Chunk::Punct('}')));
    let ghost b1 = b0.push(Chunk::Punct('}'));
    emit_char(out, '\n', Ghost(b1), Ghost(nl()));
    proof {
        assert(b1.push(nl()) =~= cs + scene_chunks(s@));
    }
}

/// Serialize a [`Document`] to canonical `.vac` text.
pub fn write(doc: &Document) -> (out: String)
    ensures
        out@ == spec_write(doc@),
{
    let mut out = String::new();
    let ghost empty = Seq::<Chunk>::empty();
    assert(chunks_text(empty) =~= out@);
    write_canvas(&mut out, &doc.canvas, Ghost(empty));
    let ghost a0 = empty + canvas_chunks(doc.canvas);
    let ghost sv = doc@.scenes;
    let mut i: usize = 0;
    assert(scenes_chunks(sv.take(0)) =~= Seq::<Chunk>::empty());
    assert(a0 + Seq::<Chunk>::empty() =~= a0);
    while i < doc.scenes.len()
        invariant
            0 <= i <= sv.len(),
            sv == doc@.scenes,
            sv.len() == doc.scenes@.len(),
            out@ == chunks_text(a0 + scenes_chunks(sv.take(i as int))),
        decreases sv.len() - i,
    {
        let ghost acc = a0 + scenes_chunks(sv.take(i as int));
        emit_char(&mut out, '\n', Ghost(acc), Ghost(nl()));
        write_scene(&mut out, &doc.scenes[i], Ghost(acc.push(nl())));
        proof {
            let t = sv.take(i + 1);
            assert(t.drop_last() =~= sv.take(i as int));
            assert(t.last() == doc.scenes@[i as int]@);
            assert(acc.push(nl()) + scene_chunks(doc.scenes@[i as int]@) =~= a0 + scenes_chunks(t));
        }
        i = i + 1;
    }
    assert(sv.take(sv.len() as int) =~= sv);
    assert(a0 + scenes_chunks(sv) =~= document_chunks(doc@));
    out
}

} // verus!
