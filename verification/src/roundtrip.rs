//! The round-trip law of the format: parsing what the writer produced
//! gives back the document, for every document whose names are
//! identifiers, whose numbers are not negative, and whose keyframes each
//! have a transform.
//!
//! The proof goes in two steps. Lexing: the writer's output is a sequence
//! of chunks, each word, literal or punctuation chunk lexes to one token
//! and whitespace to none ([`lemma_lex_chunks`]). Parsing: the token
//! sequence of each part of the document parses back to that part.
use vstd::prelude::*;
use vstd::utf8::{encode_utf8, is_ascii_chars, is_ascii_chars_encode_utf8};
use crate::ast::{ascii_bytes, ascii_chars, Color, Number};
use crate::lexer::{
    digit_at, digit_value, digits_value, frac_prefix_value, in_class, is_alpha, is_digit,
    is_hex_digit, is_ident_char, is_ident_start, is_space, hex_byte, hex_value, lex_from,
    lex_token, lemma_run_end_stops_at, punct_token, run_end,
    scaled, trivia_end, unit_fps, unit_ms, unit_s, ByteClass, TokenV, B_DOT, B_X, lemma_pow10_small, lemma_run_end,
};
use crate::parser::{
    token_kinds, tok, p_number_list, p_number_tail, p_call, p_shape, p_transform, p_transform_tail,
    p_keyframe, p_animate_body, p_animate, p_let, p_assign, p_value, p_scene_body, p_scene,
    p_scenes, p_canvas, p_document, kw_rect, kw_ellipse, kw_position, kw_scale, kw_opacity,
    kw_none, kw_easing, kw_duration, kw_let, kw_animate, kw_scene, kw_canvas, spec_parse,
};
use crate::writer::{
    chunk_text, chunks_text, color_text, decimal, digit_char, four_digits, hex2, hex_char,
    number_text, time_text, trim_zeros, Chunk, lemma_four_digits_trim,
    lemma_digits_decompose, lemma_chunks_text_append, canvas_chunks, sp, nl, pad, w_canvas,
    args_chunks, call_chunks, shape_chunks, value_chunks, transform_chunks, transforms_chunks,
    keyframe_chunks, keyframes_chunks, animation_chunks, statement_chunks, statements_chunks,
    needs_blank_line, scene_chunks, scenes_chunks, document_chunks, spec_write, w_scene, w_duration,
    w_let, w_animate, w_easing, w_rect, w_ellipse, w_position, w_scale, w_opacity, w_none,
};
use crate::ast::{
    easing_name, property_name, AnimationV, Canvas, DocumentV, KeyframeV, SceneV, Shape, StatementV,
    Transform, Value,
};

verus! {

// --------------------------------------------------------------------
// Characters and bytes
// --------------------------------------------------------------------

/// An identifier: `[a-zA-Z_][a-zA-Z0-9_-]*`.
pub open spec fn is_identifier(w: Seq<char>) -> bool {
    &&& w.len() > 0
    &&& is_ascii_chars(w)
    &&& is_ident_start(w[0] as u8)
    &&& forall|i: int| 0 <= i < w.len() ==> is_ident_char(#[trigger] w[i] as u8)
}

pub proof fn lemma_ascii_round_trip(w: Seq<char>)
    requires
        is_ascii_chars(w),
    ensures
        ascii_chars(ascii_bytes(w)) == w,
{
    vstd::utf8::is_ascii_chars_nat_bound(w);
    assert forall|i: int| 0 <= i < w.len() implies ascii_chars(ascii_bytes(w))[i] == w[i] by {
        assert((w[i] as nat) < 128);
    }
    assert(ascii_chars(ascii_bytes(w)) =~= w);
}

pub proof fn lemma_ascii_bytes_add(a: Seq<char>, b: Seq<char>)
    ensures
        ascii_bytes(a + b) == ascii_bytes(a) + ascii_bytes(b),
{
    assert(ascii_bytes(a + b) =~= ascii_bytes(a) + ascii_bytes(b));
}

// --------------------------------------------------------------------
// Decimal digits
// --------------------------------------------------------------------

pub open spec fn all_digits(b: Seq<u8>) -> bool {
    forall|i: int| 0 <= i < b.len() ==> is_digit(#[trigger] b[i])
}

pub proof fn lemma_digit_char(d: nat)
    requires
        d < 10,
    ensures
        digit_char(d) as u8 == d + 48,
        is_digit(digit_char(d) as u8),
        digit_value(digit_char(d) as u8) == d,
        ('\0' <= digit_char(d) <= '\u{7f}'),
{
}

pub proof fn lemma_decimal(n: nat)
    ensures
        ascii_bytes(decimal(n)).len() >= 1,
        all_digits(ascii_bytes(decimal(n))),
        digits_value(ascii_bytes(decimal(n))) == n,
        is_ascii_chars(decimal(n)),
    decreases n,
{
    if n >= 10 {
        lemma_decimal(n / 10);
        lemma_ascii_bytes_add(decimal(n / 10), seq![digit_char(n % 10)]);
        lemma_digit_char(n % 10);
        let b = ascii_bytes(decimal(n));
        assert(b.drop_last() =~= ascii_bytes(decimal(n / 10)));
        assert(b.last() == digit_char(n % 10) as u8);
        assert(digits_value(b) == digits_value(b.drop_last()) * 10 + digit_value(b.last()));
        assert(digits_value(b) == (n / 10) * 10 + n % 10);
        assert forall|i: int| 0 <= i < b.len() implies is_digit(#[trigger] b[i]) by {
            if i < b.len() - 1 {
                assert(b[i] == ascii_bytes(decimal(n / 10))[i]);
            }
        }
        assert(is_ascii_chars(decimal(n))) by {
            assert forall|i: int| 0 <= i < decimal(n).len() implies '\0' <= #[trigger] decimal(n)[i] <= '\u{7f}' by {
                if i < decimal(n).len() - 1 {
                    assert(decimal(n)[i] == decimal(n / 10)[i]);
                }
            }
        }
    } else {
        lemma_digit_char(n);
        let b = ascii_bytes(decimal(n));
        assert(b.drop_last() =~= Seq::<u8>::empty());
        assert(digits_value(Seq::<u8>::empty()) == 0);
        assert(b.last() == digit_char(n) as u8);
        assert(digits_value(b) == digits_value(b.drop_last()) * 10 + digit_value(b.last()));
    }
}

/// Bytes `s[a..a+t.len()]` equal `t`.
pub open spec fn at(s: Seq<u8>, a: int, t: Seq<u8>) -> bool {
    &&& 0 <= a
    &&& a + t.len() <= s.len()
    &&& s.subrange(a, a + t.len()) == t
}

pub proof fn lemma_at_split(s: Seq<u8>, a: int, t1: Seq<u8>, t2: Seq<u8>)
    requires
        at(s, a, t1 + t2),
    ensures
        at(s, a, t1),
        at(s, a + t1.len(), t2),
{
    let whole = s.subrange(a, a + t1.len() + t2.len());
    assert forall|i: int| 0 <= i < t1.len() implies s.subrange(a, a + t1.len())[i] == t1[i] by {
        assert(whole[i] == (t1 + t2)[i]);
    }
    assert forall|i: int| 0 <= i < t2.len() implies s.subrange(
        a + t1.len(),
        a + t1.len() + t2.len(),
    )[i] == t2[i] by {
        assert(whole[t1.len() + i] == (t1 + t2)[t1.len() + i]);
    }
    assert(s.subrange(a, a + t1.len()) =~= t1);
    assert(s.subrange(a + t1.len(), a + t1.len() + t2.len()) =~= t2);
}

pub proof fn lemma_at_index(s: Seq<u8>, a: int, t: Seq<u8>, i: int)
    requires
        at(s, a, t),
        0 <= i < t.len(),
    ensures
        s[a + i] == t[i],
{
    assert(s.subrange(a, a + t.len())[i] == s[a + i]);
}

/// A run of class `k` that covers exactly `t` at `a`, followed by a byte
/// outside the class (or the end).
pub proof fn lemma_run_covers(s: Seq<u8>, a: int, t: Seq<u8>, k: ByteClass)
    requires
        at(s, a, t),
        forall|i: int| 0 <= i < t.len() ==> in_class(#[trigger] t[i], k),
        a + t.len() == s.len() || !in_class(s[a + t.len()], k),
    ensures
        run_end(s, a, k) == a + t.len(),
{
    assert forall|i: int| a <= i < a + t.len() implies in_class(#[trigger] s[i], k) by {
        lemma_at_index(s, a, t, i - a);
    }
    lemma_run_end_stops_at(s, a, k, a + t.len());
}

// --------------------------------------------------------------------
// One chunk lexes to one token
// --------------------------------------------------------------------

pub open spec fn chunk_token(c: Chunk) -> Option<TokenV> {
    match c {
        Chunk::Word(w) => Some(TokenV::Ident(ascii_bytes(w))),
        Chunk::Num(n) => Some(TokenV::Number(n)),
        Chunk::Time(ms) => Some(TokenV::TimeMs(ms)),
        Chunk::Fps(f) => Some(TokenV::Fps(f)),
        Chunk::Dim(w, h) => Some(TokenV::Dimension(w, h)),
        Chunk::Hex(c) => Some(TokenV::HexColor(c)),
        Chunk::Punct(ch) => punct_token(ch as u8),
        Chunk::Arrow => Some(TokenV::Arrow),
        Chunk::Space(_) => None,
    }
}

pub open spec fn is_space_text(w: Seq<char>) -> bool {
    &&& w.len() > 0
    &&& forall|i: int| 0 <= i < w.len() ==> (#[trigger] w[i] == ' ' || w[i] == '\n')
}

pub open spec fn punct_char(ch: char) -> bool {
    ch == '{' || ch == '}' || ch == '(' || ch == ')' || ch == ',' || ch == '=' || ch == '.' || ch
        == '@' || ch == ':'
}

/// The chunks that the writer emits are of these forms.
pub open spec fn chunk_ok(c: Chunk) -> bool {
    match c {
        Chunk::Word(w) => is_identifier(w),
        Chunk::Num(n) => n.ten_thousandths >= 0,
        Chunk::Punct(ch) => punct_char(ch),
        Chunk::Space(w) => is_space_text(w),
        _ => true,
    }
}

/// Byte `b` can follow the text of chunk `c` without extending its token.
pub open spec fn terminates(c: Chunk, b: u8) -> bool {
    match c {
        Chunk::Word(_) => !is_ident_char(b),
        Chunk::Num(_) => !is_digit(b) && b != B_DOT && !is_alpha(b),
        Chunk::Time(_) => !is_alpha(b),
        Chunk::Fps(_) => !is_alpha(b),
        Chunk::Dim(_, _) => !is_digit(b),
        Chunk::Hex(_) => !is_hex_digit(b),
        _ => true,
    }
}

pub open spec fn chunk_bytes(c: Chunk) -> Seq<u8> {
    ascii_bytes(chunk_text(c))
}

proof fn lemma_not_trivia(s: Seq<u8>, p: int)
    requires
        0 <= p < s.len(),
        !is_space(s[p]),
        s[p] != 47,
    ensures
        trivia_end(s, p) == p,
{
}

proof fn lemma_lex_word(s: Seq<u8>, p: int, w: Seq<char>)
    requires
        is_identifier(w),
        at(s, p, ascii_bytes(w)),
        p + w.len() < s.len(),
        !is_ident_char(s[p + w.len()]),
    ensures
        trivia_end(s, p) == p,
        lex_token(s, p) == Some((TokenV::Ident(ascii_bytes(w)), p + w.len())),
{
    let b = ascii_bytes(w);
    lemma_at_index(s, p, b, 0);
    assert(b =~= seq![b[0]] + b.drop_first());
    lemma_at_split(s, p, seq![b[0]], b.drop_first());
    lemma_run_covers(s, p + 1, b.drop_first(), ByteClass::IdentChar);
    lemma_not_trivia(s, p);
}

proof fn lemma_frac_prefix_4(f: Seq<u8>)
    ensures
        frac_prefix_value(f, 4) == ((digit_at(f, 0) * 10 + digit_at(f, 1)) * 10 + digit_at(f, 2))
            * 10 + digit_at(f, 3),
        frac_prefix_value(f, 3) == (digit_at(f, 0) * 10 + digit_at(f, 1)) * 10 + digit_at(f, 2),
        frac_prefix_value(f, 0) == 0,
{
    assert(frac_prefix_value(f, 0) == 0);
    assert(frac_prefix_value(f, 1) == digit_at(f, 0));
    assert(frac_prefix_value(f, 2) == digit_at(f, 0) * 10 + digit_at(f, 1));
    assert(frac_prefix_value(f, 3) == (digit_at(f, 0) * 10 + digit_at(f, 1)) * 10 + digit_at(f, 2));
}

/// The fractional digits that the writer prints.
proof fn lemma_frac_text(f: nat)
    requires
        0 < f < 10000,
    ensures
        ({
            let fb = ascii_bytes(trim_zeros(four_digits(f)));
            &&& 1 <= fb.len() <= 4
            &&& all_digits(fb)
            &&& frac_prefix_value(fb, 4) == f
            &&& digit_at(fb, 4) == 0
            &&& is_ascii_chars(trim_zeros(four_digits(f)))
        }),
{
    lemma_four_digits_trim(f);
    lemma_digits_decompose(f);
    let d0 = f / 1000;
    let d1 = (f / 100) % 10;
    let d2 = (f / 10) % 10;
    let d3 = f % 10;
    lemma_digit_char(d0);
    lemma_digit_char(d1);
    lemma_digit_char(d2);
    lemma_digit_char(d3);
    let t = trim_zeros(four_digits(f));
    let fb = ascii_bytes(t);
    lemma_frac_prefix_4(fb);
    assert(all_digits(fb));
    assert(is_ascii_chars(t));
}

/// Facts about the bytes of a number written by the writer.
proof fn lemma_lex_num(s: Seq<u8>, p: int, n: Number)
    requires
        n.ten_thousandths >= 0,
        at(s, p, ascii_bytes(number_text(n))),
        p + number_text(n).len() < s.len(),
        terminates(Chunk::Num(n), s[p + number_text(n).len()]),
    ensures
        trivia_end(s, p) == p,
        lex_token(s, p) == Some((TokenV::Number(n), p + number_text(n).len())),
{
    let u = n.ten_thousandths as nat;
    let ip = u / 10000;
    let f = u % 10000;
    let db = ascii_bytes(decimal(ip));
    let nb = ascii_bytes(number_text(n));
    let e = p + nb.len();
    lemma_decimal(ip);
    lemma_at_index(s, p, nb, 0);
    lemma_pow10_small();
    if f == 0 {
        assert(nb == db);
        lemma_run_covers(s, p, db, ByteClass::NumberChar);
        lemma_run_covers(s, p, db, ByteClass::Digit);
        lemma_run_end(s, e, ByteClass::Alpha);
        assert(run_end(s, e, ByteClass::Alpha) == e);
        assert(s.subrange(p, e) == db);
        assert(s.subrange(e, e).len() == 0);
        assert(scaled(ip, Seq::empty(), 4) == ip * 10000) by {
            lemma_frac_prefix_4(Seq::<u8>::empty());
        }
        assert(ip * 10000 == u);
    } else {
        lemma_frac_text(f);
        let fb = ascii_bytes(trim_zeros(four_digits(f)));
        let dot: Seq<u8> = seq![B_DOT];
        lemma_ascii_bytes_add(decimal(ip) + seq!['.'], trim_zeros(four_digits(f)));
        lemma_ascii_bytes_add(decimal(ip), seq!['.']);
        assert(ascii_bytes(seq!['.']) =~= dot);
        assert(nb == db + dot + fb);
        assert(db + dot + fb == db + (dot + fb));
        lemma_at_split(s, p, db, dot + fb);
        lemma_at_split(s, p + db.len(), dot, fb);
        lemma_at_index(s, p + db.len(), dot, 0);
        assert forall|i: int| 0 <= i < nb.len() implies in_class(#[trigger] nb[i], ByteClass::NumberChar) by {
            if i < db.len() {
                assert(nb[i] == db[i]);
            } else if i == db.len() {
                assert(nb[i] == B_DOT);
            } else {
                assert(nb[i] == fb[i - db.len() - 1]);
            }
        }
        lemma_run_covers(s, p, nb, ByteClass::NumberChar);
        lemma_run_covers(s, p, db, ByteClass::Digit);
        lemma_run_covers(s, p + db.len() + 1, fb, ByteClass::Digit);
        lemma_run_end(s, e, ByteClass::Alpha);
        assert(run_end(s, e, ByteClass::Alpha) == e);
        assert(s.subrange(p, p + db.len()) == db);
        assert(s.subrange(p + db.len() + 1, e) == fb);
        assert(s.subrange(e, e).len() == 0);
        assert(ip * 10000 + f == u);
    }
    lemma_not_trivia(s, p);
}

proof fn lemma_unit_bytes()
    ensures
        ascii_bytes(seq!['m', 's']) == unit_ms(),
        ascii_bytes(seq!['s']) == unit_s(),
        ascii_bytes(seq!['f', 'p', 's']) == unit_fps(),
{
    assert(ascii_bytes(seq!['m', 's']) =~= unit_ms());
    assert(ascii_bytes(seq!['s']) =~= unit_s());
    assert(ascii_bytes(seq!['f', 'p', 's']) =~= unit_fps());
}

/// Digits of `v` followed by the unit `unit` (letters other than `x`).
proof fn lemma_lex_digits_unit(s: Seq<u8>, p: int, v: nat, unit: Seq<u8>)
    requires
        at(s, p, ascii_bytes(decimal(v)) + unit),
        unit.len() > 0,
        forall|i: int| 0 <= i < unit.len() ==> is_alpha(#[trigger] unit[i]),
        unit[0] != B_X,
        p + ascii_bytes(decimal(v)).len() + unit.len() < s.len(),
        !is_alpha(s[p + ascii_bytes(decimal(v)).len() + unit.len()]),
    ensures
        ({
            let q = p + ascii_bytes(decimal(v)).len();
            let e = q + unit.len();
            &&& trivia_end(s, p) == p
            &&& run_end(s, p, ByteClass::NumberChar) == q
            &&& run_end(s, p, ByteClass::Digit) == q
            &&& run_end(s, q, ByteClass::Alpha) == e
            &&& s.subrange(q, e) == unit
            &&& digits_value(s.subrange(p, q)) == v
            &&& s[q] == unit[0]
            &&& is_digit(s[p])
        }),
{
    let db = ascii_bytes(decimal(v));
    lemma_decimal(v);
    lemma_at_split(s, p, db, unit);
    lemma_at_index(s, p, db, 0);
    lemma_at_index(s, p + db.len(), unit, 0);
    lemma_run_covers(s, p, db, ByteClass::NumberChar);
    lemma_run_covers(s, p, db, ByteClass::Digit);
    lemma_run_covers(s, p + db.len(), unit, ByteClass::Alpha);
    lemma_not_trivia(s, p);
}

proof fn lemma_lex_time(s: Seq<u8>, p: int, ms: u32)
    requires
        at(s, p, ascii_bytes(time_text(ms))),
        p + time_text(ms).len() < s.len(),
        !is_alpha(s[p + time_text(ms).len()]),
    ensures
        trivia_end(s, p) == p,
        lex_token(s, p) == Some((TokenV::TimeMs(ms), p + time_text(ms).len())),
{
    lemma_unit_bytes();
    lemma_pow10_small();
    lemma_frac_prefix_4(Seq::<u8>::empty());
    if ms % 1000 == 0 && ms != 0 {
        let v = (ms / 1000) as nat;
        lemma_ascii_bytes_add(decimal(v), seq!['s']);
        lemma_lex_digits_unit(s, p, v, unit_s());
        assert(scaled(v, Seq::empty(), 3) == v * 1000);
    } else {
        let v = ms as nat;
        assert(time_text(ms) =~= decimal(v) + seq!['m', 's']);
        lemma_ascii_bytes_add(decimal(v), seq!['m', 's']);
        lemma_lex_digits_unit(s, p, v, unit_ms());
        assert(scaled(v, Seq::empty(), 0) == v);
        assert(unit_ms() != unit_s());
    }
}

proof fn lemma_lex_fps(s: Seq<u8>, p: int, f: u32)
    requires
        at(s, p, ascii_bytes(decimal(f as nat) + seq!['f', 'p', 's'])),
        p + decimal(f as nat).len() + 3 < s.len(),
        !is_alpha(s[p + decimal(f as nat).len() + 3]),
    ensures
        trivia_end(s, p) == p,
        lex_token(s, p) == Some((TokenV::Fps(f), p + decimal(f as nat).len() + 3)),
{
    lemma_unit_bytes();
    lemma_pow10_small();
    lemma_frac_prefix_4(Seq::<u8>::empty());
    lemma_ascii_bytes_add(decimal(f as nat), seq!['f', 'p', 's']);
    lemma_lex_digits_unit(s, p, f as nat, unit_fps());
    assert(scaled(f as nat, Seq::empty(), 0) == f);
    assert(unit_fps() != unit_s() && unit_fps() != unit_ms());
}

proof fn lemma_lex_dim(s: Seq<u8>, p: int, w: u32, h: u32)
    requires
        at(s, p, ascii_bytes(decimal(w as nat) + seq!['x'] + decimal(h as nat))),
        p + decimal(w as nat).len() + 1 + decimal(h as nat).len() < s.len(),
        !is_digit(s[p + decimal(w as nat).len() + 1 + decimal(h as nat).len()]),
    ensures
        trivia_end(s, p) == p,
        lex_token(s, p) == Some(
            (TokenV::Dimension(w, h), p + decimal(w as nat).len() + 1 + decimal(h as nat).len()),
        ),
{
    let wb = ascii_bytes(decimal(w as nat));
    let hb = ascii_bytes(decimal(h as nat));
    let xb: Seq<u8> = seq![B_X];
    lemma_decimal(w as nat);
    lemma_decimal(h as nat);
    lemma_ascii_bytes_add(decimal(w as nat) + seq!['x'], decimal(h as nat));
    lemma_ascii_bytes_add(decimal(w as nat), seq!['x']);
    assert(ascii_bytes(seq!['x']) =~= xb);
    assert(wb + xb + hb == wb + (xb + hb));
    lemma_at_split(s, p, wb, xb + hb);
    lemma_at_split(s, p + wb.len(), xb, hb);
    lemma_at_index(s, p, wb, 0);
    lemma_at_index(s, p + wb.len(), xb, 0);
    lemma_at_index(s, p + wb.len() + 1, hb, 0);
    lemma_run_covers(s, p, wb, ByteClass::NumberChar);
    lemma_run_covers(s, p, wb, ByteClass::Digit);
    lemma_run_covers(s, p + wb.len() + 1, hb, ByteClass::Digit);
    assert(s.subrange(p, p + wb.len()) == wb);
    assert(s.subrange(p + wb.len() + 1, p + wb.len() + 1 + hb.len()) == hb);
    lemma_not_trivia(s, p);
}

proof fn lemma_hex_char(d: nat)
    requires
        d < 16,
    ensures
        is_hex_digit(hex_char(d) as u8),
        hex_value(hex_char(d) as u8) == d,
        '\0' <= hex_char(d) <= '\u{7f}',
{
}

proof fn lemma_hex2(b: u8)
    ensures
        ascii_bytes(hex2(b)).len() == 2,
        is_hex_digit(ascii_bytes(hex2(b))[0]),
        is_hex_digit(ascii_bytes(hex2(b))[1]),
        hex_value(ascii_bytes(hex2(b))[0]) * 16 + hex_value(ascii_bytes(hex2(b))[1]) == b,
        is_ascii_chars(hex2(b)),
{
    lemma_hex_char((b / 16) as nat);
    lemma_hex_char((b % 16) as nat);
}

proof fn lemma_lex_hex(s: Seq<u8>, p: int, c: Color)
    requires
        at(s, p, ascii_bytes(color_text(c))),
        p + color_text(c).len() < s.len(),
        !is_hex_digit(s[p + color_text(c).len()]),
    ensures
        trivia_end(s, p) == p,
        lex_token(s, p) == Some((TokenV::HexColor(c), p + color_text(c).len())),
{
    lemma_hex2(c.r);
    lemma_hex2(c.g);
    lemma_hex2(c.b);
    lemma_hex2(c.a);
    let t = ascii_bytes(color_text(c));
    let body = t.drop_first();
    assert(t =~= seq![t[0]] + body);
    lemma_at_split(s, p, seq![t[0]], body);
    lemma_at_index(s, p, t, 0);
    let rb = ascii_bytes(hex2(c.r));
    let gb = ascii_bytes(hex2(c.g));
    let bb = ascii_bytes(hex2(c.b));
    let ab = ascii_bytes(hex2(c.a));
    if c.a == 0xFF {
        assert(body =~= rb + gb + bb);
    } else {
        assert(body =~= rb + gb + bb + ab);
    }
    assert forall|i: int| 0 <= i < body.len() implies in_class(#[trigger] body[i], ByteClass::Hex) by {
        if i < 2 {
            assert(body[i] == rb[i]);
        } else if i < 4 {
            assert(body[i] == gb[i - 2]);
        } else if i < 6 {
            assert(body[i] == bb[i - 4]);
        } else {
            assert(body[i] == ab[i - 6]);
        }
    }
    lemma_run_covers(s, p + 1, body, ByteClass::Hex);
    assert forall|i: int| 0 <= i < body.len() implies s[p + 1 + i] == body[i] by {
        lemma_at_index(s, p + 1, body, i);
    }
    assert(s[p + 1] == rb[0] && s[p + 2] == rb[1]) by {
        assert(body[0] == rb[0] && body[1] == rb[1]);
    }
    assert(s[p + 3] == gb[0] && s[p + 4] == gb[1]) by {
        assert(body[2] == gb[0] && body[3] == gb[1]);
    }
    assert(s[p + 5] == bb[0] && s[p + 6] == bb[1]) by {
        assert(body[4] == bb[0] && body[5] == bb[1]);
    }
    assert(hex_byte(s, p + 1) == c.r);
    assert(hex_byte(s, p + 3) == c.g);
    assert(hex_byte(s, p + 5) == c.b);
    if c.a != 0xFF {
        assert(s[p + 7] == ab[0] && s[p + 8] == ab[1]) by {
            assert(body[6] == ab[0] && body[7] == ab[1]);
        }
        assert(hex_byte(s, p + 7) == c.a);
    }
    lemma_not_trivia(s, p);
}

/// A token chunk lexes to its token.
pub proof fn lemma_lex_chunk(s: Seq<u8>, p: int, c: Chunk)
    requires
        chunk_ok(c),
        !(c is Space),
        at(s, p, chunk_bytes(c)),
        p + chunk_bytes(c).len() < s.len(),
        terminates(c, s[p + chunk_bytes(c).len()]),
    ensures
        trivia_end(s, p) == p,
        chunk_token(c) is Some,
        lex_token(s, p) == Some((chunk_token(c)->0, p + chunk_bytes(c).len())),
{
    match c {
        Chunk::Word(w) => {
            lemma_lex_word(s, p, w);
        },
        Chunk::Num(n) => {
            lemma_lex_num(s, p, n);
        },
        Chunk::Time(ms) => {
            lemma_lex_time(s, p, ms);
        },
        Chunk::Fps(f) => {
            lemma_lex_fps(s, p, f);
        },
        Chunk::Dim(w, h) => {
            lemma_lex_dim(s, p, w, h);
        },
        Chunk::Hex(col) => {
            lemma_lex_hex(s, p, col);
        },
        Chunk::Punct(ch) => {
            lemma_at_index(s, p, chunk_bytes(c), 0);
            lemma_not_trivia(s, p);
        },
        Chunk::Arrow => {
            lemma_at_index(s, p, chunk_bytes(c), 0);
            lemma_at_index(s, p, chunk_bytes(c), 1);
            lemma_not_trivia(s, p);
        },
        Chunk::Space(_) => {},
    }
}

// --------------------------------------------------------------------
// Chunk sequences lex to their tokens
// --------------------------------------------------------------------

/// Every chunk has a form that the writer emits, and each token chunk is
/// followed by a chunk whose first byte ends that token.
pub open spec fn chunks_wf(cs: Seq<Chunk>) -> bool
    decreases cs.len(),
{
    if cs.len() == 0 {
        true
    } else {
        &&& chunk_ok(cs[0])
        &&& (cs.len() >= 2 ==> terminates(cs[0], chunk_bytes(cs[1])[0]))
        &&& chunks_wf(cs.drop_first())
    }
}

pub open spec fn token_of(c: Chunk) -> Seq<TokenV> {
    match chunk_token(c) {
        Some(t) => seq![t],
        None => Seq::empty(),
    }
}

/// The tokens of a chunk sequence, in order.
pub open spec fn chunks_tokens(cs: Seq<Chunk>) -> Seq<TokenV>
    decreases cs.len(),
{
    if cs.len() == 0 {
        Seq::empty()
    } else {
        token_of(cs[0]) + chunks_tokens(cs.drop_first())
    }
}

pub open spec fn chunks_bytes(cs: Seq<Chunk>) -> Seq<u8> {
    ascii_bytes(chunks_text(cs))
}

pub open spec fn lex_kinds(s: Seq<u8>, p: int) -> Result<Seq<TokenV>, int> {
    match lex_from(s, p) {
        Ok(ts) => Ok(token_kinds(ts)),
        Err(e) => Err(e),
    }
}

pub open spec fn kinds_prepend(k: Seq<TokenV>, r: Result<Seq<TokenV>, int>) -> Result<
    Seq<TokenV>,
    int,
> {
    match r {
        Ok(x) => Ok(k + x),
        Err(e) => Err(e),
    }
}

pub proof fn lemma_chunk_nonempty(c: Chunk)
    requires
        chunk_ok(c),
    ensures
        chunk_bytes(c).len() >= 1,
        is_ascii_chars(chunk_text(c)),
{
    match c {
        Chunk::Num(n) => {
            let u = n.ten_thousandths as nat;
            lemma_decimal(u / 10000);
            if u % 10000 != 0 {
                lemma_frac_text(u % 10000);
                vstd::utf8::is_ascii_chars_concat(
                    decimal(u / 10000) + seq!['.'],
                    decimal(u / 10000),
                    seq!['.'],
                );
                vstd::utf8::is_ascii_chars_concat(
                    decimal(u / 10000) + seq!['.'] + trim_zeros(four_digits(u % 10000)),
                    decimal(u / 10000) + seq!['.'],
                    trim_zeros(four_digits(u % 10000)),
                );
            }
        },
        Chunk::Time(ms) => {
            if ms % 1000 == 0 && ms != 0 {
                lemma_decimal((ms / 1000) as nat);
                vstd::utf8::is_ascii_chars_concat(time_text(ms), decimal((ms / 1000) as nat), seq!['s']);
            } else if ms != 0 {
                lemma_decimal(ms as nat);
                vstd::utf8::is_ascii_chars_concat(time_text(ms), decimal(ms as nat), seq!['m', 's']);
            }
        },
        Chunk::Fps(f) => {
            lemma_decimal(f as nat);
            vstd::utf8::is_ascii_chars_concat(
                decimal(f as nat) + seq!['f', 'p', 's'],
                decimal(f as nat),
                seq!['f', 'p', 's'],
            );
        },
        Chunk::Dim(w, h) => {
            lemma_decimal(w as nat);
            lemma_decimal(h as nat);
            vstd::utf8::is_ascii_chars_concat(
                decimal(w as nat) + seq!['x'],
                decimal(w as nat),
                seq!['x'],
            );
            vstd::utf8::is_ascii_chars_concat(
                decimal(w as nat) + seq!['x'] + decimal(h as nat),
                decimal(w as nat) + seq!['x'],
                decimal(h as nat),
            );
        },
        Chunk::Hex(col) => {
            lemma_hex2(col.r);
            lemma_hex2(col.g);
            lemma_hex2(col.b);
            lemma_hex2(col.a);
            assert(is_ascii_chars(color_text(col)));
        },
        _ => {},
    }
}

pub proof fn lemma_chunks_text_front(cs: Seq<Chunk>)
    requires
        cs.len() > 0,
    ensures
        chunks_text(cs) == chunk_text(cs[0]) + chunks_text(cs.drop_first()),
{
    assert(cs =~= seq![cs[0]] + cs.drop_first());
    lemma_chunks_text_append(seq![cs[0]], cs.drop_first());
    assert(seq![cs[0]].drop_last() =~= Seq::<Chunk>::empty());
    assert(chunks_text(Seq::<Chunk>::empty()) =~= Seq::<char>::empty());
    assert(chunks_text(seq![cs[0]]) == chunks_text(seq![cs[0]].drop_last()) + chunk_text(cs[0]));
    assert(chunks_text(seq![cs[0]]) =~= chunk_text(cs[0]));
}

proof fn lemma_lex_spaces(s: Seq<u8>, p: int, w: Seq<char>)
    requires
        is_space_text(w),
        at(s, p, ascii_bytes(w)),
    ensures
        lex_from(s, p) == lex_from(s, p + w.len()),
    decreases w.len(),
{
    let b = ascii_bytes(w);
    lemma_at_index(s, p, b, 0);
    assert(trivia_end(s, p) == trivia_end(s, p + 1));
    if w.len() > 1 {
        let rest = w.drop_first();
        assert(b.drop_first() =~= ascii_bytes(rest));
        assert(b =~= seq![b[0]] + b.drop_first());
        lemma_at_split(s, p, seq![b[0]], b.drop_first());
        assert(is_space_text(rest)) by {
            assert forall|i: int| 0 <= i < rest.len() implies (#[trigger] rest[i] == ' ' || rest[i]
                == '\n') by {
                assert(rest[i] == w[i + 1]);
            }
        }
        lemma_lex_spaces(s, p + 1, rest);
    }
}

/// Lexing the bytes of a well-formed chunk sequence (ending with
/// whitespace) gives the chunks' tokens, then whatever follows.
pub proof fn lemma_lex_chunks(s: Seq<u8>, p: int, cs: Seq<Chunk>)
    requires
        chunks_wf(cs),
        cs.len() > 0 ==> cs.last() is Space,
        at(s, p, chunks_bytes(cs)),
    ensures
        lex_kinds(s, p) == kinds_prepend(chunks_tokens(cs), lex_kinds(s, p + chunks_bytes(cs).len())),
    decreases cs.len(),
{
    if cs.len() == 0 {
        assert(chunks_text(cs).len() == 0);
        match lex_kinds(s, p) {
            Ok(x) => {
                assert(chunks_tokens(cs) + x =~= x);
            },
            Err(_) => {},
        }
    } else {
        let c = cs[0];
        let rest = cs.drop_first();
        lemma_chunks_text_front(cs);
        lemma_ascii_bytes_add(chunk_text(c), chunks_text(rest));
        lemma_at_split(s, p, chunk_bytes(c), chunks_bytes(rest));
        lemma_chunk_nonempty(c);
        let e0 = p + chunk_bytes(c).len();
        let e = p + chunks_bytes(cs).len();
        if rest.len() > 0 {
            assert(rest.last() == cs.last());
        }
        lemma_lex_chunks(s, e0, rest);
        match c {
            Chunk::Space(w) => {
                lemma_lex_spaces(s, p, w);
                assert(chunks_tokens(cs) =~= chunks_tokens(rest));
            },
            _ => {
                assert(rest.len() > 0);
                lemma_chunks_text_front(rest);
                assert(chunks_wf(rest));
                assert(chunk_ok(rest[0]));
                lemma_chunk_nonempty(rest[0]);
                lemma_ascii_bytes_add(chunk_text(rest[0]), chunks_text(rest.drop_first()));
                lemma_at_index(s, e0, chunks_bytes(rest), 0);
                assert(s[e0] == chunk_bytes(rest[0])[0]);
                lemma_lex_chunk(s, p, c);
                let t = chunk_token(c)->0;
                assert(token_of(c) == seq![t]);
                match lex_from(s, e0) {
                    Ok(r) => {
                        assert(lex_from(s, p) == Ok::<Seq<(TokenV, int)>, int>(seq![(t, p)] + r));
                        assert(token_kinds(seq![(t, p)] + r) =~= seq![t] + token_kinds(r));
                    },
                    Err(x) => {
                        assert(lex_from(s, p) == Err::<Seq<(TokenV, int)>, int>(x));
                    },
                }
                match lex_kinds(s, e) {
                    Ok(x) => {
                        assert(seq![t] + (chunks_tokens(rest) + x) =~= chunks_tokens(cs) + x);
                    },
                    Err(_) => {},
                }
            },
        }
    }
}

pub proof fn lemma_wf_append(a: Seq<Chunk>, b: Seq<Chunk>)
    requires
        chunks_wf(a),
        chunks_wf(b),
        a.len() > 0 && b.len() > 0 ==> terminates(a.last(), chunk_bytes(b[0])[0]),
    ensures
        chunks_wf(a + b),
    decreases a.len(),
{
    if a.len() > 0 {
        assert((a + b).drop_first() =~= a.drop_first() + b);
        if a.len() > 1 {
            assert(a.drop_first().last() == a.last());
        }
        lemma_wf_append(a.drop_first(), b);
    } else {
        assert(a + b =~= b);
    }
}

pub proof fn lemma_tokens_append(a: Seq<Chunk>, b: Seq<Chunk>)
    ensures
        chunks_tokens(a + b) == chunks_tokens(a) + chunks_tokens(b),
    decreases a.len(),
{
    if a.len() > 0 {
        assert((a + b).drop_first() =~= a.drop_first() + b);
        lemma_tokens_append(a.drop_first(), b);
        assert(chunks_tokens(a + b) =~= chunks_tokens(a) + chunks_tokens(b));
    } else {
        assert(a + b =~= b);
        assert(chunks_tokens(a) + chunks_tokens(b) =~= chunks_tokens(b));
    }
}

pub open spec fn canvas_tokens(c: Canvas) -> Seq<TokenV> {
    seq![
        TokenV::Ident(ascii_bytes(w_canvas())),
        TokenV::Dimension(c.width, c.height),
        TokenV::At,
        TokenV::Fps(c.fps),
    ]
}

proof fn lemma_canvas_chunks(c: Canvas)
    ensures
        chunks_wf(canvas_chunks(c)),
        chunks_tokens(canvas_chunks(c)) == canvas_tokens(c),
{
    reveal_with_fuel(chunks_wf, 8);
    reveal_with_fuel(chunks_tokens, 8);
    let cs = canvas_chunks(c);
    lemma_decimal(c.width as nat);
    lemma_decimal(c.fps as nat);
    assert(chunks_wf(cs));
    assert(chunks_tokens(cs) =~= canvas_tokens(c));
}

// --------------------------------------------------------------------
// Tokens of each part of a document
// --------------------------------------------------------------------

pub open spec fn args_tokens(ns: Seq<Number>) -> Seq<TokenV>
    decreases ns.len(),
{
    if ns.len() == 0 {
        Seq::empty()
    } else if ns.len() == 1 {
        seq![TokenV::Number(ns[0])]
    } else {
        args_tokens(ns.drop_last()) + seq![TokenV::Comma, TokenV::Number(ns.last())]
    }
}

pub open spec fn call_tokens(name: Seq<char>, ns: Seq<Number>) -> Seq<TokenV> {
    seq![TokenV::Ident(ascii_bytes(name)), TokenV::LParen] + args_tokens(ns) + seq![TokenV::RParen]
}

pub open spec fn shape_args(s: Shape) -> (Seq<char>, Seq<Number>) {
    match s {
        Shape::Rect { x, y, w, h } => (w_rect(), seq![x, y, w, h]),
        Shape::Ellipse { cx, cy, rx, ry } => (w_ellipse(), seq![cx, cy, rx, ry]),
    }
}

pub open spec fn transform_args(t: Transform) -> (Seq<char>, Seq<Number>) {
    match t {
        Transform::Position(x, y) => (w_position(), seq![x, y]),
        Transform::Scale(v) => (w_scale(), seq![v]),
        Transform::Opacity(v) => (w_opacity(), seq![v]),
    }
}

pub open spec fn value_tokens(v: Value) -> Seq<TokenV> {
    match v {
        Value::Color(c) => seq![TokenV::HexColor(c)],
        Value::Absent => seq![TokenV::Ident(ascii_bytes(w_none()))],
    }
}

pub open spec fn transforms_tokens(ts: Seq<Transform>) -> Seq<TokenV>
    decreases ts.len(),
{
    if ts.len() == 0 {
        Seq::empty()
    } else if ts.len() == 1 {
        call_tokens(transform_args(ts[0]).0, transform_args(ts[0]).1)
    } else {
        transforms_tokens(ts.drop_last()) + seq![TokenV::Comma] + call_tokens(
            transform_args(ts.last()).0,
            transform_args(ts.last()).1,
        )
    }
}

pub open spec fn keyframe_tokens(k: KeyframeV) -> Seq<TokenV> {
    seq![TokenV::TimeMs(k.time_ms), TokenV::Arrow] + transforms_tokens(k.transforms)
}

pub open spec fn keyframes_tokens(ks: Seq<KeyframeV>) -> Seq<TokenV>
    decreases ks.len(),
{
    if ks.len() == 0 {
        Seq::empty()
    } else {
        keyframes_tokens(ks.drop_last()) + keyframe_tokens(ks.last())
    }
}

pub open spec fn animation_tokens(a: AnimationV) -> Seq<TokenV> {
    seq![
        TokenV::Ident(ascii_bytes(w_animate())),
        TokenV::Ident(ascii_bytes(a.target)),
        TokenV::LBrace,
    ] + keyframes_tokens(a.keyframes) + seq![
        TokenV::Ident(ascii_bytes(w_easing())),
        TokenV::Colon,
        TokenV::Ident(ascii_bytes(easing_name(a.easing))),
        TokenV::RBrace,
    ]
}

pub open spec fn statement_tokens(st: StatementV) -> Seq<TokenV> {
    match st {
        StatementV::Let { name, shape } => seq![
            TokenV::Ident(ascii_bytes(w_let())),
            TokenV::Ident(ascii_bytes(name)),
            TokenV::Equals,
        ] + call_tokens(shape_args(shape).0, shape_args(shape).1),
        StatementV::Assign { target, property, value } => seq![
            TokenV::Ident(ascii_bytes(target)),
            TokenV::Dot,
            TokenV::Ident(ascii_bytes(property_name(property))),
            TokenV::Equals,
        ] + value_tokens(value),
        StatementV::Animate(a) => animation_tokens(a),
    }
}

pub open spec fn statements_tokens(ss: Seq<StatementV>) -> Seq<TokenV>
    decreases ss.len(),
{
    if ss.len() == 0 {
        Seq::empty()
    } else {
        statements_tokens(ss.drop_last()) + statement_tokens(ss.last())
    }
}

pub open spec fn scene_tokens(sc: SceneV) -> Seq<TokenV> {
    seq![
        TokenV::Ident(ascii_bytes(w_scene())),
        TokenV::Ident(ascii_bytes(sc.name)),
        TokenV::LBrace,
        TokenV::Ident(ascii_bytes(w_duration())),
        TokenV::TimeMs(sc.duration_ms),
    ] + statements_tokens(sc.statements) + seq![TokenV::RBrace]
}

pub open spec fn scenes_tokens(ss: Seq<SceneV>) -> Seq<TokenV>
    decreases ss.len(),
{
    if ss.len() == 0 {
        Seq::empty()
    } else {
        scenes_tokens(ss.drop_last()) + scene_tokens(ss.last())
    }
}

pub open spec fn document_tokens(d: DocumentV) -> Seq<TokenV> {
    canvas_tokens(d.canvas) + scenes_tokens(d.scenes)
}

// --------------------------------------------------------------------
// Documents that the writer and parser agree on
// --------------------------------------------------------------------

pub open spec fn numbers_nonneg(ns: Seq<Number>) -> bool {
    forall|i: int| 0 <= i < ns.len() ==> (#[trigger] ns[i]).ten_thousandths >= 0
}

pub open spec fn keyframe_ok(k: KeyframeV) -> bool {
    &&& k.transforms.len() > 0
    &&& forall|i: int|
        0 <= i < k.transforms.len() ==> numbers_nonneg(#[trigger] transform_args(k.transforms[i]).1)
}

pub open spec fn animation_ok(a: AnimationV) -> bool {
    &&& is_identifier(a.target)
    &&& forall|i: int| 0 <= i < a.keyframes.len() ==> keyframe_ok(#[trigger] a.keyframes[i])
}

pub open spec fn statement_ok(st: StatementV) -> bool {
    match st {
        StatementV::Let { name, shape } => is_identifier(name) && numbers_nonneg(shape_args(shape).1),
        StatementV::Assign { target, .. } => is_identifier(target) && target != w_duration() && target
            != w_let() && target != w_animate(),
        StatementV::Animate(a) => animation_ok(a),
    }
}

pub open spec fn scene_ok(sc: SceneV) -> bool {
    &&& is_identifier(sc.name)
    &&& forall|i: int| 0 <= i < sc.statements.len() ==> statement_ok(#[trigger] sc.statements[i])
}

/// The documents that survive writing and parsing back: every name is an
/// identifier, no assignment targets a statement keyword (`duration`,
/// `let`, `animate`), no number is negative, and every keyframe has a
/// transform.
pub open spec fn writable(d: DocumentV) -> bool {
    forall|i: int| 0 <= i < d.scenes.len() ==> scene_ok(#[trigger] d.scenes[i])
}

// --------------------------------------------------------------------
// Chunks of each part: well formed, with the tokens above
// --------------------------------------------------------------------

proof fn lemma_args_chunks(ns: Seq<Number>)
    requires
        numbers_nonneg(ns),
    ensures
        chunks_wf(args_chunks(ns)),
        chunks_tokens(args_chunks(ns)) == args_tokens(ns),
        ns.len() > 0 ==> args_chunks(ns).len() > 0 && args_chunks(ns).last() is Num,
    decreases ns.len(),
{
    reveal_with_fuel(chunks_wf, 4);
    reveal_with_fuel(chunks_tokens, 4);
    if ns.len() == 1 {
        assert(chunks_tokens(args_chunks(ns)) =~= args_tokens(ns));
    } else if ns.len() > 1 {
        let init = ns.drop_last();
        assert(numbers_nonneg(init)) by {
            assert forall|i: int| 0 <= i < init.len() implies (#[trigger] init[i]).ten_thousandths >= 0 by {
                assert(init[i] == ns[i]);
            }
        }
        lemma_args_chunks(init);
        let tail = seq![Chunk::Punct(','), sp(), Chunk::Num(ns.last())];
        assert(chunks_wf(tail));
        assert(chunk_bytes(tail[0])[0] == 44);
        lemma_wf_append(args_chunks(init), tail);
        lemma_tokens_append(args_chunks(init), tail);
        assert(chunks_tokens(tail) =~= seq![TokenV::Comma, TokenV::Number(ns.last())]);
    }
}

proof fn lemma_call_chunks(name: Seq<char>, ns: Seq<Number>)
    requires
        is_identifier(name),
        numbers_nonneg(ns),
    ensures
        chunks_wf(call_chunks(name, ns)),
        chunks_tokens(call_chunks(name, ns)) == call_tokens(name, ns),
        call_chunks(name, ns).last() == Chunk::Punct(')'),
{
    reveal_with_fuel(chunks_wf, 3);
    reveal_with_fuel(chunks_tokens, 3);
    lemma_args_chunks(ns);
    let head = seq![Chunk::Word(name), Chunk::Punct('(')];
    let tail = seq![Chunk::Punct(')')];
    assert(chunks_wf(head));
    assert(chunks_wf(tail));
    lemma_wf_append(head, args_chunks(ns));
    lemma_wf_append(head + args_chunks(ns), tail);
    lemma_tokens_append(head, args_chunks(ns));
    lemma_tokens_append(head + args_chunks(ns), tail);
    assert(chunks_tokens(head) =~= seq![TokenV::Ident(ascii_bytes(name)), TokenV::LParen]);
    assert(chunks_tokens(tail) =~= seq![TokenV::RParen]);
}

proof fn lemma_keyword_identifiers()
    ensures
        is_identifier(w_canvas()),
        is_identifier(w_scene()),
        is_identifier(w_duration()),
        is_identifier(w_let()),
        is_identifier(w_animate()),
        is_identifier(w_easing()),
        is_identifier(w_rect()),
        is_identifier(w_ellipse()),
        is_identifier(w_position()),
        is_identifier(w_scale()),
        is_identifier(w_opacity()),
        is_identifier(w_none()),
        forall|p: crate::ast::Property| is_identifier(#[trigger] property_name(p)),
        forall|e: crate::ast::Easing| is_identifier(#[trigger] easing_name(e)),
{
}

proof fn lemma_shape_chunks(s: Shape)
    requires
        numbers_nonneg(shape_args(s).1),
    ensures
        shape_chunks(s) == call_chunks(shape_args(s).0, shape_args(s).1),
        chunks_wf(shape_chunks(s)),
        chunks_tokens(shape_chunks(s)) == call_tokens(shape_args(s).0, shape_args(s).1),
        shape_chunks(s).last() == Chunk::Punct(')'),
{
    lemma_keyword_identifiers();
    lemma_call_chunks(shape_args(s).0, shape_args(s).1);
}

proof fn lemma_transform_chunks(t: Transform)
    requires
        numbers_nonneg(transform_args(t).1),
    ensures
        transform_chunks(t) == call_chunks(transform_args(t).0, transform_args(t).1),
        chunks_wf(transform_chunks(t)),
        chunks_tokens(transform_chunks(t)) == call_tokens(transform_args(t).0, transform_args(t).1),
        transform_chunks(t).last() == Chunk::Punct(')'),
        transform_chunks(t)[0] is Word,
{
    lemma_keyword_identifiers();
    lemma_call_chunks(transform_args(t).0, transform_args(t).1);
}

proof fn lemma_last_of_append(a: Seq<Chunk>, b: Seq<Chunk>)
    requires
        b.len() > 0,
    ensures
        (a + b).last() == b.last(),
        (a + b).len() > 0,
{
}

proof fn lemma_transforms_chunks(ts: Seq<Transform>)
    requires
        forall|i: int| 0 <= i < ts.len() ==> numbers_nonneg(#[trigger] transform_args(ts[i]).1),
    ensures
        chunks_wf(transforms_chunks(ts)),
        chunks_tokens(transforms_chunks(ts)) == transforms_tokens(ts),
        ts.len() > 0 ==> transforms_chunks(ts).len() > 0 && transforms_chunks(ts).last() == Chunk::Punct(')'),
    decreases ts.len(),
{
    reveal_with_fuel(chunks_wf, 3);
    reveal_with_fuel(chunks_tokens, 3);
    if ts.len() == 1 {
        assert(numbers_nonneg(transform_args(ts[0]).1));
        lemma_transform_chunks(ts[0]);
    } else if ts.len() > 1 {
        let init = ts.drop_last();
        assert forall|i: int| 0 <= i < init.len() implies numbers_nonneg(#[trigger] transform_args(init[i]).1) by {
            assert(init[i] == ts[i]);
            assert(numbers_nonneg(transform_args(ts[i]).1));
        }
        lemma_transforms_chunks(init);
        assert(numbers_nonneg(transform_args(ts[ts.len() - 1]).1));
        lemma_transform_chunks(ts.last());
        let sep = seq![Chunk::Punct(','), sp()];
        assert(chunks_wf(sep));
        assert(chunks_tokens(sep) =~= seq![TokenV::Comma]);
        lemma_wf_append(transforms_chunks(init), sep);
        lemma_wf_append(transforms_chunks(init) + sep, transform_chunks(ts.last()));
        lemma_tokens_append(transforms_chunks(init), sep);
        lemma_tokens_append(transforms_chunks(init) + sep, transform_chunks(ts.last()));
        lemma_last_of_append(transforms_chunks(init) + sep, transform_chunks(ts.last()));
    }
}

proof fn lemma_keyframe_chunks(k: KeyframeV)
    requires
        keyframe_ok(k),
    ensures
        chunks_wf(keyframe_chunks(k)),
        chunks_tokens(keyframe_chunks(k)) == keyframe_tokens(k),
        keyframe_chunks(k).len() > 0,
        keyframe_chunks(k).last() == nl(),
{
    reveal_with_fuel(chunks_wf, 6);
    reveal_with_fuel(chunks_tokens, 6);
    lemma_transforms_chunks(k.transforms);
    let head = seq![pad(2), Chunk::Time(k.time_ms), sp(), Chunk::Arrow, sp()];
    let tail = seq![nl()];
    assert(chunks_wf(head));
    assert(chunks_wf(tail));
    assert(chunks_tokens(head) =~= seq![TokenV::TimeMs(k.time_ms), TokenV::Arrow]);
    assert(chunks_tokens(tail) =~= Seq::<TokenV>::empty());
    lemma_wf_append(head, transforms_chunks(k.transforms));
    lemma_wf_append(head + transforms_chunks(k.transforms), tail);
    lemma_tokens_append(head, transforms_chunks(k.transforms));
    lemma_tokens_append(head + transforms_chunks(k.transforms), tail);
    assert(keyframe_tokens(k) + Seq::<TokenV>::empty() =~= keyframe_tokens(k));
    lemma_last_of_append(head + transforms_chunks(k.transforms), tail);
}

proof fn lemma_keyframes_chunks(ks: Seq<KeyframeV>)
    requires
        forall|i: int| 0 <= i < ks.len() ==> keyframe_ok(#[trigger] ks[i]),
    ensures
        chunks_wf(keyframes_chunks(ks)),
        chunks_tokens(keyframes_chunks(ks)) == keyframes_tokens(ks),
        ks.len() > 0 ==> keyframes_chunks(ks).len() > 0 && keyframes_chunks(ks).last() == nl(),
    decreases ks.len(),
{
    if ks.len() > 0 {
        let init = ks.drop_last();
        assert forall|i: int| 0 <= i < init.len() implies keyframe_ok(#[trigger] init[i]) by {
            assert(init[i] == ks[i]);
        }
        lemma_keyframes_chunks(init);
        assert(keyframe_ok(ks[ks.len() - 1]));
        lemma_keyframe_chunks(ks.last());
        lemma_wf_append(keyframes_chunks(init), keyframe_chunks(ks.last()));
        lemma_tokens_append(keyframes_chunks(init), keyframe_chunks(ks.last()));
        lemma_last_of_append(keyframes_chunks(init), keyframe_chunks(ks.last()));
    }
}

pub open spec fn animation_head(a: AnimationV) -> Seq<Chunk> {
    seq![
        pad(1),
        Chunk::Word(w_animate()),
        sp(),
        Chunk::Word(a.target),
        sp(),
        Chunk::Punct('{'),
        nl(),
    ]
}

pub open spec fn animation_tail(a: AnimationV) -> Seq<Chunk> {
    seq![
        pad(2),
        Chunk::Word(w_easing()),
        Chunk::Punct(':'),
        sp(),
        Chunk::Word(easing_name(a.easing)),
        nl(),
        pad(1),
        Chunk::Punct('}'),
        nl(),
    ]
}

proof fn lemma_animation_head_tail(a: AnimationV)
    requires
        is_identifier(a.target),
    ensures
        chunks_wf(animation_head(a)),
        chunks_wf(animation_tail(a)),
        chunks_tokens(animation_head(a)) == seq![
            TokenV::Ident(ascii_bytes(w_animate())),
            TokenV::Ident(ascii_bytes(a.target)),
            TokenV::LBrace,
        ],
        chunks_tokens(animation_tail(a)) == seq![
            TokenV::Ident(ascii_bytes(w_easing())),
            TokenV::Colon,
            TokenV::Ident(ascii_bytes(easing_name(a.easing))),
            TokenV::RBrace,
        ],
        animation_tail(a).last() == nl(),
{
    reveal_with_fuel(chunks_wf, 10);
    reveal_with_fuel(chunks_tokens, 10);
    lemma_keyword_identifiers();
    assert(is_identifier(easing_name(a.easing)));
    assert(chunks_tokens(animation_head(a)) =~= seq![
        TokenV::Ident(ascii_bytes(w_animate())),
        TokenV::Ident(ascii_bytes(a.target)),
        TokenV::LBrace,
    ]);
    assert(chunks_tokens(animation_tail(a)) =~= seq![
        TokenV::Ident(ascii_bytes(w_easing())),
        TokenV::Colon,
        TokenV::Ident(ascii_bytes(easing_name(a.easing))),
        TokenV::RBrace,
    ]);
}

proof fn lemma_animation_chunks(a: AnimationV)
    requires
        animation_ok(a),
    ensures
        chunks_wf(animation_chunks(a)),
        chunks_tokens(animation_chunks(a)) == animation_tokens(a),
        animation_chunks(a).len() > 0,
        animation_chunks(a).last() == nl(),
{
    lemma_keyframes_chunks(a.keyframes);
    lemma_animation_head_tail(a);
    let head = animation_head(a);
    let tail = animation_tail(a);
    lemma_wf_append(head, keyframes_chunks(a.keyframes));
    lemma_wf_append(head + keyframes_chunks(a.keyframes), tail);
    lemma_tokens_append(head, keyframes_chunks(a.keyframes));
    lemma_tokens_append(head + keyframes_chunks(a.keyframes), tail);
    lemma_last_of_append(head + keyframes_chunks(a.keyframes), tail);
    assert(animation_chunks(a) == head + keyframes_chunks(a.keyframes) + tail);
}

pub open spec fn let_head(name: Seq<char>) -> Seq<Chunk> {
    seq![pad(1), Chunk::Word(w_let()), sp(), Chunk::Word(name), sp(), Chunk::Punct('='), sp()]
}

proof fn lemma_let_head(name: Seq<char>)
    requires
        is_identifier(name),
    ensures
        chunks_wf(let_head(name)),
        chunks_tokens(let_head(name)) == seq![
            TokenV::Ident(ascii_bytes(w_let())),
            TokenV::Ident(ascii_bytes(name)),
            TokenV::Equals,
        ],
        chunks_wf(seq![nl()]),
        chunks_tokens(seq![nl()]) == Seq::<TokenV>::empty(),
{
    reveal_with_fuel(chunks_wf, 8);
    reveal_with_fuel(chunks_tokens, 8);
    lemma_keyword_identifiers();
    assert(chunks_tokens(let_head(name)) =~= seq![
        TokenV::Ident(ascii_bytes(w_let())),
        TokenV::Ident(ascii_bytes(name)),
        TokenV::Equals,
    ]);
    assert(chunks_tokens(seq![nl()]) =~= Seq::<TokenV>::empty());
}

pub open spec fn assign_head(target: Seq<char>, property: crate::ast::Property) -> Seq<Chunk> {
    seq![
        pad(1),
        Chunk::Word(target),
        Chunk::Punct('.'),
        Chunk::Word(property_name(property)),
        sp(),
        Chunk::Punct('='),
        sp(),
    ]
}

proof fn lemma_assign_parts(target: Seq<char>, property: crate::ast::Property, value: Value)
    requires
        is_identifier(target),
    ensures
        chunks_wf(assign_head(target, property)),
        chunks_tokens(assign_head(target, property)) == seq![
            TokenV::Ident(ascii_bytes(target)),
            TokenV::Dot,
            TokenV::Ident(ascii_bytes(property_name(property))),
            TokenV::Equals,
        ],
        chunks_wf(value_chunks(value) + seq![nl()]),
        chunks_tokens(value_chunks(value) + seq![nl()]) == value_tokens(value),
{
    reveal_with_fuel(chunks_wf, 8);
    reveal_with_fuel(chunks_tokens, 8);
    lemma_keyword_identifiers();
    assert(is_identifier(property_name(property)));
    lemma_hex2(0);
    assert(chunks_tokens(assign_head(target, property)) =~= seq![
        TokenV::Ident(ascii_bytes(target)),
        TokenV::Dot,
        TokenV::Ident(ascii_bytes(property_name(property))),
        TokenV::Equals,
    ]);
    assert(chunks_tokens(value_chunks(value) + seq![nl()]) =~= value_tokens(value));
}

proof fn lemma_statement_chunks(st: StatementV)
    requires
        statement_ok(st),
    ensures
        chunks_wf(statement_chunks(st)),
        chunks_tokens(statement_chunks(st)) == statement_tokens(st),
        statement_chunks(st).len() > 0,
        statement_chunks(st).last() == nl(),
{
    match st {
        StatementV::Let { name, shape } => {
            lemma_shape_chunks(shape);
            lemma_let_head(name);
            let head = let_head(name);
            let tail = seq![nl()];
            lemma_wf_append(head, shape_chunks(shape));
            lemma_wf_append(head + shape_chunks(shape), tail);
            lemma_tokens_append(head, shape_chunks(shape));
            lemma_tokens_append(head + shape_chunks(shape), tail);
            lemma_last_of_append(head + shape_chunks(shape), tail);
            assert(statement_chunks(st) == head + shape_chunks(shape) + tail);
            assert(statement_tokens(st) + Seq::<TokenV>::empty() =~= statement_tokens(st));
        },
        StatementV::Assign { target, property, value } => {
            lemma_assign_parts(target, property, value);
            let head = assign_head(target, property);
            let tail = value_chunks(value) + seq![nl()];
            lemma_wf_append(head, tail);
            lemma_tokens_append(head, tail);
            assert(head + tail =~= statement_chunks(st));
            lemma_last_of_append(head, tail);
        },
        StatementV::Animate(a) => {
            lemma_animation_chunks(a);
        },
    }
}

proof fn lemma_statements_chunks(ss: Seq<StatementV>)
    requires
        forall|i: int| 0 <= i < ss.len() ==> statement_ok(#[trigger] ss[i]),
    ensures
        chunks_wf(statements_chunks(ss)),
        chunks_tokens(statements_chunks(ss)) == statements_tokens(ss),
        ss.len() > 0 ==> statements_chunks(ss).len() > 0 && statements_chunks(ss).last() == nl(),
    decreases ss.len(),
{
    reveal_with_fuel(chunks_wf, 2);
    reveal_with_fuel(chunks_tokens, 2);
    if ss.len() > 0 {
        let init = ss.drop_last();
        assert forall|i: int| 0 <= i < init.len() implies statement_ok(#[trigger] init[i]) by {
            assert(init[i] == ss[i]);
        }
        lemma_statements_chunks(init);
        assert(statement_ok(ss[ss.len() - 1]));
        lemma_statement_chunks(ss.last());
        let prev = if ss.len() >= 2 {
            Some(ss[ss.len() - 2])
        } else {
            None
        };
        let blank: Seq<Chunk> = if needs_blank_line(prev, ss.last()) {
            seq![nl()]
        } else {
            Seq::empty()
        };
        assert(chunks_wf(blank));
        assert(chunks_tokens(blank) =~= Seq::<TokenV>::empty());
        lemma_wf_append(statements_chunks(init), blank);
        lemma_wf_append(statements_chunks(init) + blank, statement_chunks(ss.last()));
        lemma_tokens_append(statements_chunks(init), blank);
        lemma_tokens_append(statements_chunks(init) + blank, statement_chunks(ss.last()));
        lemma_last_of_append(statements_chunks(init) + blank, statement_chunks(ss.last()));
        assert(chunks_tokens(statements_chunks(init)) + Seq::<TokenV>::empty() =~= chunks_tokens(
            statements_chunks(init),
        ));
    }
}

pub open spec fn scene_head(sc: SceneV) -> Seq<Chunk> {
    seq![
        Chunk::Word(w_scene()),
        sp(),
        Chunk::Word(sc.name),
        sp(),
        Chunk::Punct('{'),
        nl(),
        pad(1),
        Chunk::Word(w_duration()),
        sp(),
        Chunk::Time(sc.duration_ms),
        nl(),
    ]
}

proof fn lemma_scene_head(sc: SceneV)
    requires
        is_identifier(sc.name),
    ensures
        chunks_wf(scene_head(sc)),
        chunks_tokens(scene_head(sc)) == seq![
            TokenV::Ident(ascii_bytes(w_scene())),
            TokenV::Ident(ascii_bytes(sc.name)),
            TokenV::LBrace,
            TokenV::Ident(ascii_bytes(w_duration())),
            TokenV::TimeMs(sc.duration_ms),
        ],
        chunks_wf(seq![Chunk::Punct('}'), nl()]),
        chunks_tokens(seq![Chunk::Punct('}'), nl()]) == seq![TokenV::RBrace],
{
    reveal_with_fuel(chunks_wf, 12);
    reveal_with_fuel(chunks_tokens, 12);
    lemma_keyword_identifiers();
    assert(chunks_tokens(scene_head(sc)) =~= seq![
        TokenV::Ident(ascii_bytes(w_scene())),
        TokenV::Ident(ascii_bytes(sc.name)),
        TokenV::LBrace,
        TokenV::Ident(ascii_bytes(w_duration())),
        TokenV::TimeMs(sc.duration_ms),
    ]);
    assert(chunks_tokens(seq![Chunk::Punct('}'), nl()]) =~= seq![TokenV::RBrace]);
}

proof fn lemma_scene_chunks(sc: SceneV)
    requires
        scene_ok(sc),
    ensures
        chunks_wf(scene_chunks(sc)),
        chunks_tokens(scene_chunks(sc)) == scene_tokens(sc),
        scene_chunks(sc).len() > 0,
        scene_chunks(sc).last() == nl(),
{
    lemma_statements_chunks(sc.statements);
    lemma_scene_head(sc);
    let head = scene_head(sc);
    let tail = seq![Chunk::Punct('}'), nl()];
    lemma_wf_append(head, statements_chunks(sc.statements));
    lemma_wf_append(head + statements_chunks(sc.statements), tail);
    lemma_tokens_append(head, statements_chunks(sc.statements));
    lemma_tokens_append(head + statements_chunks(sc.statements), tail);
    lemma_last_of_append(head + statements_chunks(sc.statements), tail);
    assert(scene_chunks(sc) == head + statements_chunks(sc.statements) + tail);
}

proof fn lemma_scenes_chunks(ss: Seq<SceneV>)
    requires
        forall|i: int| 0 <= i < ss.len() ==> scene_ok(#[trigger] ss[i]),
    ensures
        chunks_wf(scenes_chunks(ss)),
        chunks_tokens(scenes_chunks(ss)) == scenes_tokens(ss),
        ss.len() > 0 ==> scenes_chunks(ss).len() > 0 && scenes_chunks(ss).last() == nl(),
    decreases ss.len(),
{
    reveal_with_fuel(chunks_wf, 2);
    reveal_with_fuel(chunks_tokens, 2);
    if ss.len() > 0 {
        let init = ss.drop_last();
        assert forall|i: int| 0 <= i < init.len() implies scene_ok(#[trigger] init[i]) by {
            assert(init[i] == ss[i]);
        }
        lemma_scenes_chunks(init);
        assert(scene_ok(ss[ss.len() - 1]));
        lemma_scene_chunks(ss.last());
        let sep = seq![nl()];
        assert(chunks_wf(sep));
        assert(chunks_tokens(sep) =~= Seq::<TokenV>::empty());
        lemma_wf_append(scenes_chunks(init), sep);
        lemma_wf_append(scenes_chunks(init) + sep, scene_chunks(ss.last()));
        lemma_tokens_append(scenes_chunks(init), sep);
        lemma_tokens_append(scenes_chunks(init) + sep, scene_chunks(ss.last()));
        lemma_last_of_append(scenes_chunks(init) + sep, scene_chunks(ss.last()));
        assert(chunks_tokens(scenes_chunks(init)) + Seq::<TokenV>::empty() =~= chunks_tokens(
            scenes_chunks(init),
        ));
    }
}

proof fn lemma_document_chunks(d: DocumentV)
    requires
        writable(d),
    ensures
        chunks_wf(document_chunks(d)),
        chunks_tokens(document_chunks(d)) == document_tokens(d),
        document_chunks(d).len() > 0,
        document_chunks(d).last() is Space,
{
    lemma_canvas_chunks(d.canvas);
    lemma_scenes_chunks(d.scenes);
    lemma_wf_append(canvas_chunks(d.canvas), scenes_chunks(d.scenes));
    lemma_tokens_append(canvas_chunks(d.canvas), scenes_chunks(d.scenes));
    if d.scenes.len() > 0 {
        lemma_last_of_append(canvas_chunks(d.canvas), scenes_chunks(d.scenes));
    } else {
        assert(document_chunks(d) =~= canvas_chunks(d.canvas));
    }
}

// --------------------------------------------------------------------
// Each part's tokens parse back to the part
// --------------------------------------------------------------------

/// Tokens `ts[i..i+t.len()]` equal `t`.
pub open spec fn tokens_at(ts: Seq<TokenV>, i: int, t: Seq<TokenV>) -> bool {
    &&& 0 <= i
    &&& i + t.len() <= ts.len()
    &&& ts.subrange(i, i + t.len()) == t
}

proof fn lemma_tokens_at_split(ts: Seq<TokenV>, i: int, t1: Seq<TokenV>, t2: Seq<TokenV>)
    requires
        tokens_at(ts, i, t1 + t2),
    ensures
        tokens_at(ts, i, t1),
        tokens_at(ts, i + t1.len(), t2),
{
    let whole = ts.subrange(i, i + t1.len() + t2.len());
    assert forall|k: int| 0 <= k < t1.len() implies ts.subrange(i, i + t1.len())[k] == t1[k] by {
        assert(whole[k] == (t1 + t2)[k]);
    }
    assert forall|k: int| 0 <= k < t2.len() implies ts.subrange(
        i + t1.len(),
        i + t1.len() + t2.len(),
    )[k] == t2[k] by {
        assert(whole[t1.len() + k] == (t1 + t2)[t1.len() + k]);
    }
    assert(ts.subrange(i, i + t1.len()) =~= t1);
    assert(ts.subrange(i + t1.len(), i + t1.len() + t2.len()) =~= t2);
}

proof fn lemma_tokens_at_index(ts: Seq<TokenV>, i: int, t: Seq<TokenV>, k: int)
    requires
        tokens_at(ts, i, t),
        0 <= k < t.len(),
    ensures
        tok(ts, i + k) == t[k],
{
    assert(ts.subrange(i, i + t.len())[k] == ts[i + k]);
}

proof fn lemma_args_tokens_shape(ns: Seq<Number>)
    requires
        ns.len() >= 1,
    ensures
        args_tokens(ns).len() == 2 * ns.len() - 1,
        forall|j: int| 0 <= j < ns.len() ==> #[trigger] args_tokens(ns)[2 * j] == TokenV::Number(ns[j]),
        forall|j: int| 0 <= j < ns.len() - 1 ==> #[trigger] args_tokens(ns)[2 * j + 1] == TokenV::Comma,
    decreases ns.len(),
{
    if ns.len() > 1 {
        let init = ns.drop_last();
        lemma_args_tokens_shape(init);
        let a = args_tokens(ns);
        assert forall|j: int| 0 <= j < ns.len() implies #[trigger] a[2 * j] == TokenV::Number(ns[j]) by {
            if j < ns.len() - 1 {
                assert(a[2 * j] == args_tokens(init)[2 * j]);
                assert(init[j] == ns[j]);
            }
        }
        assert forall|j: int| 0 <= j < ns.len() - 1 implies #[trigger] a[2 * j + 1] == TokenV::Comma by {
            if j < ns.len() - 2 {
                assert(a[2 * j + 1] == args_tokens(init)[2 * j + 1]);
            }
        }
    }
}

proof fn lemma_p_number_tail(ts: Seq<TokenV>, i: int, ns: Seq<Number>, k: int)
    requires
        1 <= k <= ns.len(),
        tokens_at(ts, i, args_tokens(ns)),
        !(tok(ts, i + 2 * ns.len() - 1) is Comma),
    ensures
        p_number_tail(ts, i + 2 * k - 1, ns.take(k)) == Ok::<(Seq<Number>, int), int>(
            (ns, i + 2 * ns.len() - 1),
        ),
    decreases ns.len() - k,
{
    lemma_args_tokens_shape(ns);
    if k == ns.len() {
        assert(ns.take(k) =~= ns);
    } else {
        lemma_tokens_at_index(ts, i, args_tokens(ns), 2 * k - 1);
        assert(args_tokens(ns)[2 * (k - 1) + 1] == TokenV::Comma);
        lemma_tokens_at_index(ts, i, args_tokens(ns), 2 * k);
        assert(args_tokens(ns)[2 * k] == TokenV::Number(ns[k]));
        assert(ns.take(k).push(ns[k]) =~= ns.take(k + 1));
        lemma_p_number_tail(ts, i, ns, k + 1);
    }
}

proof fn lemma_p_call(ts: Seq<TokenV>, i: int, name: Seq<char>, ns: Seq<Number>)
    requires
        ns.len() >= 1,
        tokens_at(ts, i, call_tokens(name, ns)),
    ensures
        p_call(ts, i) == Ok::<(Seq<u8>, Seq<Number>, int), int>(
            (ascii_bytes(name), ns, i + call_tokens(name, ns).len()),
        ),
{
    let head = seq![TokenV::Ident(ascii_bytes(name)), TokenV::LParen];
    let args = args_tokens(ns);
    let tail = seq![TokenV::RParen];
    lemma_tokens_at_split(ts, i, head + args, tail);
    lemma_tokens_at_split(ts, i, head, args);
    lemma_tokens_at_index(ts, i, head, 0);
    lemma_tokens_at_index(ts, i, head, 1);
    lemma_tokens_at_index(ts, i + 2 + args.len(), tail, 0);
    lemma_args_tokens_shape(ns);
    lemma_tokens_at_index(ts, i + 2, args, 0);
    assert(tok(ts, i + 2 + 2 * ns.len() - 1) == TokenV::RParen);
    lemma_p_number_tail(ts, i + 2, ns, 1);
    assert(ns.take(1) =~= seq![ns[0]]);
    assert(args_tokens(ns)[2 * 0int] == TokenV::Number(ns[0]));
    assert(tok(ts, i + 2) == TokenV::Number(ns[0]));
    assert(p_number_list(ts, i + 2) == p_number_tail(ts, i + 3, seq![ns[0]]));
    assert(p_number_list(ts, i + 2) == Ok::<(Seq<Number>, int), int>((ns, i + 2 + args.len())));
}

proof fn lemma_keyword_bytes()
    ensures
        ascii_bytes(w_rect()) == kw_rect(),
        ascii_bytes(w_ellipse()) == kw_ellipse(),
        ascii_bytes(w_position()) == kw_position(),
        ascii_bytes(w_scale()) == kw_scale(),
        ascii_bytes(w_opacity()) == kw_opacity(),
        ascii_bytes(w_none()) == kw_none(),
        ascii_bytes(w_easing()) == kw_easing(),
        ascii_bytes(w_duration()) == kw_duration(),
        ascii_bytes(w_let()) == kw_let(),
        ascii_bytes(w_animate()) == kw_animate(),
        ascii_bytes(w_scene()) == kw_scene(),
        ascii_bytes(w_canvas()) == kw_canvas(),
        kw_rect() != kw_ellipse(),
        kw_position() != kw_scale(),
        kw_position() != kw_opacity(),
        kw_scale() != kw_opacity(),
        kw_duration() != kw_let(),
        kw_duration() != kw_animate(),
        kw_let() != kw_animate(),
{
    assert(kw_rect().len() != kw_ellipse().len());
    assert(kw_position().len() != kw_scale().len());
    assert(kw_position().len() != kw_opacity().len());
    assert(kw_scale().len() != kw_opacity().len());
    assert(kw_duration().len() != kw_let().len());
    assert(kw_duration().len() != kw_animate().len());
    assert(kw_let().len() != kw_animate().len());
}

proof fn lemma_p_shape(ts: Seq<TokenV>, i: int, sh: Shape)
    requires
        tokens_at(ts, i, call_tokens(shape_args(sh).0, shape_args(sh).1)),
    ensures
        p_shape(ts, i) == Ok::<(Shape, int), int>(
            (sh, i + call_tokens(shape_args(sh).0, shape_args(sh).1).len()),
        ),
{
    lemma_keyword_bytes();
    lemma_p_call(ts, i, shape_args(sh).0, shape_args(sh).1);
}

proof fn lemma_p_transform(ts: Seq<TokenV>, i: int, t: Transform)
    requires
        tokens_at(ts, i, call_tokens(transform_args(t).0, transform_args(t).1)),
    ensures
        p_transform(ts, i) == Ok::<(Transform, int), int>(
            (t, i + call_tokens(transform_args(t).0, transform_args(t).1).len()),
        ),
{
    lemma_keyword_bytes();
    lemma_p_call(ts, i, transform_args(t).0, transform_args(t).1);
}

proof fn lemma_tokens_at_prefix(ts: Seq<TokenV>, i: int, t: Seq<TokenV>, m: int)
    requires
        tokens_at(ts, i, t),
        0 <= m <= t.len(),
    ensures
        tokens_at(ts, i, t.subrange(0, m)),
{
    assert(t =~= t.subrange(0, m) + t.subrange(m, t.len() as int));
    lemma_tokens_at_split(ts, i, t.subrange(0, m), t.subrange(m, t.len() as int));
}

proof fn lemma_transforms_prefix(all: Seq<Transform>, k: int)
    requires
        1 <= k <= all.len(),
    ensures
        transforms_tokens(all.take(k)).len() <= transforms_tokens(all).len(),
        transforms_tokens(all).subrange(0, transforms_tokens(all.take(k)).len() as int)
            == transforms_tokens(all.take(k)),
        k < all.len() ==> transforms_tokens(all.take(k + 1)) == transforms_tokens(all.take(k))
            + seq![TokenV::Comma] + call_tokens(transform_args(all[k]).0, transform_args(all[k]).1),
    decreases all.len() - k,
{
    if k == all.len() {
        assert(all.take(k) =~= all);
        assert(transforms_tokens(all).subrange(0, transforms_tokens(all).len() as int)
            =~= transforms_tokens(all));
    } else {
        lemma_transforms_prefix(all, k + 1);
        let t = all.take(k + 1);
        assert(t.drop_last() =~= all.take(k));
        assert(t.last() == all[k]);
        let big = transforms_tokens(all);
        let mid = transforms_tokens(t);
        let small = transforms_tokens(all.take(k));
        assert(big.subrange(0, small.len() as int) =~= small) by {
            assert forall|j: int| 0 <= j < small.len() implies big[j] == small[j] by {
                assert(big.subrange(0, mid.len() as int)[j] == mid[j]);
            }
        }
    }
}

proof fn lemma_p_transform_tail(ts: Seq<TokenV>, i: int, all: Seq<Transform>, k: int)
    requires
        1 <= k <= all.len(),
        tokens_at(ts, i, transforms_tokens(all)),
        !(tok(ts, i + transforms_tokens(all).len()) is Comma),
    ensures
        p_transform_tail(ts, i + transforms_tokens(all.take(k)).len(), all.take(k)) == Ok::<
            (Seq<Transform>, int),
            int,
        >((all, i + transforms_tokens(all).len())),
    decreases all.len() - k,
{
    lemma_transforms_prefix(all, k);
    if k == all.len() {
        assert(all.take(k) =~= all);
    } else {
        lemma_transforms_prefix(all, k + 1);
        let small = transforms_tokens(all.take(k));
        let call = call_tokens(transform_args(all[k]).0, transform_args(all[k]).1);
        let mid = transforms_tokens(all.take(k + 1));
        lemma_tokens_at_prefix(ts, i, transforms_tokens(all), mid.len() as int);
        lemma_tokens_at_split(ts, i, small + seq![TokenV::Comma], call);
        lemma_tokens_at_split(ts, i, small, seq![TokenV::Comma]);
        lemma_tokens_at_index(ts, i + small.len(), seq![TokenV::Comma], 0);
        lemma_p_transform(ts, i + small.len() + 1, all[k]);
        assert(all.take(k).push(all[k]) =~= all.take(k + 1));
        lemma_p_transform_tail(ts, i, all, k + 1);
    }
}

proof fn lemma_p_keyframe(ts: Seq<TokenV>, i: int, kf: KeyframeV)
    requires
        kf.transforms.len() > 0,
        tokens_at(ts, i, keyframe_tokens(kf)),
        !(tok(ts, i + keyframe_tokens(kf).len()) is Comma),
    ensures
        p_keyframe(ts, i) == Ok::<(KeyframeV, int), int>((kf, i + keyframe_tokens(kf).len())),
{
    let all = kf.transforms;
    let head = seq![TokenV::TimeMs(kf.time_ms), TokenV::Arrow];
    lemma_tokens_at_split(ts, i, head, transforms_tokens(all));
    lemma_tokens_at_index(ts, i, head, 0);
    lemma_tokens_at_index(ts, i, head, 1);
    lemma_transforms_prefix(all, 1);
    let first = transforms_tokens(all.take(1));
    assert(all.take(1) =~= seq![all[0]]);
    assert(first == call_tokens(transform_args(all[0]).0, transform_args(all[0]).1));
    lemma_tokens_at_prefix(ts, i + 2, transforms_tokens(all), first.len() as int);
    lemma_p_transform(ts, i + 2, all[0]);
    lemma_p_transform_tail(ts, i + 2, all, 1);
}

proof fn lemma_keyframes_prefix(all: Seq<KeyframeV>, k: int)
    requires
        0 <= k <= all.len(),
    ensures
        keyframes_tokens(all.take(k)).len() <= keyframes_tokens(all).len(),
        keyframes_tokens(all).subrange(0, keyframes_tokens(all.take(k)).len() as int)
            == keyframes_tokens(all.take(k)),
        k < all.len() ==> keyframes_tokens(all.take(k + 1)) == keyframes_tokens(all.take(k))
            + keyframe_tokens(all[k]),
    decreases all.len() - k,
{
    if k == all.len() {
        assert(all.take(k) =~= all);
        assert(keyframes_tokens(all).subrange(0, keyframes_tokens(all).len() as int)
            =~= keyframes_tokens(all));
    } else {
        lemma_keyframes_prefix(all, k + 1);
        let t = all.take(k + 1);
        assert(t.drop_last() =~= all.take(k));
        assert(t.last() == all[k]);
        let big = keyframes_tokens(all);
        let mid = keyframes_tokens(t);
        let small = keyframes_tokens(all.take(k));
        assert(big.subrange(0, small.len() as int) =~= small) by {
            assert forall|j: int| 0 <= j < small.len() implies big[j] == small[j] by {
                assert(big.subrange(0, mid.len() as int)[j] == mid[j]);
            }
        }
    }
}

pub open spec fn easing_tail_tokens(e: crate::ast::Easing) -> Seq<TokenV> {
    seq![
        TokenV::Ident(ascii_bytes(w_easing())),
        TokenV::Colon,
        TokenV::Ident(ascii_bytes(easing_name(e))),
        TokenV::RBrace,
    ]
}

proof fn lemma_easing_names(e: crate::ast::Easing)
    ensures
        crate::ast::easing_from_name(ascii_chars(ascii_bytes(easing_name(e)))) == Some(e),
{
    lemma_keyword_identifiers();
    lemma_ascii_round_trip(easing_name(e));
    assert(easing_name(crate::ast::Easing::Linear).len() == 6);
    assert(easing_name(crate::ast::Easing::EaseIn).len() == 7);
    assert(easing_name(crate::ast::Easing::EaseOut).len() == 8);
    assert(easing_name(crate::ast::Easing::EaseInOut).len() == 11);
}

proof fn lemma_p_animate_body(ts: Seq<TokenV>, i: int, a: AnimationV, k: int)
    requires
        0 <= k <= a.keyframes.len(),
        forall|j: int| 0 <= j < a.keyframes.len() ==> (#[trigger] a.keyframes[j]).transforms.len() > 0,
        tokens_at(ts, i, keyframes_tokens(a.keyframes) + easing_tail_tokens(a.easing)),
    ensures
        p_animate_body(
            ts,
            i + keyframes_tokens(a.keyframes.take(k)).len(),
            a.keyframes.take(k),
            crate::ast::Easing::Linear,
        ) == Ok::<(Seq<KeyframeV>, crate::ast::Easing, int), int>(
            (a.keyframes, a.easing, i + keyframes_tokens(a.keyframes).len() + 4),
        ),
    decreases a.keyframes.len() - k,
{
    let all = a.keyframes;
    let kt = keyframes_tokens(all);
    let et = easing_tail_tokens(a.easing);
    lemma_tokens_at_split(ts, i, kt, et);
    lemma_keyframes_prefix(all, k);
    lemma_keyword_bytes();
    if k == all.len() {
        assert(all.take(k) =~= all);
        let p = i + kt.len();
        lemma_tokens_at_index(ts, p, et, 0);
        lemma_tokens_at_index(ts, p, et, 1);
        lemma_tokens_at_index(ts, p, et, 2);
        lemma_tokens_at_index(ts, p, et, 3);
        lemma_easing_names(a.easing);
        assert(p_animate_body(ts, p + 3, all, a.easing) == Ok::<
            (Seq<KeyframeV>, crate::ast::Easing, int),
            int,
        >((all, a.easing, p + 4)));
    } else {
        lemma_keyframes_prefix(all, k + 1);
        let small = keyframes_tokens(all.take(k));
        let one = keyframe_tokens(all[k]);
        let mid = keyframes_tokens(all.take(k + 1));
        lemma_tokens_at_prefix(ts, i, kt, mid.len() as int);
        lemma_tokens_at_split(ts, i, small, one);
        lemma_tokens_at_index(ts, i + small.len(), one, 0);
        // The token after this keyframe: the next keyframe's time, or `easing`.
        if k + 1 < all.len() {
            lemma_keyframes_prefix(all, k + 2);
            let next = keyframes_tokens(all.take(k + 2));
            lemma_tokens_at_prefix(ts, i, kt, next.len() as int);
            lemma_tokens_at_split(ts, i, mid, keyframe_tokens(all[k + 1]));
            lemma_tokens_at_index(ts, i + mid.len(), keyframe_tokens(all[k + 1]), 0);
        } else {
            assert(all.take(k + 1) =~= all);
            lemma_tokens_at_index(ts, i + kt.len(), et, 0);
        }
        lemma_p_keyframe(ts, i + small.len(), all[k]);
        assert(all.take(k).push(all[k]) =~= all.take(k + 1));
        lemma_p_animate_body(ts, i, a, k + 1);
    }
}

proof fn lemma_p_animate(ts: Seq<TokenV>, i: int, a: AnimationV)
    requires
        animation_ok(a),
        tokens_at(ts, i, animation_tokens(a)),
    ensures
        p_animate(ts, i + 1) == Ok::<(AnimationV, int), int>((a, i + animation_tokens(a).len())),
{
    let head = seq![
        TokenV::Ident(ascii_bytes(w_animate())),
        TokenV::Ident(ascii_bytes(a.target)),
        TokenV::LBrace,
    ];
    let body = keyframes_tokens(a.keyframes) + easing_tail_tokens(a.easing);
    assert(animation_tokens(a) =~= head + body);
    lemma_tokens_at_split(ts, i, head, body);
    lemma_tokens_at_index(ts, i, head, 1);
    lemma_tokens_at_index(ts, i, head, 2);
    assert forall|j: int| 0 <= j < a.keyframes.len() implies (#[trigger] a.keyframes[j]).transforms.len() > 0 by {
        assert(keyframe_ok(a.keyframes[j]));
    }
    lemma_p_animate_body(ts, i + 3, a, 0);
    assert(a.keyframes.take(0) =~= Seq::<KeyframeV>::empty());
    assert(keyframes_tokens(Seq::<KeyframeV>::empty()).len() == 0);
    lemma_ascii_round_trip(a.target);
}

proof fn lemma_property_names(p: crate::ast::Property)
    ensures
        crate::ast::property_from_name(ascii_chars(ascii_bytes(property_name(p)))) == Some(p),
{
    lemma_keyword_identifiers();
    lemma_ascii_round_trip(property_name(p));
    assert(property_name(crate::ast::Property::Fill).len() == 4);
    assert(property_name(crate::ast::Property::Stroke).len() == 6);
}

/// A statement's tokens, at the start of a scene statement, parse to it.
proof fn lemma_p_statement(
    ts: Seq<TokenV>,
    i: int,
    st: StatementV,
    duration: Option<u32>,
    acc: Seq<StatementV>,
)
    requires
        statement_ok(st),
        tokens_at(ts, i, statement_tokens(st)),
    ensures
        p_scene_body(ts, i, duration, acc) == p_scene_body(
            ts,
            i + statement_tokens(st).len(),
            duration,
            acc.push(st),
        ),
{
    lemma_keyword_bytes();
    lemma_keyword_identifiers();
    match st {
        StatementV::Let { name, shape } => {
            let head = seq![
                TokenV::Ident(ascii_bytes(w_let())),
                TokenV::Ident(ascii_bytes(name)),
                TokenV::Equals,
            ];
            let call = call_tokens(shape_args(shape).0, shape_args(shape).1);
            lemma_tokens_at_split(ts, i, head, call);
            lemma_tokens_at_index(ts, i, head, 0);
            lemma_tokens_at_index(ts, i, head, 1);
            lemma_tokens_at_index(ts, i, head, 2);
            lemma_p_shape(ts, i + 3, shape);
            lemma_ascii_round_trip(name);
            assert(p_let(ts, i + 1) == Ok::<(StatementV, int), int>(
                (st, i + statement_tokens(st).len()),
            ));
        },
        StatementV::Assign { target, property, value } => {
            let head = seq![
                TokenV::Ident(ascii_bytes(target)),
                TokenV::Dot,
                TokenV::Ident(ascii_bytes(property_name(property))),
                TokenV::Equals,
            ];
            lemma_tokens_at_split(ts, i, head, value_tokens(value));
            lemma_tokens_at_index(ts, i, head, 0);
            lemma_tokens_at_index(ts, i, head, 1);
            lemma_tokens_at_index(ts, i, head, 2);
            lemma_tokens_at_index(ts, i, head, 3);
            lemma_tokens_at_index(ts, i + 4, value_tokens(value), 0);
            lemma_property_names(property);
            lemma_ascii_round_trip(target);
            lemma_ascii_round_trip(w_duration());
            lemma_ascii_round_trip(w_let());
            lemma_ascii_round_trip(w_animate());
            assert(ascii_bytes(target) != kw_duration());
            assert(ascii_bytes(target) != kw_let());
            assert(ascii_bytes(target) != kw_animate());
            assert(p_value(ts, i + 4) == Ok::<(Value, int), int>((value, i + 5)));
            assert(p_assign(ts, i) == Ok::<(StatementV, int), int>(
                (st, i + statement_tokens(st).len()),
            ));
        },
        StatementV::Animate(a) => {
            lemma_p_animate(ts, i, a);
            lemma_tokens_at_index(ts, i, animation_tokens(a), 0);
        },
    }
}

proof fn lemma_statements_prefix(all: Seq<StatementV>, k: int)
    requires
        0 <= k <= all.len(),
    ensures
        statements_tokens(all.take(k)).len() <= statements_tokens(all).len(),
        statements_tokens(all).subrange(0, statements_tokens(all.take(k)).len() as int)
            == statements_tokens(all.take(k)),
        k < all.len() ==> statements_tokens(all.take(k + 1)) == statements_tokens(all.take(k))
            + statement_tokens(all[k]),
    decreases all.len() - k,
{
    if k == all.len() {
        assert(all.take(k) =~= all);
        assert(statements_tokens(all).subrange(0, statements_tokens(all).len() as int)
            =~= statements_tokens(all));
    } else {
        lemma_statements_prefix(all, k + 1);
        let t = all.take(k + 1);
        assert(t.drop_last() =~= all.take(k));
        assert(t.last() == all[k]);
        let big = statements_tokens(all);
        let mid = statements_tokens(t);
        let small = statements_tokens(all.take(k));
        assert(big.subrange(0, small.len() as int) =~= small) by {
            assert forall|j: int| 0 <= j < small.len() implies big[j] == small[j] by {
                assert(big.subrange(0, mid.len() as int)[j] == mid[j]);
            }
        }
    }
}

proof fn lemma_p_scene_body(ts: Seq<TokenV>, i: int, sc: SceneV, k: int)
    requires
        0 <= k <= sc.statements.len(),
        forall|j: int| 0 <= j < sc.statements.len() ==> statement_ok(#[trigger] sc.statements[j]),
        tokens_at(ts, i, statements_tokens(sc.statements) + seq![TokenV::RBrace]),
    ensures
        p_scene_body(
            ts,
            i + statements_tokens(sc.statements.take(k)).len(),
            Some(sc.duration_ms),
            sc.statements.take(k),
        ) == Ok::<(Option<u32>, Seq<StatementV>, int), int>(
            (Some(sc.duration_ms), sc.statements, i + statements_tokens(sc.statements).len() + 1),
        ),
    decreases sc.statements.len() - k,
{
    let all = sc.statements;
    let st = statements_tokens(all);
    lemma_tokens_at_split(ts, i, st, seq![TokenV::RBrace]);
    lemma_statements_prefix(all, k);
    if k == all.len() {
        assert(all.take(k) =~= all);
        lemma_tokens_at_index(ts, i + st.len(), seq![TokenV::RBrace], 0);
    } else {
        lemma_statements_prefix(all, k + 1);
        let small = statements_tokens(all.take(k));
        let one = statement_tokens(all[k]);
        let mid = statements_tokens(all.take(k + 1));
        lemma_tokens_at_prefix(ts, i, st, mid.len() as int);
        lemma_tokens_at_split(ts, i, small, one);
        lemma_p_statement(ts, i + small.len(), all[k], Some(sc.duration_ms), all.take(k));
        assert(all.take(k).push(all[k]) =~= all.take(k + 1));
        lemma_p_scene_body(ts, i, sc, k + 1);
    }
}

proof fn lemma_p_scene(ts: Seq<TokenV>, i: int, sc: SceneV)
    requires
        scene_ok(sc),
        tokens_at(ts, i, scene_tokens(sc)),
    ensures
        p_scene(ts, i) == Ok::<(SceneV, int), int>((sc, i + scene_tokens(sc).len())),
{
    lemma_keyword_bytes();
    let head = seq![
        TokenV::Ident(ascii_bytes(w_scene())),
        TokenV::Ident(ascii_bytes(sc.name)),
        TokenV::LBrace,
        TokenV::Ident(ascii_bytes(w_duration())),
        TokenV::TimeMs(sc.duration_ms),
    ];
    let rest = statements_tokens(sc.statements) + seq![TokenV::RBrace];
    assert(scene_tokens(sc) =~= head + rest);
    lemma_tokens_at_split(ts, i, head, rest);
    lemma_tokens_at_index(ts, i, head, 0);
    lemma_tokens_at_index(ts, i, head, 1);
    lemma_tokens_at_index(ts, i, head, 2);
    lemma_tokens_at_index(ts, i, head, 3);
    lemma_tokens_at_index(ts, i, head, 4);
    lemma_p_scene_body(ts, i + 5, sc, 0);
    assert(sc.statements.take(0) =~= Seq::<StatementV>::empty());
    assert(statements_tokens(Seq::<StatementV>::empty()).len() == 0);
    lemma_ascii_round_trip(sc.name);
}

proof fn lemma_scenes_prefix(all: Seq<SceneV>, k: int)
    requires
        0 <= k <= all.len(),
    ensures
        scenes_tokens(all.take(k)).len() <= scenes_tokens(all).len(),
        scenes_tokens(all).subrange(0, scenes_tokens(all.take(k)).len() as int) == scenes_tokens(
            all.take(k),
        ),
        k < all.len() ==> scenes_tokens(all.take(k + 1)) == scenes_tokens(all.take(k))
            + scene_tokens(all[k]),
    decreases all.len() - k,
{
    if k == all.len() {
        assert(all.take(k) =~= all);
        assert(scenes_tokens(all).subrange(0, scenes_tokens(all).len() as int) =~= scenes_tokens(
            all,
        ));
    } else {
        lemma_scenes_prefix(all, k + 1);
        let t = all.take(k + 1);
        assert(t.drop_last() =~= all.take(k));
        assert(t.last() == all[k]);
        let big = scenes_tokens(all);
        let mid = scenes_tokens(t);
        let small = scenes_tokens(all.take(k));
        assert(big.subrange(0, small.len() as int) =~= small) by {
            assert forall|j: int| 0 <= j < small.len() implies big[j] == small[j] by {
                assert(big.subrange(0, mid.len() as int)[j] == mid[j]);
            }
        }
    }
}

proof fn lemma_p_scenes(ts: Seq<TokenV>, i: int, ss: Seq<SceneV>, k: int)
    requires
        0 <= k <= ss.len(),
        forall|j: int| 0 <= j < ss.len() ==> scene_ok(#[trigger] ss[j]),
        tokens_at(ts, i, scenes_tokens(ss) + seq![TokenV::Eof]),
    ensures
        p_scenes(ts, i + scenes_tokens(ss.take(k)).len(), ss.take(k)) == Ok::<Seq<SceneV>, int>(ss),
    decreases ss.len() - k,
{
    let all_t = scenes_tokens(ss);
    lemma_tokens_at_split(ts, i, all_t, seq![TokenV::Eof]);
    lemma_scenes_prefix(ss, k);
    if k == ss.len() {
        assert(ss.take(k) =~= ss);
        lemma_tokens_at_index(ts, i + all_t.len(), seq![TokenV::Eof], 0);
    } else {
        lemma_scenes_prefix(ss, k + 1);
        let small = scenes_tokens(ss.take(k));
        let one = scene_tokens(ss[k]);
        let mid = scenes_tokens(ss.take(k + 1));
        lemma_tokens_at_prefix(ts, i, all_t, mid.len() as int);
        lemma_tokens_at_split(ts, i, small, one);
        lemma_tokens_at_index(ts, i + small.len(), one, 0);
        lemma_p_scene(ts, i + small.len(), ss[k]);
        assert(ss.take(k).push(ss[k]) =~= ss.take(k + 1));
        lemma_p_scenes(ts, i, ss, k + 1);
    }
}

proof fn lemma_p_canvas(ts: Seq<TokenV>, c: Canvas)
    requires
        tokens_at(ts, 0, canvas_tokens(c)),
    ensures
        p_canvas(ts, 0) == Ok::<(Canvas, int), int>((c, 4)),
{
    lemma_keyword_bytes();
    let ct = canvas_tokens(c);
    lemma_tokens_at_index(ts, 0, ct, 0);
    lemma_tokens_at_index(ts, 0, ct, 1);
    lemma_tokens_at_index(ts, 0, ct, 2);
    lemma_tokens_at_index(ts, 0, ct, 3);
    assert(crate::parser::p_keyword(ts, 0, kw_canvas()) == Ok::<int, int>(1));
    assert(crate::parser::p_expect(ts, 2, TokenV::At) == Ok::<int, int>(3));
}

proof fn lemma_p_document(d: DocumentV)
    requires
        writable(d),
    ensures
        p_document(document_tokens(d) + seq![TokenV::Eof]) == Ok::<DocumentV, int>(d),
{
    let ts = document_tokens(d) + seq![TokenV::Eof];
    let ct = canvas_tokens(d.canvas);
    let rest = scenes_tokens(d.scenes) + seq![TokenV::Eof];
    assert(tokens_at(ts, 0, ct + rest)) by {
        assert(ts =~= ct + rest);
        assert(ts.subrange(0, ts.len() as int) =~= ts);
    }
    lemma_tokens_at_split(ts, 0, ct, rest);
    lemma_p_canvas(ts, d.canvas);
    assert(ct.len() == 4);
    lemma_p_scenes(ts, 4, d.scenes, 0);
    assert(d.scenes.take(0) =~= Seq::<SceneV>::empty());
    assert(scenes_tokens(Seq::<SceneV>::empty()).len() == 0);
}

proof fn lemma_chunks_ascii(cs: Seq<Chunk>)
    requires
        chunks_wf(cs),
    ensures
        is_ascii_chars(chunks_text(cs)),
    decreases cs.len(),
{
    if cs.len() > 0 {
        lemma_chunks_text_front(cs);
        lemma_chunk_nonempty(cs[0]);
        lemma_chunks_ascii(cs.drop_first());
        vstd::utf8::is_ascii_chars_concat(
            chunks_text(cs),
            chunk_text(cs[0]),
            chunks_text(cs.drop_first()),
        );
    }
}

// --------------------------------------------------------------------
// The law
// --------------------------------------------------------------------

/// Parsing the text that the writer produces gives back the document, for
/// every document whose names are identifiers, in which no assignment
/// targets `duration`, `let` or `animate`, no number is negative, and every
/// keyframe has at least one transform.
pub proof fn lemma_parse_write_round_trip(d: DocumentV)
    requires
        writable(d),
    ensures
        spec_parse(encode_utf8(spec_write(d))) == Ok::<DocumentV, (int, int)>(d),
{
    let cs = document_chunks(d);
    lemma_document_chunks(d);
    lemma_chunks_ascii(cs);
    let text = spec_write(d);
    is_ascii_chars_encode_utf8(text);
    let s = encode_utf8(text);
    assert(s =~= chunks_bytes(cs));
    assert(s.subrange(0, s.len() as int) =~= s);
    lemma_lex_chunks(s, 0, cs);
    let n = s.len() as int;
    assert(trivia_end(s, n) == n);
    assert(lex_from(s, n) == Ok::<Seq<(TokenV, int)>, int>(seq![(TokenV::Eof, n)]));
    assert(token_kinds(seq![(TokenV::Eof, n)]) =~= seq![TokenV::Eof]);
    let ts = lex_from(s, 0)->Ok_0;
    assert(token_kinds(ts) == document_tokens(d) + seq![TokenV::Eof]);
    lemma_p_document(d);
}

} // verus!
