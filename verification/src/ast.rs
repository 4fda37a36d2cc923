//! AST types for the `.vac` source format, and their mathematical views.
//!
//! Numeric literals of the format (`[0-9]+(\.[0-9]+)?`) are held as
//! fixed-point decimals with four fractional digits ([`Number`]), the
//! precision in which the writer prints them.
use vstd::prelude::*;
use vstd::utf8::*;

verus! {

/// Fixed-point decimal: the value is `ten_thousandths / 10000`.
#[derive(Debug, Clone, Copy, PartialEq, Eq, Structural)]
pub struct Number {
    pub ten_thousandths: i64,
}

impl Number {
    /// The whole number `v`.
    pub fn from_int(v: i32) -> (n: Number)
        ensures
            n.ten_thousandths == v * 10000,
    {
        Number { ten_thousandths: v as i64 * 10000 }
    }

    /// The number `v / 10000`.
    pub fn from_ten_thousandths(v: i64) -> (n: Number)
        ensures
            n.ten_thousandths == v,
    {
        Number { ten_thousandths: v }
    }

    /// Whether the value has no fractional part.
    pub fn is_integer(&self) -> (r: bool)
        ensures
            r == (self.ten_thousandths % 10000 == 0),
    {
        self.ten_thousandths % 10000 == 0
    }
}

#[derive(Debug, Clone, Copy, PartialEq, Eq, Structural)]
pub struct Canvas {
    pub width: u32,
    pub height: u32,
    pub fps: u32,
}

#[derive(Debug, Clone, Copy, PartialEq, Eq, Structural)]
pub enum Shape {
    Rect { x: Number, y: Number, w: Number, h: Number },
    Ellipse { cx: Number, cy: Number, rx: Number, ry: Number },
}

#[derive(Debug, Clone, Copy, PartialEq, Eq, Structural, Hash)]
pub enum Property {
    Fill,
    Stroke,
}

/// 32-bit RGBA color. Alpha defaults to 0xFF when written from RGB hex.
#[derive(Debug, Clone, Copy, PartialEq, Eq, Structural, Hash)]
pub struct Color {
    pub r: u8,
    pub g: u8,
    pub b: u8,
    pub a: u8,
}

#[derive(Debug, Clone, Copy, PartialEq, Eq, Structural)]
pub enum Value {
    Color(Color),
    /// Explicit "no value", e.g. `stroke = none`.
    Absent,
}

#[derive(Debug, Clone, Copy, PartialEq, Eq, Structural)]
pub enum Transform {
    Position(Number, Number),
    Scale(Number),
    Opacity(Number),
}

#[derive(Debug, Clone, Copy, PartialEq, Eq, Structural, Hash)]
pub enum Easing {
    Linear,
    EaseIn,
    EaseOut,
    EaseInOut,
}

#[derive(Debug, Clone, PartialEq)]
pub struct Keyframe {
    pub time_ms: u32,
    pub transforms: Vec<Transform>,
}

#[derive(Debug, Clone, PartialEq)]
pub struct Animation {
    pub target: String,
    pub keyframes: Vec<Keyframe>,
    pub easing: Easing,
}

#[derive(Debug, Clone, PartialEq)]
pub enum Statement {
    /// `let <name> = <shape>`
    Let { name: String, shape: Shape },
    /// `<target>.<property> = <value>`
    Assign { target: String, property: Property, value: Value },
    Animate(Animation),
}

#[derive(Debug, Clone, PartialEq)]
pub struct Scene {
    pub name: String,
    /// Total scene duration, in milliseconds.
    pub duration_ms: u32,
    pub statements: Vec<Statement>,
}

#[derive(Debug, Clone, PartialEq)]
pub struct Document {
    pub canvas: Canvas,
    pub scenes: Vec<Scene>,
}

// --------------------------------------------------------------------
// Views
// --------------------------------------------------------------------

pub struct KeyframeV {
    pub time_ms: u32,
    pub transforms: Seq<Transform>,
}

pub struct AnimationV {
    pub target: Seq<char>,
    pub keyframes: Seq<KeyframeV>,
    pub easing: Easing,
}

pub enum StatementV {
    Let { name: Seq<char>, shape: Shape },
    Assign { target: Seq<char>, property: Property, value: Value },
    Animate(AnimationV),
}

pub struct SceneV {
    pub name: Seq<char>,
    pub duration_ms: u32,
    pub statements: Seq<StatementV>,
}

pub struct DocumentV {
    pub canvas: Canvas,
    pub scenes: Seq<SceneV>,
}

impl View for Keyframe {
    type V = KeyframeV;

    open spec fn view(&self) -> KeyframeV {
        KeyframeV { time_ms: self.time_ms, transforms: self.transforms@ }
    }
}

impl View for Animation {
    type V = AnimationV;

    open spec fn view(&self) -> AnimationV {
        AnimationV {
            target: self.target@,
            keyframes: self.keyframes@.map_values(|k: Keyframe| k@),
            easing: self.easing,
        }
    }
}

impl View for Statement {
    type V = StatementV;

    open spec fn view(&self) -> StatementV {
        match self {
            Statement::Let { name, shape } => StatementV::Let { name: name@, shape: *shape },
            Statement::Assign { target, property, value } => StatementV::Assign {
                target: target@,
                property: *property,
                value: *value,
            },
            Statement::Animate(a) => StatementV::Animate(a@),
        }
    }
}

impl View for Scene {
    type V = SceneV;

    open spec fn view(&self) -> SceneV {
        SceneV {
            name: self.name@,
            duration_ms: self.duration_ms,
            statements: self.statements@.map_values(|s: Statement| s@),
        }
    }
}

impl View for Document {
    type V = DocumentV;

    open spec fn view(&self) -> DocumentV {
        DocumentV { canvas: self.canvas, scenes: self.scenes@.map_values(|s: Scene| s@) }
    }
}

// --------------------------------------------------------------------
// Names of properties and easings
// --------------------------------------------------------------------

/// The bytes of an ASCII text.
pub open spec fn ascii_bytes(w: Seq<char>) -> Seq<u8> {
    w.map_values(|c: char| c as u8)
}

/// The characters that a sequence of bytes stands for, byte by byte.
pub open spec fn ascii_chars(b: Seq<u8>) -> Seq<char> {
    b.map_values(|x: u8| x as char)
}

pub open spec fn property_name(p: Property) -> Seq<char> {
    match p {
        Property::Fill => seq!['f', 'i', 'l', 'l'],
        Property::Stroke => seq!['s', 't', 'r', 'o', 'k', 'e'],
    }
}

pub open spec fn property_from_name(s: Seq<char>) -> Option<Property> {
    if s == property_name(Property::Fill) {
        Some(Property::Fill)
    } else if s == property_name(Property::Stroke) {
        Some(Property::Stroke)
    } else {
        None
    }
}

pub open spec fn easing_name(e: Easing) -> Seq<char> {
    match e {
        Easing::Linear => seq!['l', 'i', 'n', 'e', 'a', 'r'],
        Easing::EaseIn => seq!['e', 'a', 's', 'e', '-', 'i', 'n'],
        Easing::EaseOut => seq!['e', 'a', 's', 'e', '-', 'o', 'u', 't'],
        Easing::EaseInOut => seq!['e', 'a', 's', 'e', '-', 'i', 'n', '-', 'o', 'u', 't'],
    }
}

pub open spec fn easing_from_name(s: Seq<char>) -> Option<Easing> {
    if s == easing_name(Easing::Linear) {
        Some(Easing::Linear)
    } else if s == easing_name(Easing::EaseIn) {
        Some(Easing::EaseIn)
    } else if s == easing_name(Easing::EaseOut) {
        Some(Easing::EaseOut)
    } else if s == easing_name(Easing::EaseInOut) {
        Some(Easing::EaseInOut)
    } else {
        None
    }
}

/// Appends a character to a string: `String::push` of std, which the
/// standard library documents as appending the given `char` to the end.
#[verifier::external_body]
pub(crate) fn string_push(s: &mut String, c: char)
    ensures
        final(s)@ == old(s)@.push(c),
{
    s.push(c);
}

/// Whether two byte sequences are equal, compared element by element.
pub fn bytes_equal(a: &[u8], b: &[u8]) -> (r: bool)
    ensures
        r == (a@ == b@),
{
    if a.len() != b.len() {
        return false;
    }
    let mut i: usize = 0;
    while i < a.len()
        invariant
            a@.len() == b@.len(),
            0 <= i <= a@.len(),
            forall|j: int| 0 <= j < i ==> a@[j] == b@[j],
        decreases a@.len() - i,
    {
        if a[i] != b[i] {
            return false;
        }
        i = i + 1;
    }
    assert(a@ =~= b@);
    true
}

/// For an ASCII word `w`, a text equals `w` exactly when its UTF-8 bytes
/// equal the bytes of `w`.
pub proof fn lemma_utf8_matches_ascii_word(s: Seq<char>, w: Seq<char>)
    requires
        is_ascii_chars(w),
    ensures
        (encode_utf8(s) == ascii_bytes(w)) <==> (s == w),
{
    is_ascii_chars_encode_utf8(w);
    assert(encode_utf8(w) =~= ascii_bytes(w));
    if encode_utf8(s) == ascii_bytes(w) {
        encode_utf8_decode_utf8(s);
        encode_utf8_decode_utf8(w);
    }
}

impl Property {
    pub fn as_str(&self) -> (r: &'static str)
        ensures
            r@ == property_name(*self),
    {
        match self {
            Property::Fill => {
                proof {
                    reveal_strlit("fill");
                }
                "fill"
            },
            Property::Stroke => {
                proof {
                    reveal_strlit("stroke");
                }
                "stroke"
            },
        }
    }

    pub fn from_str(s: &str) -> (r: Option<Self>)
        ensures
            r == property_from_name(s@),
    {
        let b = s.as_bytes();
        let fill: [u8; 4] = [102, 105, 108, 108];
        let stroke: [u8; 6] = [115, 116, 114, 111, 107, 101];
        proof {
            lemma_utf8_matches_ascii_word(s@, property_name(Property::Fill));
            lemma_utf8_matches_ascii_word(s@, property_name(Property::Stroke));
            assert(fill@ =~= ascii_bytes(property_name(Property::Fill)));
            assert(stroke@ =~= ascii_bytes(property_name(Property::Stroke)));
        }
        if bytes_equal(b, &fill) {
            Some(Property::Fill)
        } else if bytes_equal(b, &stroke) {
            Some(Property::Stroke)
        } else {
            None
        }
    }
}

impl Color {
    pub fn rgb(r: u8, g: u8, b: u8) -> (c: Self)
        ensures
            c == (Color { r, g, b, a: 0xFF }),
    {
        Color { r, g, b, a: 0xFF }
    }

    pub fn rgba(r: u8, g: u8, b: u8, a: u8) -> (c: Self)
        ensures
            c == (Color { r, g, b, a }),
    {
        Color { r, g, b, a }
    }
}

impl Easing {
    pub fn as_str(&self) -> (r: &'static str)
        ensures
            r@ == easing_name(*self),
    {
        match self {
            Easing::Linear => {
                proof {
                    reveal_strlit("linear");
                }
                "linear"
            },
            Easing::EaseIn => {
                proof {
                    reveal_strlit("ease-in");
                }
                "ease-in"
            },
            Easing::EaseOut => {
                proof {
                    reveal_strlit("ease-out");
                }
                "ease-out"
            },
            Easing::EaseInOut => {
                proof {
                    reveal_strlit("ease-in-out");
                }
                "ease-in-out"
            },
        }
    }

    pub fn from_str(s: &str) -> (r: Option<Self>)
        ensures
            r == easing_from_name(s@),
    {
        let b = s.as_bytes();
        let linear: [u8; 6] = [108, 105, 110, 101, 97, 114];
        let ease_in: [u8; 7] = [101, 97, 115, 101, 45, 105, 110];
        let ease_out: [u8; 8] = [101, 97, 115, 101, 45, 111, 117, 116];
        let ease_in_out: [u8; 11] = [101, 97, 115, 101, 45, 105, 110, 45, 111, 117, 116];
        proof {
            lemma_utf8_matches_ascii_word(s@, easing_name(Easing::Linear));
            lemma_utf8_matches_ascii_word(s@, easing_name(Easing::EaseIn));
            lemma_utf8_matches_ascii_word(s@, easing_name(Easing::EaseOut));
            lemma_utf8_matches_ascii_word(s@, easing_name(Easing::EaseInOut));
            assert(linear@ =~= ascii_bytes(easing_name(Easing::Linear)));
            assert(ease_in@ =~= ascii_bytes(easing_name(Easing::EaseIn)));
            assert(ease_out@ =~= ascii_bytes(easing_name(Easing::EaseOut)));
            assert(ease_in_out@ =~= ascii_bytes(easing_name(Easing::EaseInOut)));
        }
        if bytes_equal(b, &linear) {
            Some(Easing::Linear)
        } else if bytes_equal(b, &ease_in) {
            Some(Easing::EaseIn)
        } else if bytes_equal(b, &ease_out) {
            Some(Easing::EaseOut)
        } else if bytes_equal(b, &ease_in_out) {
            Some(Easing::EaseInOut)
        } else {
            None
        }
    }
}

impl Default for Easing {
    fn default() -> (e: Self)
        ensures
            e == Easing::Linear,
    {
        Easing::Linear
    }
}

/// Reading back the name of a property gives the property.
pub proof fn lemma_property_name_round_trip(p: Property)
    ensures
        property_from_name(property_name(p)) == Some(p),
{
    assert(property_name(Property::Fill) != property_name(Property::Stroke)) by {
        assert(property_name(Property::Fill).len() != property_name(Property::Stroke).len());
    }
}

/// Reading back the name of an easing gives the easing.
pub proof fn lemma_easing_name_round_trip(e: Easing)
    ensures
        easing_from_name(easing_name(e)) == Some(e),
{
    assert(easing_name(Easing::Linear) != easing_name(Easing::EaseIn)) by {
        assert(easing_name(Easing::Linear)[1] != easing_name(Easing::EaseIn)[1]);
    }
    assert(easing_name(Easing::Linear) != easing_name(Easing::EaseOut)) by {
        assert(easing_name(Easing::Linear).len() != easing_name(Easing::EaseOut).len());
    }
    assert(easing_name(Easing::Linear) != easing_name(Easing::EaseInOut)) by {
        assert(easing_name(Easing::Linear).len() != easing_name(Easing::EaseInOut).len());
    }
    assert(easing_name(Easing::EaseIn) != easing_name(Easing::EaseOut)) by {
        assert(easing_name(Easing::EaseIn).len() != easing_name(Easing::EaseOut).len());
    }
    assert(easing_name(Easing::EaseIn) != easing_name(Easing::EaseInOut)) by {
        assert(easing_name(Easing::EaseIn).len() != easing_name(Easing::EaseInOut).len());
    }
    assert(easing_name(Easing::EaseOut) != easing_name(Easing::EaseInOut)) by {
        assert(easing_name(Easing::EaseOut).len() != easing_name(Easing::EaseInOut).len());
    }
}

} // verus!
