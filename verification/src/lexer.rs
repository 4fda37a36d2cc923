//! Lexer for the `.vac` text: bytes → tokens with line/column spans.
//!
//! The specification is [`lex_from`]: starting at a byte position it skips
//! whitespace and `//` comments, reads one token with [`lex_token`], and
//! continues; it ends with an `Eof` token, or fails at the first byte that
//! starts no token.
use vstd::prelude::*;
use crate::ast::{Color, Number};

verus! {

pub const B_TAB: u8 = 9;
pub const B_LF: u8 = 10;
pub const B_CR: u8 = 13;
pub const B_SPACE: u8 = 32;
pub const B_HASH: u8 = 35;
pub const B_LPAREN: u8 = 40;
pub const B_RPAREN: u8 = 41;
pub const B_COMMA: u8 = 44;
pub const B_MINUS: u8 = 45;
pub const B_DOT: u8 = 46;
pub const B_SLASH: u8 = 47;
pub const B_ZERO: u8 = 48;
pub const B_NINE: u8 = 57;
pub const B_COLON: u8 = 58;
pub const B_EQUALS: u8 = 61;
pub const B_GT: u8 = 62;
pub const B_AT: u8 = 64;
pub const B_UNDERSCORE: u8 = 95;
pub const B_X: u8 = 120;
pub const B_LBRACE: u8 = 123;
pub const B_RBRACE: u8 = 125;

/// Saturation bound for the integer part of a numeric literal: every
/// numeric token saturates well below `SAT_CAP * 1`.
pub const SAT_CAP: u64 = 10_000_000_000_000_000;

// --------------------------------------------------------------------
// Tokens
// --------------------------------------------------------------------

#[derive(Debug, Clone)]
pub enum Token {
    Ident(Vec<u8>),
    Number(Number),
    /// `1500ms` or `3s`, normalised to milliseconds.
    TimeMs(u32),
    /// `30fps`.
    Fps(u32),
    /// `800x600`.
    Dimension(u32, u32),
    HexColor(Color),
    LBrace,
    RBrace,
    LParen,
    RParen,
    Comma,
    Equals,
    Dot,
    At,
    Colon,
    Arrow,
    Eof,
}

pub enum TokenV {
    Ident(Seq<u8>),
    Number(Number),
    TimeMs(u32),
    Fps(u32),
    Dimension(u32, u32),
    HexColor(Color),
    LBrace,
    RBrace,
    LParen,
    RParen,
    Comma,
    Equals,
    Dot,
    At,
    Colon,
    Arrow,
    Eof,
}

impl View for Token {
    type V = TokenV;

    open spec fn view(&self) -> TokenV {
        match self {
            Token::Ident(v) => TokenV::Ident(v@),
            Token::Number(n) => TokenV::Number(*n),
            Token::TimeMs(t) => TokenV::TimeMs(*t),
            Token::Fps(f) => TokenV::Fps(*f),
            Token::Dimension(w, h) => TokenV::Dimension(*w, *h),
            Token::HexColor(c) => TokenV::HexColor(*c),
            Token::LBrace => TokenV::LBrace,
            Token::RBrace => TokenV::RBrace,
            Token::LParen => TokenV::LParen,
            Token::RParen => TokenV::RParen,
            Token::Comma => TokenV::Comma,
            Token::Equals => TokenV::Equals,
            Token::Dot => TokenV::Dot,
            Token::At => TokenV::At,
            Token::Colon => TokenV::Colon,
            Token::Arrow => TokenV::Arrow,
            Token::Eof => TokenV::Eof,
        }
    }
}

#[derive(Debug, Clone, Copy)]
pub struct Span {
    pub line: usize,
    pub col: usize,
}

#[derive(Debug, Clone)]
pub struct Spanned {
    pub tok: Token,
    pub span: Span,
}

/// A syntax error at a 1-based line and column (columns count bytes).
#[derive(Debug, Clone)]
pub enum ParseError {
    Syntax { line: usize, col: usize, msg: String },
}

impl ParseError {
    pub open spec fn position(self) -> (int, int) {
        match self {
            ParseError::Syntax { line, col, .. } => (line as int, col as int),
        }
    }
}

pub open spec fn span_pos(sp: Span) -> (int, int) {
    (sp.line as int, sp.col as int)
}

// --------------------------------------------------------------------
// Byte classes
// --------------------------------------------------------------------

pub open spec fn is_digit(c: u8) -> bool {
    B_ZERO <= c <= B_NINE
}

pub open spec fn is_alpha(c: u8) -> bool {
    (65 <= c <= 90) || (97 <= c <= 122)
}

pub open spec fn is_hex_digit(c: u8) -> bool {
    is_digit(c) || (65 <= c <= 70) || (97 <= c <= 102)
}

pub open spec fn is_space(c: u8) -> bool {
    c == B_SPACE || c == B_TAB || c == B_CR || c == B_LF
}

pub open spec fn is_ident_start(c: u8) -> bool {
    is_alpha(c) || c == B_UNDERSCORE
}

pub open spec fn is_ident_char(c: u8) -> bool {
    is_alpha(c) || is_digit(c) || c == B_UNDERSCORE || c == B_MINUS
}

pub enum ByteClass {
    Digit,
    Alpha,
    Hex,
    IdentChar,
    NumberChar,
    NotNewline,
}

pub open spec fn in_class(c: u8, k: ByteClass) -> bool {
    match k {
        ByteClass::Digit => is_digit(c),
        ByteClass::Alpha => is_alpha(c),
        ByteClass::Hex => is_hex_digit(c),
        ByteClass::IdentChar => is_ident_char(c),
        ByteClass::NumberChar => is_digit(c) || c == B_DOT,
        ByteClass::NotNewline => c != B_LF,
    }
}

/// End of the longest run of bytes of class `k` that starts at `p`.
pub open spec fn run_end(s: Seq<u8>, p: int, k: ByteClass) -> int
    decreases s.len() - p,
{
    if 0 <= p < s.len() && in_class(s[p], k) {
        run_end(s, p + 1, k)
    } else {
        p
    }
}

pub proof fn lemma_run_end(s: Seq<u8>, p: int, k: ByteClass)
    requires
        0 <= p <= s.len(),
    ensures
        p <= run_end(s, p, k) <= s.len(),
        forall|i: int| p <= i < run_end(s, p, k) ==> in_class(#[trigger] s[i], k),
        run_end(s, p, k) < s.len() ==> !in_class(s[run_end(s, p, k)], k),
    decreases s.len() - p,
{
    if p < s.len() && in_class(s[p], k) {
        lemma_run_end(s, p + 1, k);
    }
}

// --------------------------------------------------------------------
// Positions
// --------------------------------------------------------------------

/// 1-based line and column of byte position `p`.
pub open spec fn line_col(s: Seq<u8>, p: int) -> (int, int)
    decreases p,
{
    if p <= 0 {
        (1, 1)
    } else {
        let lc = line_col(s, p - 1);
        if s[p - 1] == B_LF {
            (lc.0 + 1, 1)
        } else {
            (lc.0, lc.1 + 1)
        }
    }
}

pub proof fn lemma_line_col_bounds(s: Seq<u8>, p: int)
    requires
        0 <= p,
    ensures
        1 <= line_col(s, p).0 <= p + 1,
        1 <= line_col(s, p).1 <= p + 1,
    decreases p,
{
    if p > 0 {
        lemma_line_col_bounds(s, p - 1);
    }
}

/// Position after the whitespace and `//` line comments that start at `p`.
pub open spec fn trivia_end(s: Seq<u8>, p: int) -> int
    decreases s.len() - p,
{
    if p < 0 || p >= s.len() {
        p
    } else if is_space(s[p]) {
        trivia_end(s, p + 1)
    } else if s[p] == B_SLASH && p + 1 < s.len() && s[p + 1] == B_SLASH {
        let e = run_end(s, p + 2, ByteClass::NotNewline);
        if p < e <= s.len() {
            trivia_end(s, e)
        } else {
            p
        }
    } else {
        p
    }
}

pub proof fn lemma_trivia_end(s: Seq<u8>, p: int)
    requires
        0 <= p <= s.len(),
    ensures
        p <= trivia_end(s, p) <= s.len(),
        trivia_end(s, p) < s.len() ==> !is_space(s[trivia_end(s, p)]),
        trivia_end(s, p) < s.len() ==> !(s[trivia_end(s, p)] == B_SLASH && trivia_end(s, p) + 1
            < s.len() && s[trivia_end(s, p) + 1] == B_SLASH),
    decreases s.len() - p,
{
    if p < s.len() {
        if is_space(s[p]) {
            lemma_trivia_end(s, p + 1);
        } else if s[p] == B_SLASH && p + 1 < s.len() && s[p + 1] == B_SLASH {
            lemma_run_end(s, p + 2, ByteClass::NotNewline);
            lemma_trivia_end(s, run_end(s, p + 2, ByteClass::NotNewline));
        }
    }
}

// --------------------------------------------------------------------
// Numeric literals
// --------------------------------------------------------------------

pub open spec fn digit_value(c: u8) -> nat {
    (c - B_ZERO) as nat
}

/// Value of a string of decimal digits.
pub open spec fn digits_value(d: Seq<u8>) -> nat
    decreases d.len(),
{
    if d.len() == 0 {
        0
    } else {
        digits_value(d.drop_last()) * 10 + digit_value(d.last())
    }
}

pub open spec fn pow10(k: nat) -> nat
    decreases k,
{
    if k == 0 {
        1
    } else {
        10 * pow10((k - 1) as nat)
    }
}

/// The `i`-th digit of a fractional part, zero past its end.
pub open spec fn digit_at(f: Seq<u8>, i: int) -> nat {
    if 0 <= i < f.len() {
        digit_value(f[i])
    } else {
        0
    }
}

/// The first `k` fractional digits as a whole number (`0.25`, `k = 3` → `250`).
pub open spec fn frac_prefix_value(f: Seq<u8>, k: nat) -> nat
    decreases k,
{
    if k == 0 {
        0
    } else {
        frac_prefix_value(f, (k - 1) as nat) * 10 + digit_at(f, k - 1)
    }
}

/// `int.frac × 10^k`, rounded half up to a whole number.
pub open spec fn scaled(int_value: nat, frac: Seq<u8>, k: nat) -> nat {
    int_value * pow10(k) + frac_prefix_value(frac, k) + (if digit_at(frac, k as int) >= 5 {
        1nat
    } else {
        0nat
    })
}

pub open spec fn sat(x: int, max: int) -> int {
    if x > max {
        max
    } else {
        x
    }
}

pub open spec fn unit_ms() -> Seq<u8> {
    seq![109u8, 115u8]
}

pub open spec fn unit_s() -> Seq<u8> {
    seq![115u8]
}

pub open spec fn unit_fps() -> Seq<u8> {
    seq![102u8, 112u8, 115u8]
}

/// A numeric literal at `p` (a digit): `[0-9]+(\.[0-9]+)?`, then a unit
/// (`ms`, `s`, `fps`) or nothing; or a dimension `[0-9]+x[0-9]+`.
pub open spec fn lex_number_like(s: Seq<u8>, p: int) -> Option<(TokenV, int)> {
    let q = run_end(s, p, ByteClass::NumberChar);
    let d = run_end(s, p, ByteClass::Digit);
    let frac = if d < q {
        s.subrange(d + 1, q)
    } else {
        Seq::empty()
    };
    let ip = digits_value(s.subrange(p, d));
    if d < q && (run_end(s, d + 1, ByteClass::Digit) != q || q == d + 1) {
        None
    } else if d == q && q + 1 < s.len() && s[q] == B_X && is_digit(s[q + 1]) {
        let r = run_end(s, q + 1, ByteClass::Digit);
        let h = digits_value(s.subrange(q + 1, r));
        if h > u32::MAX {
            None
        } else {
            Some((TokenV::Dimension(sat(ip as int, u32::MAX as int) as u32, h as u32), r))
        }
    } else {
        let u = run_end(s, q, ByteClass::Alpha);
        let unit = s.subrange(q, u);
        if unit.len() == 0 {
            Some(
                (
                    TokenV::Number(
                        Number {
                            ten_thousandths: sat(scaled(ip, frac, 4) as int, i64::MAX as int) as i64,
                        },
                    ),
                    q,
                ),
            )
        } else if unit == unit_ms() {
            Some((TokenV::TimeMs(sat(scaled(ip, frac, 0) as int, u32::MAX as int) as u32), u))
        } else if unit == unit_s() {
            Some((TokenV::TimeMs(sat(scaled(ip, frac, 3) as int, u32::MAX as int) as u32), u))
        } else if unit == unit_fps() {
            Some((TokenV::Fps(sat(scaled(ip, frac, 0) as int, u32::MAX as int) as u32), u))
        } else {
            None
        }
    }
}

// --------------------------------------------------------------------
// Hex colours
// --------------------------------------------------------------------

pub open spec fn hex_value(c: u8) -> int {
    if is_digit(c) {
        c - B_ZERO
    } else if 97 <= c <= 102 {
        c - 87
    } else {
        c - 55
    }
}

pub open spec fn hex_byte(s: Seq<u8>, i: int) -> u8 {
    (hex_value(s[i]) * 16 + hex_value(s[i + 1])) as u8
}

/// `#rrggbb` or `#rrggbbaa` at `p` (the `#`).
pub open spec fn lex_hex_color(s: Seq<u8>, p: int) -> Option<(TokenV, int)> {
    let q = run_end(s, p + 1, ByteClass::Hex);
    if q - (p + 1) == 6 {
        Some(
            (
                TokenV::HexColor(
                    Color {
                        r: hex_byte(s, p + 1),
                        g: hex_byte(s, p + 3),
                        b: hex_byte(s, p + 5),
                        a: 255,
                    },
                ),
                q,
            ),
        )
    } else if q - (p + 1) == 8 {
        Some(
            (
                TokenV::HexColor(
                    Color {
                        r: hex_byte(s, p + 1),
                        g: hex_byte(s, p + 3),
                        b: hex_byte(s, p + 5),
                        a: hex_byte(s, p + 7),
                    },
                ),
                q,
            ),
        )
    } else {
        None
    }
}

// --------------------------------------------------------------------
// Tokens and token streams
// --------------------------------------------------------------------

pub open spec fn punct_token(c: u8) -> Option<TokenV> {
    if c == B_LBRACE {
        Some(TokenV::LBrace)
    } else if c == B_RBRACE {
        Some(TokenV::RBrace)
    } else if c == B_LPAREN {
        Some(TokenV::LParen)
    } else if c == B_RPAREN {
        Some(TokenV::RParen)
    } else if c == B_COMMA {
        Some(TokenV::Comma)
    } else if c == B_EQUALS {
        Some(TokenV::Equals)
    } else if c == B_DOT {
        Some(TokenV::Dot)
    } else if c == B_AT {
        Some(TokenV::At)
    } else if c == B_COLON {
        Some(TokenV::Colon)
    } else {
        None
    }
}

/// The token that starts at `p` (a byte that is neither whitespace nor the
/// start of a comment), with the position just after it.
pub open spec fn lex_token(s: Seq<u8>, p: int) -> Option<(TokenV, int)> {
    let c = s[p];
    if punct_token(c) is Some {
        Some((punct_token(c)->0, p + 1))
    } else if c == B_MINUS {
        if p + 1 < s.len() && s[p + 1] == B_GT {
            Some((TokenV::Arrow, p + 2))
        } else {
            None
        }
    } else if c == B_HASH {
        lex_hex_color(s, p)
    } else if is_digit(c) {
        lex_number_like(s, p)
    } else if is_ident_start(c) {
        let q = run_end(s, p + 1, ByteClass::IdentChar);
        Some((TokenV::Ident(s.subrange(p, q)), q))
    } else {
        None
    }
}

pub proof fn lemma_lex_token_advances(s: Seq<u8>, p: int)
    requires
        0 <= p < s.len(),
    ensures
        lex_token(s, p) matches Some((t, q)) ==> p < q <= s.len() && !(t is Eof),
{
    let c = s[p];
    lemma_run_end(s, p + 1, ByteClass::Hex);
    lemma_run_end(s, p + 1, ByteClass::IdentChar);
    lemma_run_end(s, p, ByteClass::NumberChar);
    lemma_run_end(s, p, ByteClass::Digit);
    let q = run_end(s, p, ByteClass::NumberChar);
    if is_digit(c) {
        if q + 1 < s.len() {
            lemma_run_end(s, q + 1, ByteClass::Digit);
        }
        lemma_run_end(s, q, ByteClass::Alpha);
    }
}

/// Tokens from position `p` on, each with the position where it starts;
/// `Err` holds the position of the first byte that starts no token.
pub open spec fn lex_from(s: Seq<u8>, p: int) -> Result<Seq<(TokenV, int)>, int>
    decreases s.len() - p,
{
    let q = trivia_end(s, p);
    if p < 0 || p > s.len() {
        Err(p)
    } else if q >= s.len() {
        Ok(seq![(TokenV::Eof, q)])
    } else {
        match lex_token(s, q) {
            None => Err(q),
            Some((t, r)) => {
                proof {
                    lemma_trivia_end(s, p);
                    lemma_lex_token_advances(s, q);
                }
                match lex_from(s, r) {
                    Ok(rest) => Ok(seq![(t, q)] + rest),
                    Err(e) => Err(e),
                }
            },
        }
    }
}

/// `Ok(a + rest)` when `r` is `Ok(rest)`; errors pass through.
pub open spec fn prepend_tokens(a: Seq<(TokenV, int)>, r: Result<Seq<(TokenV, int)>, int>) -> Result<
    Seq<(TokenV, int)>,
    int,
> {
    match r {
        Ok(rest) => Ok(a + rest),
        Err(e) => Err(e),
    }
}

// --------------------------------------------------------------------
// Executable lexer
// --------------------------------------------------------------------

pub struct Lexer<'a> {
    pub src: &'a [u8],
    pub pos: usize,
    pub line: usize,
    pub col: usize,
}

impl ParseError {
    /// A syntax error at `span` with the message `msg`.
    pub fn syntax(span: Span, msg: &str) -> (e: ParseError)
        ensures
            e matches ParseError::Syntax { line, col, msg: m } && line == span.line && col == span.col
                && m@ == msg@,
            e.position() == (span.line as int, span.col as int),
    {
        ParseError::Syntax { line: span.line, col: span.col, msg: msg.to_owned() }
    }
}

/// `prefix`, the count in decimal, then `suffix`.
pub(crate) fn counted_message(prefix: &str, n: usize, suffix: &str) -> (m: String)
    ensures
        m@ == prefix@ + crate::writer::decimal(n as nat) + suffix@,
{
    let mut m = prefix.to_owned();
    crate::writer::push_decimal(&mut m, n as u64);
    m.append(suffix);
    m
}

/// `prefix`, the bytes `src[a..b]` as characters between double quotes,
/// then `suffix`.
fn quoted_message(prefix: &str, src: &[u8], a: usize, b: usize, suffix: &str) -> (m: String)
    requires
        a <= b <= src@.len(),
    ensures
        m@ == prefix@ + "\""@ + crate::ast::ascii_chars(src@.subrange(a as int, b as int)) + "\""@
            + suffix@,
{
    let mut m = prefix.to_owned();
    m.append("\"");
    let ghost head = m@;
    let mut i: usize = a;
    while i < b
        invariant
            a <= i <= b <= src@.len(),
            m@ == head + crate::ast::ascii_chars(src@.subrange(a as int, i as int)),
        decreases b - i,
    {
        crate::ast::string_push(&mut m, src[i] as char);
        proof {
            assert(crate::ast::ascii_chars(src@.subrange(a as int, i + 1)) =~= crate::ast::ascii_chars(
                src@.subrange(a as int, i as int),
            ).push(src@[i as int] as char));
        }
        i = i + 1;
    }
    m.append("\"");
    m.append(suffix);
    m
}

fn push_hex_digit(m: &mut String, d: u8)
    requires
        d < 16,
{
    let c: u8 = if d < 10 { 48 + d } else { 87 + d };
    crate::ast::string_push(m, c as char);
}

/// `unexpected character `, then the byte `c` read as a character and
/// written as a Rust character literal: quoted, with `\0`, `\t`, `\n`,
/// `\r`, `\'` and `\\` escaped, and the characters that are not printable
/// (other controls, U+007F to U+009F, U+00AD) as `\u{..}` in lower-case
/// hexadecimal.
fn unexpected_character_message(c: u8) -> String {
    let mut m = "unexpected character '".to_owned();
    if c == 0 {
        m.append("\\0");
    } else if c == 9 {
        m.append("\\t");
    } else if c == 10 {
        m.append("\\n");
    } else if c == 13 {
        m.append("\\r");
    } else if c == 39 {
        m.append("\\'");
    } else if c == 92 {
        m.append("\\\\");
    } else if (32 <= c && c <= 126) || (160 <= c && c != 173) {
        crate::ast::string_push(&mut m, c as char);
    } else {
        m.append("\\u{");
        if c >= 16 {
            push_hex_digit(&mut m, c / 16);
        }
        push_hex_digit(&mut m, c % 16);
        m.append("}");
    }
    m.append("'");
    m
}

impl<'a> Lexer<'a> {
    pub open spec fn wf(&self) -> bool {
        &&& self.src@.len() < usize::MAX
        &&& self.pos <= self.src@.len()
        &&& line_col(self.src@, self.pos as int) == (self.line as int, self.col as int)
    }

    pub fn new(src: &'a [u8]) -> (l: Self)
        requires
            src@.len() < usize::MAX,
        ensures
            l.wf(),
            l.src@ == src@,
            l.pos == 0,
    {
        Lexer { src, pos: 0, line: 1, col: 1 }
    }

    pub fn span(&self) -> (sp: Span)
        ensures
            sp.line == self.line,
            sp.col == self.col,
    {
        Span { line: self.line, col: self.col }
    }

    pub fn peek(&self) -> (r: Option<u8>)
        ensures
            r == if self.pos < self.src@.len() {
                Some(self.src@[self.pos as int])
            } else {
                None
            },
    {
        if self.pos < self.src.len() {
            Some(self.src[self.pos])
        } else {
            None
        }
    }

    pub fn peek_at(&self, offset: usize) -> (r: Option<u8>)
        ensures
            r == if self.pos + offset < self.src@.len() {
                Some(self.src@[self.pos + offset])
            } else {
                None
            },
    {
        if self.pos < self.src.len() && offset < self.src.len() - self.pos {
            Some(self.src[self.pos + offset])
        } else {
            None
        }
    }

    pub fn bump(&mut self) -> (r: Option<u8>)
        requires
            old(self).wf(),
        ensures
            final(self).wf(),
            final(self).src@ == old(self).src@,
            r == if old(self).pos < old(self).src@.len() {
                Some(old(self).src@[old(self).pos as int])
            } else {
                None
            },
            final(self).pos == if old(self).pos < old(self).src@.len() {
                old(self).pos + 1
            } else {
                old(self).pos as int
            },
    {
        if self.pos >= self.src.len() {
            return None;
        }
        let c = self.src[self.pos];
        proof {
            lemma_line_col_bounds(self.src@, self.pos as int);
        }
        self.pos = self.pos + 1;
        if c == B_LF {
            self.line = self.line + 1;
            self.col = 1;
        } else {
            self.col = self.col + 1;
        }
        Some(c)
    }

    /// Consume bytes of class `k` (decided by `in_class`).
    fn bump_while(&mut self, k: ByteClass)
        requires
            old(self).wf(),
        ensures
            final(self).wf(),
            final(self).src@ == old(self).src@,
            final(self).pos == run_end(old(self).src@, old(self).pos as int, k),
    {
        let ghost start = self.pos as int;
        proof {
            lemma_run_end(self.src@, start, k);
        }
        while self.pos < self.src.len() && byte_in_class(self.src[self.pos], &k)
            invariant
                self.wf(),
                self.src@ == old(self).src@,
                start <= self.pos <= run_end(self.src@, start, k),
                run_end(self.src@, self.pos as int, k) == run_end(self.src@, start, k),
            decreases self.src@.len() - self.pos,
        {
            proof {
                lemma_run_end(self.src@, self.pos + 1, k);
            }
            self.bump();
        }
    }

    pub fn skip_trivia(&mut self)
        requires
            old(self).wf(),
        ensures
            final(self).wf(),
            final(self).src@ == old(self).src@,
            final(self).pos == trivia_end(old(self).src@, old(self).pos as int),
    {
        proof {
            lemma_trivia_end(self.src@, self.pos as int);
        }
        loop
            invariant
                self.wf(),
                self.src@ == old(self).src@,
                trivia_end(self.src@, self.pos as int) == trivia_end(
                    self.src@,
                    old(self).pos as int,
                ),
            decreases self.src@.len() - self.pos,
        {
            match self.peek() {
                Some(c) => {
                    if c == B_SPACE || c == B_TAB || c == B_CR || c == B_LF {
                        self.bump();
                    } else if c == B_SLASH && is_byte(self.peek_at(1), B_SLASH) {
                        let ghost p = self.pos as int;
                        proof {
                            lemma_run_end(self.src@, p + 2, ByteClass::NotNewline);
                            assert(run_end(self.src@, p, ByteClass::NotNewline) == run_end(
                                self.src@,
                                p + 2,
                                ByteClass::NotNewline,
                            )) by {
                                assert(run_end(self.src@, p, ByteClass::NotNewline) == run_end(
                                    self.src@,
                                    p + 1,
                                    ByteClass::NotNewline,
                                ));
                            }
                        }
                        self.bump_while(ByteClass::NotNewline);
                    } else {
                        return ;
                    }
                },
                None => {
                    return ;
                },
            }
        }
    }

    /// Reads the token after any trivia, as [`lex_from`] does.
    pub fn next_token(&mut self) -> (r: Result<Spanned, ParseError>)
        requires
            old(self).wf(),
        ensures
            final(self).wf(),
            final(self).src@ == old(self).src@,
            ({
                let s = old(self).src@;
                let q = trivia_end(s, old(self).pos as int);
                if q >= s.len() {
                    r matches Ok(t) && t.tok@ == TokenV::Eof && span_pos(t.span) == line_col(s, q)
                        && final(self).pos == q
                } else {
                    match lex_token(s, q) {
                        Some((t, e)) => r matches Ok(x) && x.tok@ == t && span_pos(x.span)
                            == line_col(s, q) && final(self).pos == e,
                        None => r matches Err(err) && err.position() == line_col(s, q),
                    }
                }
            }),
    {
        self.skip_trivia();
        let span = self.span();
        let ghost s = self.src@;
        let ghost q = self.pos as int;
        proof {
            lemma_trivia_end(s, old(self).pos as int);
        }
        let c = match self.peek() {
            Some(c) => c,
            None => {
                return Ok(Spanned { tok: Token::Eof, span });
            },
        };
        let single = if c == B_LBRACE {
            Some(Token::LBrace)
        } else if c == B_RBRACE {
            Some(Token::RBrace)
        } else if c == B_LPAREN {
            Some(Token::LParen)
        } else if c == B_RPAREN {
            Some(Token::RParen)
        } else if c == B_COMMA {
            Some(Token::Comma)
        } else if c == B_EQUALS {
            Some(Token::Equals)
        } else if c == B_DOT {
            Some(Token::Dot)
        } else if c == B_AT {
            Some(Token::At)
        } else if c == B_COLON {
            Some(Token::Colon)
        } else {
            None
        };
        if let Some(tok) = single {
            self.bump();
            return Ok(Spanned { tok, span });
        }
        if c == B_MINUS {
            if is_byte(self.peek_at(1), B_GT) {
                self.bump();
                self.bump();
                return Ok(Spanned { tok: Token::Arrow, span });
            }
            return Err(ParseError::syntax(span, "unexpected '-' (only '->' is allowed)"));
        }
        if c == B_HASH {
            return self.read_hex_color(span);
        }
        if B_ZERO <= c && c <= B_NINE {
            return self.read_number_like(span);
        }
        if (65 <= c && c <= 90) || (97 <= c && c <= 122) || c == B_UNDERSCORE {
            return Ok(self.read_ident(span));
        }
        Err(ParseError::syntax(span, unexpected_character_message(c).as_str()))
    }

    fn read_hex_color(&mut self, span: Span) -> (r: Result<Spanned, ParseError>)
        requires
            old(self).wf(),
            old(self).pos < old(self).src@.len(),
            old(self).src@[old(self).pos as int] == B_HASH,
        ensures
            final(self).wf(),
            final(self).src@ == old(self).src@,
            match lex_hex_color(old(self).src@, old(self).pos as int) {
                Some((t, e)) => r matches Ok(x) && x.tok@ == t && x.span == span && final(self).pos
                    == e,
                None => r matches Err(err) && err.position() == span_pos(span),
            },
    {
        let ghost s = self.src@;
        let ghost p = self.pos as int;
        self.bump();
        let start = self.pos;
        self.bump_while(ByteClass::Hex);
        proof {
            lemma_run_end(s, p + 1, ByteClass::Hex);
        }
        let n = self.pos - start;
        if n == 6 {
            let color = Color {
                r: hex_pair(self.src[start], self.src[start + 1]),
                g: hex_pair(self.src[start + 2], self.src[start + 3]),
                b: hex_pair(self.src[start + 4], self.src[start + 5]),
                a: 255,
            };
            Ok(Spanned { tok: Token::HexColor(color), span })
        } else if n == 8 {
            let color = Color {
                r: hex_pair(self.src[start], self.src[start + 1]),
                g: hex_pair(self.src[start + 2], self.src[start + 3]),
                b: hex_pair(self.src[start + 4], self.src[start + 5]),
                a: hex_pair(self.src[start + 6], self.src[start + 7]),
            };
            Ok(Spanned { tok: Token::HexColor(color), span })
        } else {
            Err(ParseError::syntax(span, counted_message("hex color must have 6 or 8 digits, got ", n, "").as_str()))
        }
    }

    fn read_ident(&mut self, span: Span) -> (r: Spanned)
        requires
            old(self).wf(),
            old(self).pos < old(self).src@.len(),
            is_ident_start(old(self).src@[old(self).pos as int]),
        ensures
            final(self).wf(),
            final(self).src@ == old(self).src@,
            lex_token(old(self).src@, old(self).pos as int) == Some(
                (r.tok@, final(self).pos as int),
            ),
            r.span == span,
    {
        let ghost s = self.src@;
        let ghost p = self.pos as int;
        let start = self.pos;
        self.bump();
        self.bump_while(ByteClass::IdentChar);
        proof {
            lemma_run_end(s, p + 1, ByteClass::IdentChar);
        }
        let name = slice_to_vec_range(self.src, start, self.pos);
        Spanned { tok: Token::Ident(name), span }
    }

    #[verifier::rlimit(60)]
    #[verifier::spinoff_prover]
    fn read_number_like(&mut self, span: Span) -> (r: Result<Spanned, ParseError>)
        requires
            old(self).wf(),
            old(self).pos < old(self).src@.len(),
            is_digit(old(self).src@[old(self).pos as int]),
        ensures
            final(self).wf(),
            final(self).src@ == old(self).src@,
            match lex_number_like(old(self).src@, old(self).pos as int) {
                Some((t, e)) => r matches Ok(x) && x.tok@ == t && x.span == span && final(self).pos
                    == e,
                None => r matches Err(err) && err.position() == span_pos(span),
            },
    {
        let ghost s = self.src@;
        let start = self.pos;
        let ghost p = start as int;
        self.bump_while(ByteClass::NumberChar);
        let end = self.pos;
        proof {
            lemma_run_end(s, p, ByteClass::NumberChar);
            lemma_run_end(s, p, ByteClass::Digit);
            lemma_run_end_sub(s, p, ByteClass::Digit, ByteClass::NumberChar);
        }
        // Integer part.
        let mut d = start;
        let mut ip: u64 = 0;
        while d < end && B_ZERO <= self.src[d] && self.src[d] <= B_NINE
            invariant
                self.wf(),
                self.src@ == s,
                p <= d <= end,
                end <= s.len(),
                end == run_end(s, p, ByteClass::NumberChar),
                run_end(s, d as int, ByteClass::Digit) == run_end(s, p, ByteClass::Digit),
                forall|i: int| p <= i < d ==> is_digit(#[trigger] s[i]),
                ip == sat(digits_value(s.subrange(p, d as int)) as int, SAT_CAP as int),
            decreases end - d,
        {
            proof {
                lemma_digits_value_push(s, p, d as int);
            }
            ip = sat_push_digit(ip, self.src[d]);
            d = d + 1;
        }
        proof {
            if d < s.len() {
                assert(!is_digit(s[d as int]));
            }
            assert(run_end(s, d as int, ByteClass::Digit) == d);
        }
        // Fractional part: must be digits only.
        let frac_start: usize = if d < end {
            d + 1
        } else {
            end
        };
        let mut f = frac_start;
        while f < end && B_ZERO <= self.src[f] && self.src[f] <= B_NINE
            invariant
                self.wf(),
                self.src@ == s,
                frac_start <= f <= end,
                end <= s.len(),
                run_end(s, f as int, ByteClass::Digit) == run_end(s, frac_start as int, ByteClass::Digit),
            decreases end - f,
        {
            f = f + 1;
        }
        proof {
            if f < s.len() && f == end {
                assert(!in_class(s[end as int], ByteClass::NumberChar));
            }
            if f < s.len() {
                assert(!is_digit(s[f as int]));
            }
            assert(run_end(s, f as int, ByteClass::Digit) == f);
            lemma_run_end(s, frac_start as int, ByteClass::Digit);
        }
        if f < end || frac_start == end && d < end {
            return Err(ParseError::syntax(span, quoted_message("invalid number ", self.src, start, end, "").as_str()));
        }
        let ghost frac: Seq<u8> = if d < end {
            s.subrange(d + 1, end as int)
        } else {
            Seq::empty()
        };
        let d0 = frac_digit(self.src, frac_start, end, 0);
        let d1 = frac_digit(self.src, frac_start, end, 1);
        let d2 = frac_digit(self.src, frac_start, end, 2);
        let d3 = frac_digit(self.src, frac_start, end, 3);
        let d4 = frac_digit(self.src, frac_start, end, 4);
        proof {
            assert(frac =~= s.subrange(frac_start as int, end as int));
            assert(frac_prefix_value(frac, 1) == d0);
            assert(frac_prefix_value(frac, 2) == d0 * 10 + d1);
            assert(frac_prefix_value(frac, 3) == (d0 * 10 + d1) * 10 + d2);
            assert(frac_prefix_value(frac, 4) == ((d0 * 10 + d1) * 10 + d2) * 10 + d3);
            lemma_pow10_small();
        }
        // Dimension `<n>x<digits>`.
        if d == end && is_byte(self.peek(), B_X) {
            match self.peek_at(1) {
                Some(c1) => {
                    if B_ZERO <= c1 && c1 <= B_NINE {
                        self.bump();
                        let hs = self.pos;
                        self.bump_while(ByteClass::Digit);
                        let he = self.pos;
                        proof {
                            lemma_run_end(s, hs as int, ByteClass::Digit);
                        }
                        let h = digits_sat(self.src, hs, he);
                        if h > u32::MAX as u64 {
                            return Err(ParseError::syntax(span, "invalid dimension height"));
                        }
                        let w: u32 = if ip > u32::MAX as u64 {
                            u32::MAX
                        } else {
                            ip as u32
                        };
                        return Ok(Spanned { tok: Token::Dimension(w, h as u32), span });
                    }
                },
                None => {},
            }
        }
        // Unit suffix.
        let us = self.pos;
        self.bump_while(ByteClass::Alpha);
        let ue = self.pos;
        proof {
            lemma_run_end(s, us as int, ByteClass::Alpha);
        }
        let ghost unit = s.subrange(us as int, ue as int);
        let n = ue - us;
        if n == 0 {
            let v: u128 = ip as u128 * 10000 + (((d0 * 10 + d1) * 10 + d2) * 10 + d3) as u128 + if d4
                >= 5 {
                1u128
            } else {
                0u128
            };
            let units: i64 = if v > i64::MAX as u128 {
                i64::MAX
            } else {
                v as i64
            };
            proof {
                lemma_sat_scaled(digits_value(s.subrange(p, d as int)), frac, 4, i64::MAX as int);
            }
            return Ok(Spanned { tok: Token::Number(Number { ten_thousandths: units }), span });
        }
        let b0 = self.src[us];
        if n == 2 && b0 == 109 && self.src[us + 1] == 115 {
            assert(unit =~= unit_ms());
            let v: u128 = ip as u128 + if d0 >= 5 {
                1u128
            } else {
                0u128
            };
            proof {
                lemma_sat_scaled(digits_value(s.subrange(p, d as int)), frac, 0, u32::MAX as int);
            }
            return Ok(Spanned { tok: Token::TimeMs(sat_u32(v)), span });
        }
        if n == 1 && b0 == 115 {
            assert(unit =~= unit_s());
            let v: u128 = ip as u128 * 1000 + ((d0 * 10 + d1) * 10 + d2) as u128 + if d3 >= 5 {
                1u128
            } else {
                0u128
            };
            proof {
                lemma_sat_scaled(digits_value(s.subrange(p, d as int)), frac, 3, u32::MAX as int);
            }
            return Ok(Spanned { tok: Token::TimeMs(sat_u32(v)), span });
        }
        if n == 3 && b0 == 102 && self.src[us + 1] == 112 && self.src[us + 2] == 115 {
            assert(unit =~= unit_fps());
            let v: u128 = ip as u128 + if d0 >= 5 {
                1u128
            } else {
                0u128
            };
            proof {
                lemma_sat_scaled(digits_value(s.subrange(p, d as int)), frac, 0, u32::MAX as int);
            }
            return Ok(Spanned { tok: Token::Fps(sat_u32(v)), span });
        }
        proof {
            assert(unit != unit_ms() && unit != unit_s() && unit != unit_fps()) by {
                if unit == unit_ms() {
                    assert(unit[0] == 109 && unit[1] == 115);
                }
                if unit == unit_s() {
                    assert(unit[0] == 115);
                }
                if unit == unit_fps() {
                    assert(unit[0] == 102 && unit[1] == 112 && unit[2] == 115);
                }
            }
        }
        Err(ParseError::syntax(span, quoted_message("unknown numeric unit ", self.src, us, ue, " (expected ms/s/fps)").as_str()))
    }
}

/// Every successful token stream ends with one `Eof` and has no other,
/// and every token starts inside the input.
pub open spec fn well_formed_stream(s: Seq<u8>, ts: Seq<(TokenV, int)>) -> bool {
    &&& ts.len() > 0
    &&& ts.last().0 is Eof
    &&& forall|i: int| 0 <= i < ts.len() - 1 ==> !(#[trigger] ts[i].0 is Eof)
    &&& forall|i: int| 0 <= i < ts.len() ==> 0 <= #[trigger] ts[i].1 <= s.len()
}

pub proof fn lemma_lex_from_well_formed(s: Seq<u8>, p: int)
    requires
        0 <= p <= s.len(),
    ensures
        lex_from(s, p) matches Ok(ts) ==> well_formed_stream(s, ts),
        lex_from(s, p) matches Err(e) ==> 0 <= e < s.len(),
    decreases s.len() - p,
{
    lemma_trivia_end(s, p);
    let q = trivia_end(s, p);
    if q < s.len() {
        lemma_lex_token_advances(s, q);
        if let Some((t, r)) = lex_token(s, q) {
            lemma_lex_from_well_formed(s, r);
            if let Ok(rest) = lex_from(s, r) {
                let ts = seq![(t, q)] + rest;
                assert forall|i: int| 0 <= i < ts.len() - 1 implies !(#[trigger] ts[i].0 is Eof) by {
                    if i > 0 {
                        assert(ts[i] == rest[i - 1]);
                    }
                }
                assert forall|i: int| 0 <= i < ts.len() implies 0 <= #[trigger] ts[i].1 <= s.len() by {
                    if i > 0 {
                        assert(ts[i] == rest[i - 1]);
                    }
                }
            }
        }
    }
}

/// Splits the whole input into tokens, as [`lex_from`] does from position 0.
pub fn tokenize(src: &[u8]) -> (r: Result<Vec<Spanned>, ParseError>)
    requires
        src@.len() < usize::MAX,
    ensures
        match lex_from(src@, 0) {
            Ok(ts) => r matches Ok(v) && v@.len() == ts.len() && (forall|i: int|
                0 <= i < ts.len() ==> (#[trigger] v@[i]).tok@ == ts[i].0 && span_pos(v@[i].span)
                    == line_col(src@, ts[i].1)),
            Err(p) => r matches Err(e) && e.position() == line_col(src@, p),
        },
{
    let mut lexer = Lexer::new(src);
    let mut tokens: Vec<Spanned> = Vec::new();
    let ghost mut acc: Seq<(TokenV, int)> = Seq::empty();
    let ghost s = src@;
    assert(prepend_tokens(acc, lex_from(s, 0)) == lex_from(s, 0)) by {
        if let Ok(x) = lex_from(s, 0) {
            assert(acc + x =~= x);
        }
    }
    loop
        invariant
            lexer.wf(),
            lexer.src@ == s,
            s == src@,
            lex_from(s, 0) == prepend_tokens(acc, lex_from(s, lexer.pos as int)),
            tokens@.len() == acc.len(),
            forall|i: int|
                0 <= i < acc.len() ==> (#[trigger] tokens@[i]).tok@ == acc[i].0 && span_pos(
                    tokens@[i].span,
                ) == line_col(s, acc[i].1),
        decreases s.len() - lexer.pos,
    {
        let ghost p = lexer.pos as int;
        let ghost q = trivia_end(s, p);
        proof {
            lemma_trivia_end(s, p);
            if q < s.len() {
                lemma_lex_token_advances(s, q);
            }
        }
        let t = match lexer.next_token() {
            Ok(t) => t,
            Err(e) => {
                return Err(e);
            },
        };
        let is_eof = match t.tok {
            Token::Eof => true,
            _ => false,
        };
        let ghost old_acc = acc;
        proof {
            acc = acc.push((t.tok@, q));
        }
        tokens.push(t);
        if is_eof {
            assert(lex_from(s, 0) == Ok::<Seq<(TokenV, int)>, int>(acc)) by {
                assert(old_acc + seq![(TokenV::Eof, q)] =~= acc);
            }
            return Ok(tokens);
        }
        proof {
            let r = lexer.pos as int;
            match lex_from(s, r) {
                Ok(rest) => {
                    assert(old_acc + (seq![(t.tok@, q)] + rest) =~= acc + rest);
                },
                Err(_) => {},
            }
        }
    }
}

fn is_byte(o: Option<u8>, b: u8) -> (r: bool)
    ensures
        r == (o == Some(b)),
{
    match o {
        Some(c) => c == b,
        None => false,
    }
}

pub proof fn lemma_pow10_small()
    ensures
        pow10(0) == 1,
        pow10(1) == 10,
        pow10(2) == 100,
        pow10(3) == 1000,
        pow10(4) == 10000,
{
    assert(pow10(0) == 1);
    assert(pow10(1) == 10);
    assert(pow10(2) == 100);
    assert(pow10(3) == 1000);
    assert(pow10(4) == 10000);
}

fn byte_in_class(c: u8, k: &ByteClass) -> (r: bool)
    ensures
        r == in_class(c, *k),
{
    match k {
        ByteClass::Digit => B_ZERO <= c && c <= B_NINE,
        ByteClass::Alpha => (65 <= c && c <= 90) || (97 <= c && c <= 122),
        ByteClass::Hex => (B_ZERO <= c && c <= B_NINE) || (65 <= c && c <= 70) || (97 <= c && c
            <= 102),
        ByteClass::IdentChar => (65 <= c && c <= 90) || (97 <= c && c <= 122) || (B_ZERO <= c && c
            <= B_NINE) || c == B_UNDERSCORE || c == B_MINUS,
        ByteClass::NumberChar => (B_ZERO <= c && c <= B_NINE) || c == B_DOT,
        ByteClass::NotNewline => c != B_LF,
    }
}

fn hex_digit_value(c: u8) -> (r: u8)
    requires
        is_hex_digit(c),
    ensures
        r == hex_value(c),
{
    if B_ZERO <= c && c <= B_NINE {
        c - B_ZERO
    } else if 97 <= c && c <= 102 {
        c - 87
    } else {
        c - 55
    }
}

fn hex_pair(hi: u8, lo: u8) -> (r: u8)
    requires
        is_hex_digit(hi),
        is_hex_digit(lo),
    ensures
        r == (hex_value(hi) * 16 + hex_value(lo)) as u8,
{
    hex_digit_value(hi) * 16 + hex_digit_value(lo)
}

fn sat_u32(v: u128) -> (r: u32)
    ensures
        r == sat(v as int, u32::MAX as int),
{
    if v > u32::MAX as u128 {
        u32::MAX
    } else {
        v as u32
    }
}

/// `min(10·acc + digit, SAT_CAP)`.
fn sat_push_digit(acc: u64, c: u8) -> (r: u64)
    requires
        acc <= SAT_CAP,
        is_digit(c),
    ensures
        r == sat(acc * 10 + digit_value(c), SAT_CAP as int),
{
    if acc >= SAT_CAP / 10 + 1 {
        SAT_CAP
    } else {
        let v = acc * 10 + (c - B_ZERO) as u64;
        if v > SAT_CAP {
            SAT_CAP
        } else {
            v
        }
    }
}

/// Value of the digits `src[a..b]`, saturated at `SAT_CAP`.
fn digits_sat(src: &[u8], a: usize, b: usize) -> (r: u64)
    requires
        a <= b <= src@.len(),
        forall|i: int| a <= i < b ==> is_digit(#[trigger] src@[i]),
    ensures
        r == sat(digits_value(src@.subrange(a as int, b as int)) as int, SAT_CAP as int),
{
    let mut acc: u64 = 0;
    let mut i = a;
    while i < b
        invariant
            a <= i <= b <= src@.len(),
            forall|j: int| a <= j < b ==> is_digit(#[trigger] src@[j]),
            acc == sat(digits_value(src@.subrange(a as int, i as int)) as int, SAT_CAP as int),
        decreases b - i,
    {
        proof {
            lemma_digits_value_push(src@, a as int, i as int);
        }
        acc = sat_push_digit(acc, src[i]);
        i = i + 1;
    }
    acc
}

/// Digit `i` of the fraction `src[a..b]`, zero past its end.
fn frac_digit(src: &[u8], a: usize, b: usize, i: usize) -> (r: u64)
    requires
        a <= b <= src@.len(),
        i <= 4,
        forall|j: int| a <= j < b ==> is_digit(#[trigger] src@[j]),
    ensures
        r == digit_at(src@.subrange(a as int, b as int), i as int),
        r <= 9,
{
    if i < b - a {
        (src[a + i] - B_ZERO) as u64
    } else {
        0
    }
}

/// Copy of `src[a..b]`.
pub fn slice_to_vec_range(src: &[u8], a: usize, b: usize) -> (v: Vec<u8>)
    requires
        a <= b <= src@.len(),
    ensures
        v@ == src@.subrange(a as int, b as int),
{
    let mut v: Vec<u8> = Vec::new();
    let mut i = a;
    while i < b
        invariant
            a <= i <= b <= src@.len(),
            v@ == src@.subrange(a as int, i as int),
        decreases b - i,
    {
        v.push(src[i]);
        proof {
            assert(v@ =~= src@.subrange(a as int, i + 1));
        }
        i = i + 1;
    }
    v
}

// --------------------------------------------------------------------
// Lemmas
// --------------------------------------------------------------------

pub proof fn lemma_digits_value_push(s: Seq<u8>, a: int, i: int)
    requires
        0 <= a <= i < s.len(),
    ensures
        digits_value(s.subrange(a, i + 1)) == digits_value(s.subrange(a, i)) * 10 + digit_value(
            s[i],
        ),
{
    assert(s.subrange(a, i + 1).drop_last() =~= s.subrange(a, i));
}

pub proof fn lemma_run_end_sub(s: Seq<u8>, p: int, k1: ByteClass, k2: ByteClass)
    requires
        0 <= p <= s.len(),
        forall|c: u8| in_class(c, k1) ==> in_class(c, k2),
    ensures
        run_end(s, p, k1) <= run_end(s, p, k2),
    decreases s.len() - p,
{
    lemma_run_end(s, p, k2);
    if p < s.len() && in_class(s[p], k1) {
        lemma_run_end_sub(s, p + 1, k1, k2);
    }
}

/// A run of class `k` from `p` that is all of class `k` up to `e`, with `e` the end
/// of the input or a byte out of the class, ends at `e`.
pub proof fn lemma_run_end_stops_at(s: Seq<u8>, p: int, k: ByteClass, e: int)
    requires
        0 <= p <= e <= s.len(),
        forall|i: int| p <= i < e ==> in_class(#[trigger] s[i], k),
        e == s.len() || !in_class(s[e], k),
    ensures
        run_end(s, p, k) == e,
    decreases e - p,
{
    if p < e {
        lemma_run_end_stops_at(s, p + 1, k, e);
    }
}

proof fn lemma_sat_scaled(ip: nat, frac: Seq<u8>, k: nat, max: int)
    requires
        max <= SAT_CAP * pow10(k),
        0 <= max,
    ensures
        sat(sat(ip as int, SAT_CAP as int) * pow10(k) + frac_prefix_value(frac, k) + (if digit_at(
            frac,
            k as int,
        ) >= 5 {
            1int
        } else {
            0int
        }), max) == sat(scaled(ip, frac, k) as int, max),
{
    if ip > SAT_CAP {
        assert(ip * pow10(k) >= SAT_CAP * pow10(k)) by (nonlinear_arith)
            requires
                ip > SAT_CAP,
                pow10(k) >= 0,
        ;
    }
}


// --------------------------------------------------------------------
// The value of a seconds literal
// --------------------------------------------------------------------

proof fn lemma_pow10_add(a: nat, b: nat)
    ensures
        pow10(a + b) == pow10(a) * pow10(b),
        pow10(a) >= 1,
    decreases a,
{
    if a > 0 {
        let a1 = (a - 1) as nat;
        lemma_pow10_add(a1, b);
        assert((a + b) as nat != 0);
        assert(((a + b) - 1) as nat == a1 + b);
        assert(pow10(a + b) == 10 * pow10(a1 + b));
        assert(pow10(a) == 10 * pow10(a1));
        assert(10 * (pow10(a1) * pow10(b)) == (10 * pow10(a1)) * pow10(b)) by (nonlinear_arith);
    } else {
        assert(a + b == b);
        assert(pow10(a) == 1);
    }
}

proof fn lemma_digits_concat(x: Seq<u8>, y: Seq<u8>)
    ensures
        digits_value(x + y) == digits_value(x) * pow10(y.len()) + digits_value(y),
    decreases y.len(),
{
    if y.len() == 0 {
        assert(x + y =~= x);
        assert(pow10(0) == 1);
        assert(digits_value(y) == 0);
    } else {
        lemma_digits_concat(x, y.drop_last());
        assert((x + y).drop_last() =~= x + y.drop_last());
        assert((x + y).last() == y.last());
        let a = digits_value(x);
        let b = digits_value(y.drop_last());
        let e = pow10(y.drop_last().len());
        assert(pow10(y.len()) == 10 * e);
        assert(digits_value(y) == b * 10 + digit_value(y.last()));
        assert(digits_value(x + y) == digits_value(x + y.drop_last()) * 10 + digit_value(y.last()));
        assert((a * e + b) * 10 + digit_value(y.last()) == a * (10 * e) + (b * 10 + digit_value(
            y.last(),
        ))) by (nonlinear_arith);
    }
}

proof fn lemma_digits_bound(x: Seq<u8>)
    requires
        forall|j: int| 0 <= j < x.len() ==> is_digit(#[trigger] x[j]),
    ensures
        digits_value(x) < pow10(x.len()),
    decreases x.len(),
{
    if x.len() > 0 {
        let y = x.drop_last();
        assert forall|j: int| 0 <= j < y.len() implies is_digit(#[trigger] y[j]) by {
            assert(y[j] == x[j]);
        }
        lemma_digits_bound(y);
        assert(is_digit(x[x.len() - 1]));
        assert(digit_value(x.last()) <= 9);
        assert(digits_value(y) * 10 + 9 < pow10(y.len()) * 10) by (nonlinear_arith)
            requires
                digits_value(y) < pow10(y.len()),
        ;
    }
}

proof fn lemma_prefix_value(f: Seq<u8>, k: nat)
    ensures
        k <= f.len() ==> frac_prefix_value(f, k) == digits_value(f.subrange(0, k as int)),
        k >= f.len() ==> frac_prefix_value(f, k) == digits_value(f) * pow10((k - f.len()) as nat),
    decreases k,
{
    if k > 0 {
        lemma_prefix_value(f, (k - 1) as nat);
        assert(frac_prefix_value(f, k) == frac_prefix_value(f, (k - 1) as nat) * 10 + digit_at(f, k - 1));
        if k <= f.len() {
            assert(f.subrange(0, k as int).drop_last() =~= f.subrange(0, k - 1));
            assert(f.subrange(0, k as int).last() == f[k - 1]);
            assert(digit_at(f, k - 1) == digit_value(f[k - 1]));
            assert(frac_prefix_value(f, k) == digits_value(f.subrange(0, k as int)));
            if k == f.len() {
                assert(f.subrange(0, k as int) =~= f);
                assert(pow10(0) == 1);
                assert((k - f.len()) as nat == 0);
                assert(frac_prefix_value(f, k) == digits_value(f));
                let one = pow10(0);
                assert(one == 1);
                assert(digits_value(f) * one == digits_value(f)) by (nonlinear_arith)
                    requires
                        one == 1,
                ;
                assert(frac_prefix_value(f, k) == digits_value(f) * pow10((k - f.len()) as nat));
            }
        } else if k - 1 == f.len() {
            assert(f.subrange(0, f.len() as int) =~= f);
            assert(digit_at(f, k - 1) == 0);
            assert(pow10(1) == 10 * pow10(0));
            assert(pow10(0) == 1);
            assert((k - f.len()) as nat == 1);
            assert(frac_prefix_value(f, (k - 1) as nat) == digits_value(f));
            assert(frac_prefix_value(f, k) == digits_value(f) * 10);
            assert(frac_prefix_value(f, k) == digits_value(f) * pow10((k - f.len()) as nat));
        } else {
            let e = pow10((k - 1 - f.len()) as nat);
            assert(digit_at(f, k - 1) == 0);
            assert(((k - f.len()) - 1) as nat == (k - 1 - f.len()) as nat);
            assert(pow10((k - f.len()) as nat) == 10 * e);
            assert(digits_value(f) * e * 10 == digits_value(f) * (10 * e)) by (nonlinear_arith);
            assert(frac_prefix_value(f, k) == digits_value(f) * pow10((k - f.len()) as nat));
        }
    } else {
        assert(pow10(0) == 1);
        if f.len() == 0 {
            assert(digits_value(f) == 0);
            assert((k - f.len()) as nat == 0);
            assert(frac_prefix_value(f, k) == 0);
            assert(digits_value(f) * pow10((k - f.len()) as nat) == 0);
        }
        assert(f.subrange(0, 0) =~= Seq::<u8>::empty());
        assert(digits_value(Seq::<u8>::empty()) == 0);
    }
}

/// The decimal `n / 10^l` times `10^k`, rounded half up to a whole number.
pub open spec fn decimal_scaled(n: nat, l: nat, k: nat) -> nat {
    ((2 * pow10(k) * n + pow10(l)) / (2 * pow10(l))) as nat
}

proof fn lemma_scaled_rounds(ip: nat, f: Seq<u8>, k: nat)
    requires
        forall|j: int| 0 <= j < f.len() ==> is_digit(#[trigger] f[j]),
    ensures
        scaled(ip, f, k) == decimal_scaled(ip * pow10(f.len()) + digits_value(f), f.len(), k),
{
    let l = f.len();
    let dd = pow10(l);
    let pk = pow10(k);
    let fv = digits_value(f);
    lemma_pow10_add(l, 0);
    lemma_pow10_add(k, 0);
    let x = scaled(ip, f, k) as int;
    let nn = ip * dd + fv;
    let num = 2 * pk * nn + dd;
    lemma_prefix_value(f, k);
    if l <= k {
        let g = pow10((k - l) as nat);
        lemma_pow10_add((k - l) as nat, l);
        assert(((k - l) as nat + l) as nat == k);
        assert(g * dd == pk);
        assert(digit_at(f, k as int) == 0);
        assert(x == ip * pk + fv * g);
        assert(num == x * (2 * dd) + dd) by (nonlinear_arith)
            requires
                g * dd == pk,
                x == ip * pk + fv * g,
                nn == ip * dd + fv,
                num == 2 * pk * nn + dd,
        ;
        vstd::arithmetic::div_mod::lemma_fundamental_div_mod_converse(num as int, (2 * dd) as int, x, dd as int);
    } else {
        let e = pow10((l - k - 1) as nat);
        lemma_pow10_add(k, (l - k) as nat);
        lemma_pow10_add(1, (l - k - 1) as nat);
        lemma_pow10_add((l - k - 1) as nat, 0);
        assert(pow10(1) == 10) by {
            assert(pow10(0) == 1);
        }
        assert((k + (l - k) as nat) as nat == l);
        assert((1 + (l - k - 1) as nat) as nat == (l - k) as nat);
        assert(pow10((l - k) as nat) == 10 * e);
        assert(dd == pk * (10 * e));
        let a = f.subrange(0, k as int);
        let rest = f.subrange(k as int, l as int);
        let rest2 = f.subrange(k as int + 1, l as int);
        assert(f =~= a + rest);
        assert(rest =~= seq![f[k as int]] + rest2);
        lemma_digits_concat(a, rest);
        lemma_digits_concat(seq![f[k as int]], rest2);
        assert(digits_value(seq![f[k as int]]) == digit_value(f[k as int])) by {
            let one = seq![f[k as int]];
            assert(one.drop_last() =~= Seq::<u8>::empty());
            assert(digits_value(Seq::<u8>::empty()) == 0);
            assert(digits_value(one) == digits_value(one.drop_last()) * 10 + digit_value(one.last()));
        }
        assert forall|j: int| 0 <= j < rest2.len() implies is_digit(#[trigger] rest2[j]) by {
            assert(rest2[j] == f[j + k + 1]);
        }
        lemma_digits_bound(rest2);
        let av = digits_value(a);
        let c = digit_value(f[k as int]);
        let r2 = digits_value(rest2);
        assert(is_digit(f[k as int]));
        assert(c <= 9);
        assert(digit_at(f, k as int) == c);
        assert(rest.len() == (l - k) as nat);
        assert(rest2.len() == (l - k - 1) as nat);
        assert(fv == av * (10 * e) + (c * e + r2)) by (nonlinear_arith)
            requires
                fv == av * pow10(rest.len()) + digits_value(rest),
                pow10(rest.len()) == 10 * e,
                digits_value(rest) == c * pow10(rest2.len()) + r2,
                pow10(rest2.len()) == e,
        ;
        let up: int = if c >= 5 { 1 } else { 0 };
        assert(x == ip * pk + av + up);
        let rem = num - x * (2 * dd);
        assert(rem == 2 * pk * fv + dd - 2 * dd * av - 2 * dd * up) by (nonlinear_arith)
            requires
                x == ip * pk + av + up,
                nn == ip * dd + fv,
                num == 2 * pk * nn + dd,
                rem == num - x * (2 * dd),
        ;
        let pe = pk * e;
        assert(dd == 10 * pe) by (nonlinear_arith)
            requires
                dd == pk * (10 * e),
                pe == pk * e,
        ;
        assert(pk * fv == 10 * pe * av + pe * c + pk * r2) by (nonlinear_arith)
            requires
                fv == av * (10 * e) + (c * e + r2),
                pe == pk * e,
        ;
        let pc = pe * c;
        let pr = pk * r2;
        let pa = pe * av;
        assert(2 * pk * fv == 20 * pa + 2 * pc + 2 * pr) by (nonlinear_arith)
            requires
                pk * fv == 10 * pe * av + pe * c + pk * r2,
                pc == pe * c,
                pr == pk * r2,
                pa == pe * av,
        ;
        assert(2 * dd * av == 20 * pa && 2 * dd * up == 20 * pe * up) by (nonlinear_arith)
            requires
                dd == 10 * pe,
                pa == pe * av,
        ;
        assert(rem == 2 * pc + 2 * pr + 10 * pe - 20 * pe * up);
        assert(0 <= pr < pe) by (nonlinear_arith)
            requires
                pr == pk * r2,
                pe == pk * e,
                0 <= r2 < e,
                pk >= 1,
        ;
        if c >= 5 {
            assert(10 * pe <= 2 * pc <= 18 * pe) by (nonlinear_arith)
                requires
                    pc == pe * c,
                    5 <= c <= 9,
                    pe >= 0,
            ;
        } else {
            assert(0 <= 2 * pc <= 8 * pe) by (nonlinear_arith)
                requires
                    pc == pe * c,
                    0 <= c <= 4,
                    pe >= 0,
            ;
        }
        assert(0 <= rem < 2 * dd);
        vstd::arithmetic::div_mod::lemma_fundamental_div_mod_converse(num as int, (2 * dd) as int, x, rem);
    }
}

/// A numeric literal: digits `I` at `p .. d`, optionally a point and
/// digits `F` at `d + 1 .. q`, then the letters `q .. u` of its unit (none
/// for a plain number), and no dimension `IxH`. Its value is the decimal `I.F`, and it lexes to
/// that value rounded half up: a plain number to ten-thousandths (capped
/// at `i64::MAX`), `ms` to milliseconds, `s` to milliseconds (so `1.5s` is
/// 1500 ms), `fps` to frames a second (the last three capped at
/// `u32::MAX`); any other unit is refused.
pub proof fn lemma_numeric_literal(s: Seq<u8>, p: int, d: int, q: int, u: int)
    requires
        0 <= p < d <= q <= u <= s.len(),
        forall|j: int| p <= j < d ==> is_digit(#[trigger] s[j]),
        d < q ==> s[d] == B_DOT && d + 1 < q && forall|j: int| d < j < q ==> is_digit(#[trigger] s[j]),
        q == s.len() || (!is_digit(s[q]) && s[q] != B_DOT),
        forall|j: int| q <= j < u ==> is_alpha(#[trigger] s[j]),
        u == s.len() || !is_alpha(s[u]),
        !(d == q && q + 1 < s.len() && s[q] == B_X && is_digit(s[q + 1])),
    ensures
        ({
            let f = if d < q { s.subrange(d + 1, q) } else { Seq::<u8>::empty() };
            let n = digits_value(s.subrange(p, d)) * pow10(f.len()) + digits_value(f);
            let unit = s.subrange(q, u);
            let ms = decimal_scaled(n, f.len(), 0);
            let sec = decimal_scaled(n, f.len(), 3);
            let units = decimal_scaled(n, f.len(), 4);
            &&& u == q ==> lex_number_like(s, p) == Some(
                (
                    TokenV::Number(
                        Number {
                            ten_thousandths: if units > i64::MAX { i64::MAX } else { units as i64 },
                        },
                    ),
                    q,
                ),
            )
            &&& unit == seq![109u8, 115u8] ==> lex_number_like(s, p) == Some(
                (TokenV::TimeMs(if ms > u32::MAX { u32::MAX } else { ms as u32 }), u),
            )
            &&& unit == seq![115u8] ==> lex_number_like(s, p) == Some(
                (TokenV::TimeMs(if sec > u32::MAX { u32::MAX } else { sec as u32 }), u),
            )
            &&& unit == seq![102u8, 112u8, 115u8] ==> lex_number_like(s, p) == Some(
                (TokenV::Fps(if ms > u32::MAX { u32::MAX } else { ms as u32 }), u),
            )
            &&& u > q && unit != seq![109u8, 115u8] && unit != seq![115u8] && unit != seq![
                102u8,
                112u8,
                115u8,
            ] ==> lex_number_like(s, p) is None
        }),
{
    let f = if d < q { s.subrange(d + 1, q) } else { Seq::<u8>::empty() };
    let ip = digits_value(s.subrange(p, d));
    assert(d == s.len() || !is_digit(s[d]));
    lemma_run_end_stops_at(s, p, ByteClass::Digit, d);
    assert forall|j: int| p <= j < q implies in_class(#[trigger] s[j], ByteClass::NumberChar) by {
        if j < d {
            assert(is_digit(s[j]));
        } else if j > d {
            assert(is_digit(s[j]));
        }
    }
    assert(q == s.len() || !in_class(s[q], ByteClass::NumberChar)) by {
        if q < s.len() {
            if u > q {
                assert(is_alpha(s[q]));
            }
        }
    }
    lemma_run_end_stops_at(s, p, ByteClass::NumberChar, q);
    if d < q {
        lemma_run_end_stops_at(s, d + 1, ByteClass::Digit, q);
    }
    assert(d == q && q + 1 < s.len() && s[q] == B_X ==> u > q) by {
        if d == q && q + 1 < s.len() && s[q] == B_X {
            assert(is_alpha(s[q]));
        }
    }
    lemma_run_end_stops_at(s, q, ByteClass::Alpha, u);
    assert forall|j: int| 0 <= j < f.len() implies is_digit(#[trigger] f[j]) by {
        assert(f[j] == s[d + 1 + j]);
    }
    lemma_scaled_rounds(ip, f, 0);
    lemma_scaled_rounds(ip, f, 3);
    lemma_scaled_rounds(ip, f, 4);
    assert(unit_ms() == seq![109u8, 115u8]);
    assert(unit_s() == seq![115u8]);
    assert(unit_fps() == seq![102u8, 112u8, 115u8]);
    let unit = s.subrange(q, u);
    let q2 = run_end(s, p, ByteClass::NumberChar);
    let d2 = run_end(s, p, ByteClass::Digit);
    assert(q2 == q && d2 == d);
    let frac = if d2 < q2 { s.subrange(d2 + 1, q2) } else { Seq::empty() };
    assert(frac == f);
    assert(!(d < q && (run_end(s, d + 1, ByteClass::Digit) != q || q == d + 1)));
    assert(run_end(s, q, ByteClass::Alpha) == u);
}

} // verus!
