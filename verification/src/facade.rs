//! The library's front door: one error type, the choice of video format
//! by file extension, and text conversions of documents.
use vstd::prelude::*;
use vstd::string::*;
use crate::ast::Document;
use crate::decompile::DecompileError;
use crate::lexer::ParseError;
use crate::parser::spec_parse;
use crate::render::CompileError;
use crate::writer::spec_write;

verus! {

/// Everything that can go wrong in the library.
pub enum Error {
    Parse(ParseError),
    Compile(CompileError),
    Decompile(DecompileError),
    /// The destination's extension names no supported video format.
    UnsupportedVideoFormat { ext: String },
    /// The destination has no extension to choose a format by.
    MissingExtension { path: String },
}

/// Video formats, chosen by file extension.
#[derive(Debug, Clone, Copy, PartialEq, Eq, Structural)]
pub enum VideoFormat {
    Gif,
}

/// `c` with ASCII upper-case letters mapped to lower case.
pub open spec fn ascii_lower(c: char) -> char {
    if 'A' <= c <= 'Z' {
        ((c as u32) + 32) as char
    } else {
        c
    }
}

pub open spec fn lower_text(s: Seq<char>) -> Seq<char> {
    s.map_values(|c: char| ascii_lower(c))
}

/// The format named by an extension (compared in ASCII lower case):
/// `gif`, or the lower-cased extension that names none.
pub open spec fn format_of_extension(ext: Seq<char>) -> Result<VideoFormat, Seq<char>> {
    if lower_text(ext) == "gif"@ {
        Ok(VideoFormat::Gif)
    } else {
        Err(lower_text(ext))
    }
}

fn lowercase(s: &str) -> (r: String)
    ensures
        r@ == lower_text(s@),
{
    let n = s.unicode_len();
    let mut r = String::new();
    let mut i: usize = 0;
    while i < n
        invariant
            n == s@.len(),
            0 <= i <= n,
            r@ == lower_text(s@.subrange(0, i as int)),
        decreases n - i,
    {
        let c = s.get_char(i);
        let l = if 'A' <= c && c <= 'Z' {
            let v: u8 = c as u8 + 32;
            v as char
        } else {
            c
        };
        crate::ast::string_push(&mut r, l);
        proof {
            assert(s@.subrange(0, i + 1) == s@.subrange(0, i as int).push(c));
            assert(l == ascii_lower(c));
            assert(lower_text(s@.subrange(0, i + 1)) =~= lower_text(s@.subrange(0, i as int)).push(l));
        }
        i = i + 1;
    }
    proof {
        assert(s@.subrange(0, n as int) == s@);
    }
    r
}

/// Chooses the video format of a destination by its extension `ext`
/// (ASCII case-insensitive); `path` names the destination in the error
/// for a missing extension.
pub fn video_format(path: &str, ext: Option<&str>) -> (r: Result<VideoFormat, Error>)
    ensures
        match ext {
            None => r matches Err(Error::MissingExtension { path: p }) && p@ == path@,
            Some(e) => match format_of_extension(e@) {
                Ok(f) => r == Ok::<VideoFormat, Error>(f),
                Err(l) => r matches Err(Error::UnsupportedVideoFormat { ext: x }) && x@ == l,
            },
        },
{
    match ext {
        None => Err(Error::MissingExtension { path: path.to_owned() }),
        Some(e) => {
            let l = lowercase(e);
            let gif: [char; 3] = ['g', 'i', 'f'];
            proof {
                reveal_strlit("gif");
                assert(gif@ == "gif"@);
            }
            let b = l.as_str();
            let is_gif = b.unicode_len() == 3 && b.get_char(0) == 'g' && b.get_char(1) == 'i'
                && b.get_char(2) == 'f';
            proof {
                if is_gif {
                    assert(l@ =~= "gif"@);
                } else {
                    assert(l@ != "gif"@);
                }
            }
            if is_gif {
                Ok(VideoFormat::Gif)
            } else {
                Err(Error::UnsupportedVideoFormat { ext: l })
            }
        },
    }
}

/// Parses `.vac` source, reporting a syntax error as [`Error::Parse`].
pub fn parse(src: &str) -> (r: Result<Document, Error>)
    requires
        src.spec_bytes().len() < usize::MAX,
    ensures
        match spec_parse(src.spec_bytes()) {
            Ok(d) => r matches Ok(x) && x@ == d,
            Err(p) => r matches Err(Error::Parse(e)) && e.position() == p,
        },
{
    match crate::parser::parse(src) {
        Ok(d) => Ok(d),
        Err(e) => Err(Error::Parse(e)),
    }
}

/// The `.vac` source text of a document.
pub fn to_string(doc: &Document) -> (s: String)
    ensures
        s@ == spec_write(doc@),
{
    crate::writer::write(doc)
}

/// Method-style conversions of a document.
pub trait DocumentExt {
    /// The `.vac` source text of this document.
    fn to_vac_string(&self) -> String;
}

impl DocumentExt for Document {
    fn to_vac_string(&self) -> (s: String)
        ensures
            s@ == spec_write(self@),
    {
        crate::writer::write(self)
    }
}

} // verus!
