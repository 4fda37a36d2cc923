//! Video As Code: the `.vac` source format (AST, parser, writer), the
//! compiler's scene evaluation (shape states over time, frame timeline,
//! pixel conversion) and the decompiler's analysis (background estimate,
//! component labelling, blob measurement, trajectory simplification,
//! easing classification, document emission).
use vstd::prelude::*;

pub mod ast;
pub mod lexer;
pub mod parser;
pub mod writer;
pub mod roundtrip;
pub mod stats;
pub mod detect;
pub mod union_find;
pub mod frames;
pub mod track;
pub mod tracking;
pub mod render;
pub mod decompile;
pub mod facade;

pub use ast::{
    Animation, Canvas, Color, Document, Easing, Keyframe, Number, Property, Scene, Shape, Statement,
    Transform, Value,
};
pub use decompile::{decompile_frames, DecompileError};
pub use detect::{Blob, Detection, VideoFrame};
pub use facade::{to_string, video_format, DocumentExt, Error, VideoFormat};
pub use frames::estimate_fps;
pub use lexer::ParseError;
pub use parser::parse;
pub use render::{CompileError, RenderedFrame};

verus! {
} // verus!
