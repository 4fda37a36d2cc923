# vac — Video As Code

`.vac` is a small text format that describes an animation as code: a canvas,
scenes with a duration, shapes (`rect`, `ellipse`) with fill and stroke, and
`animate` blocks of keyframes with an easing. This crate compiles such a
document to a video and decompiles a video back into a document.

The library (`src/`) is written in Verus and verified:

- `ast`, `lexer`, `parser`, `writer`: the format. `roundtrip` proves that
  parsing what the writer prints gives back the document.
- `render`: what every shape looks like at a given time (declarations,
  assignments, keyframe interpolation along the easing curve), the frame
  timeline of a scene, premultiplied-to-plain pixel conversion, and the
  encoding of rendered frames as a GIF (through the `image` crate).
- `detect`, `union_find`, `stats`: background estimate, foreground mask,
  4-connected component labelling (proved to give exactly the components,
  numbered by the labels opened in raster order), and the measurements of
  every component large enough to be a ball.
- `tracking`: cross-frame tracking, a lowest-cost-first greedy matching of
  the active tracks to each frame's blobs (position, size, colour), with
  new tracks for blobs left over and a gap tolerance of three frames; the
  tracks hold exactly as many samples as the frames have blobs.
- `frames`, `track`, `decompile`: GIF decoding (through the `image`
  crate) into frames, frame timing, temporal
  Ramer-Douglas-Peucker simplification (dropped samples stay within the
  tolerance of the kept chord), easing classification, and the emitted
  document: one `shape_<n>` per track, which survives writing and parsing
  back.
- `facade`: the error type, the choice of format by file extension, and
  text conversions.

Positions are fixed-point numbers with four decimals (`Number`) and all
geometry is exact integer arithmetic.

`app/` is the command-line program: reading and writing files, and
anti-aliased rasterisation (`tiny-skia`, in floating point).
