//! Glyph recognition from ray profiles.
//!
//! A glyph bitmap is summarised by eight "ray" profiles: for every row the
//! distance travelled from the left edge, the right edge and the vertical
//! centre line before a set pixel is hit, and likewise for every column from
//! the top edge, the bottom edge and the horizontal centre line.  Glyphs are
//! compared by the differences between their profiles.
pub mod glyph;
pub mod glyph_dataset;
pub mod glyph_rays;
pub mod glyph_recognizer;
pub mod sample_names;
pub mod laws;
