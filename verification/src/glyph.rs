use vstd::prelude::*;
use crate::glyph_rays::GlyphRays;

verus! {

/// A reference glyph: the text it stands for, the largest difference seen between its
/// profiles and one of the samples they were averaged from, and the averaged profiles.
pub struct Glyph {
    pub value: String,
    pub max_error: u32,
    pub ray: GlyphRays,
}

} // verus!
