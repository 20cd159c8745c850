use vstd::prelude::*;

verus! {

/// Paths for cutting a dictionary and its texture into glyph files.
#[derive(Clone, Debug)]
pub struct GenerateParameter {
    /// the input dictionary file
    pub dic_input: String,
    /// the input texture file
    pub img_input: String,
    /// the output folder
    pub output: String,
}

/// Paths for building a dictionary and a texture from a folder of glyph files.
#[derive(Clone, Debug)]
pub struct BuildParameter {
    /// the input folder
    pub input: String,
    /// the output dictionary file
    pub dic_output: String,
    /// the output texture file
    pub img_output: String,
}

/// Paths for importing glyphs from an outline font into a folder of glyph files.
#[derive(Clone, Debug)]
pub struct FromTruetypeParameter {
    /// the input TrueType font
    pub input: String,
    /// the output folder
    pub output: String,
}

} // verus!
