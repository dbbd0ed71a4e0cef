//! Fonts as they are shown.
use vstd::prelude::*;

verus! {

/// Where a font comes from.
#[derive(Clone, Copy, Debug, PartialEq, Eq, Structural)]
pub enum FontSource {
    System,
    Bundled,
}

/// How a face stands.
#[derive(Clone, Copy, Debug, PartialEq, Eq, Structural)]
pub enum FontStyle {
    Normal,
    Italic,
    Oblique,
}

/// The weights that a face can take.
#[derive(Clone, Copy, Debug, PartialEq, Eq, Structural)]
pub struct FontRange {
    pub minimum: u16,
    pub maximum: u16,
}

/// What a font is made for.
#[derive(Debug)]
pub struct FontMetadata {
    pub primary_script: Option<String>,
    pub scripts: Vec<String>,
    pub languages: Vec<String>,
    pub category: Option<String>,
    pub classifications: Vec<String>,
    pub use_cases: Vec<String>,
}

/// A face of a font.
#[derive(Debug)]
pub struct FontFace {
    pub postscript_name: String,
    pub weight: u16,
    pub weight_range: Option<FontRange>,
    pub style: FontStyle,
}

/// A font with its faces.
#[derive(Debug)]
pub struct FontFamily {
    pub name: String,
    pub metadata: FontMetadata,
    pub sources: Vec<FontSource>,
    pub faces: Vec<FontFace>,
}

} // verus!
