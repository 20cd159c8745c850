//! Glyph atlas tooling for bitmap fonts.
//!
//! - `name_codec`: glyph metadata to and from a file-name stem.
//! - `packer`: the greedy row packer that lays glyph bitmaps out in one atlas.
//! - `slicer`: cuts an atlas back into glyph bitmaps using the dictionary.
//! - `assemble`: orders a glyph set by character code, refusing duplicates,
//!   and packs it.
//! - `outline`: turns a rasterized outline-font glyph into a packable glyph.
//! - `glyph`, `params`: the data the other modules share.

pub mod glyph;
pub mod name_codec;
pub mod packer;
pub mod slicer;
pub mod assemble;
pub mod outline;
pub mod params;
