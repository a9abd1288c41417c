use vstd::prelude::*;

pub mod chars;
pub mod line;
pub mod glyph;
pub mod layout;
pub mod sheet;
pub mod text;
pub mod font;
pub mod ini;
pub mod toff;
pub mod style;
pub mod typography;
pub mod richtext;
pub mod ligature;
pub mod measure;
pub mod fit;
pub mod wrapping;
pub mod styling;
pub mod justify;
pub mod render;
pub mod page;
pub mod builtin;
pub mod laws;

pub use font::{Font, FontError};
pub use glyph::{Glyph, Glyphs};
pub use line::{LineStyle, LineStyleOverride, LineType};
pub use typography::{LigatureStyleMethod, Typography};

verus! {
}
