//! Font selection values carried by computed styles and font queries.

use vstd::prelude::*;

verus! {

/// CSS `font-weight`.
#[derive(Debug, Clone, Copy, PartialEq, Eq, Hash, Structural)]
pub enum FontWeight {
    Normal,
    Bold,
    Weight(u16),
}

impl Default for FontWeight {
    fn default() -> (w: Self)
        ensures
            w == FontWeight::Normal,
    {
        FontWeight::Normal
    }
}

/// CSS `font-style`.
#[derive(Debug, Clone, Copy, PartialEq, Eq, Hash, Structural)]
pub enum FontStyle {
    Normal,
    Italic,
    Oblique,
}

impl Default for FontStyle {
    fn default() -> (s: Self)
        ensures
            s == FontStyle::Normal,
    {
        FontStyle::Normal
    }
}

/// The font provider that estimates text size from the character count
/// alone; the estimate itself is computed by the layout layer.
pub struct NoOpFontProvider;

} // verus!
