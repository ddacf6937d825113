//! Colours and text attributes, independent of the terminal library.

use vstd::prelude::*;

verus! {

/// A colour: the terminal's own, one of its named ones, a palette index, or RGB.
#[derive(Debug, Clone, Copy, PartialEq, Eq, Structural)]
pub enum Color {
    Reset,
    Black,
    Red,
    Green,
    Yellow,
    Blue,
    Magenta,
    Cyan,
    Gray,
    DarkGray,
    LightRed,
    White,
    Indexed(u8),
    Rgb(u8, u8, u8),
}

/// Text attributes.
#[derive(Debug, Clone, Copy, PartialEq, Eq, Structural)]
pub struct Modifier {
    pub bold: bool,
    pub dim: bool,
    pub italic: bool,
    pub underlined: bool,
    pub reversed: bool,
}

/// No attribute.
pub open spec fn plain_text() -> Modifier {
    Modifier { bold: false, dim: false, italic: false, underlined: false, reversed: false }
}

impl Modifier {
    /// No attribute.
    pub fn empty() -> (r: Modifier)
        ensures
            r == plain_text(),
    {
        Modifier { bold: false, dim: false, italic: false, underlined: false, reversed: false }
    }
}

} // verus!
