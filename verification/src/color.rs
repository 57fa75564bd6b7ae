use vstd::prelude::*;

verus! {

/// The named colours that the game's text and tiles are drawn with.
#[derive(Clone, Copy, PartialEq, Eq, Structural, Debug)]
pub enum Palette {
    Red,
    Blue,
    White,
    Green,
    Pink,
    Gray,
    DarkGray,
    OrangeRed,
    Yellow,
    Cyan,
    AntiqueWhite,
    Black,
    /// Fully transparent.
    Transparent,
    /// The light grey of plain log lines.
    LogGray,
}

} // verus!
