//! User preferences: the highlight colour of the interface.

use vstd::prelude::*;

verus! {

/// The highlight colours the interface cycles through.
#[derive(Clone, Copy, PartialEq, Eq, Structural, Debug)]
pub enum HighlightColor {
    Cyan,
    Green,
    Yellow,
    Orange,
    Pink,
    Magenta,
    Purple,
    Blue,
    Red,
    White,
}

impl HighlightColor {
    /// The colour after this one in the cycle.
    pub fn next(&self) -> (r: Self)
        ensures
            r == self.spec_next(),
    {
        match self {
            HighlightColor::Cyan => HighlightColor::Green,
            HighlightColor::Green => HighlightColor::Yellow,
            HighlightColor::Yellow => HighlightColor::Orange,
            HighlightColor::Orange => HighlightColor::Pink,
            HighlightColor::Pink => HighlightColor::Magenta,
            HighlightColor::Magenta => HighlightColor::Purple,
            HighlightColor::Purple => HighlightColor::Blue,
            HighlightColor::Blue => HighlightColor::Red,
            HighlightColor::Red => HighlightColor::White,
            HighlightColor::White => HighlightColor::Cyan,
        }
    }

    /// The colour after this one in the cycle.
    pub open spec fn spec_next(self) -> Self {
        match self {
            HighlightColor::Cyan => HighlightColor::Green,
            HighlightColor::Green => HighlightColor::Yellow,
            HighlightColor::Yellow => HighlightColor::Orange,
            HighlightColor::Orange => HighlightColor::Pink,
            HighlightColor::Pink => HighlightColor::Magenta,
            HighlightColor::Magenta => HighlightColor::Purple,
            HighlightColor::Purple => HighlightColor::Blue,
            HighlightColor::Blue => HighlightColor::Red,
            HighlightColor::Red => HighlightColor::White,
            HighlightColor::White => HighlightColor::Cyan,
        }
    }

    /// The red, green and blue components of the colour.
    pub fn rgb(&self) -> (r: (u8, u8, u8))
        ensures
            r == self.spec_rgb(),
    {
        match self {
            HighlightColor::Cyan => (80, 200, 255),
            HighlightColor::Green => (80, 220, 120),
            HighlightColor::Yellow => (255, 220, 80),
            HighlightColor::Orange => (255, 150, 50),
            HighlightColor::Pink => (255, 130, 180),
            HighlightColor::Magenta => (220, 100, 255),
            HighlightColor::Purple => (160, 100, 255),
            HighlightColor::Blue => (100, 140, 255),
            HighlightColor::Red => (255, 100, 100),
            HighlightColor::White => (255, 255, 255),
        }
    }

    /// The red, green and blue components of the colour.
    pub open spec fn spec_rgb(self) -> (u8, u8, u8) {
        match self {
            HighlightColor::Cyan => (80u8, 200u8, 255u8),
            HighlightColor::Green => (80u8, 220u8, 120u8),
            HighlightColor::Yellow => (255u8, 220u8, 80u8),
            HighlightColor::Orange => (255u8, 150u8, 50u8),
            HighlightColor::Pink => (255u8, 130u8, 180u8),
            HighlightColor::Magenta => (220u8, 100u8, 255u8),
            HighlightColor::Purple => (160u8, 100u8, 255u8),
            HighlightColor::Blue => (100u8, 140u8, 255u8),
            HighlightColor::Red => (255u8, 100u8, 100u8),
            HighlightColor::White => (255u8, 255u8, 255u8),
        }
    }
}

/// The user-preference document.
pub struct Settings {
    pub highlight_color: HighlightColor,
}

impl Default for Settings {
    /// The default preferences: a cyan highlight.
    fn default() -> (r: Self)
        ensures
            r.highlight_color == HighlightColor::Cyan,
    {
        Settings { highlight_color: HighlightColor::Cyan }
    }
}

} // verus!
