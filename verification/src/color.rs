//! Colors and the palette from which players are given theirs.

use vstd::prelude::*;

verus! {

/// A color with red, green, blue and opacity in thousandths.
#[derive(Debug, Clone, Copy, PartialEq, Eq, Structural)]
pub struct Color {
    pub r: u16,
    pub g: u16,
    pub b: u16,
    pub a: u16,
}

/// Number of colors in the palette.
pub const PALETTE_SIZE: usize = 8;

/// The `i`-th color of the palette.
pub open spec fn palette(i: int) -> Color {
    if i == 0 {
        Color { r: 0, g: 772, b: 244, a: 1000 }
    } else if i == 1 {
        Color { r: 1000, g: 204, b: 735, a: 1000 }
    } else if i == 2 {
        Color { r: 1000, g: 577, b: 94, a: 1000 }
    } else if i == 3 {
        Color { r: 274, g: 637, b: 1000, a: 1000 }
    } else if i == 4 {
        Color { r: 1000, g: 1000, b: 200, a: 1000 }
    } else if i == 5 {
        Color { r: 38, g: 0, b: 764, a: 1000 }
    } else if i == 6 {
        Color { r: 650, g: 33, b: 0, a: 1000 }
    } else {
        Color { r: 254, g: 988, b: 1000, a: 1000 }
    }
}

/// Opaque white, the color of a shot whose owner is unknown.
pub open spec fn white() -> Color {
    Color { r: 1000, g: 1000, b: 1000, a: 1000 }
}

impl Color {
    /// The `i`-th color of the palette.
    pub fn from_palette(i: usize) -> (c: Color)
        requires
            i < PALETTE_SIZE,
        ensures
            c == palette(i as int),
    {
        if i == 0 {
            Color { r: 0, g: 772, b: 244, a: 1000 }
        } else if i == 1 {
            Color { r: 1000, g: 204, b: 735, a: 1000 }
        } else if i == 2 {
            Color { r: 1000, g: 577, b: 94, a: 1000 }
        } else if i == 3 {
            Color { r: 274, g: 637, b: 1000, a: 1000 }
        } else if i == 4 {
            Color { r: 1000, g: 1000, b: 200, a: 1000 }
        } else if i == 5 {
            Color { r: 38, g: 0, b: 764, a: 1000 }
        } else if i == 6 {
            Color { r: 650, g: 33, b: 0, a: 1000 }
        } else {
            Color { r: 254, g: 988, b: 1000, a: 1000 }
        }
    }

    /// Opaque white.
    pub fn white() -> (c: Color)
        ensures
            c == white(),
    {
        Color { r: 1000, g: 1000, b: 1000, a: 1000 }
    }
}

} // verus!
