//! Glyph codes of the block characters that serve as pixels.

use vstd::prelude::*;

verus! {

/// Solid block pixel.
pub const PIXEL_SOLID: u16 = 0x2588;

/// Three-quarter block pixel.
pub const PIXEL_THREEQUARTERS: u16 = 0x2593;

/// Half block pixel.
pub const PIXEL_HALF: u16 = 0x2592;

/// Quarter block pixel.
pub const PIXEL_QUARTER: u16 = 0x2591;

/// Empty space (transparent) pixel.
pub const PIXEL_EMPTY: u16 = 0x20;

} // verus!
