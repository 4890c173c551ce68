//! Packed cell attributes: a foreground colour in the low nibble, a background
//! colour in the next one. A cell attribute is the `|` of one of each.

use vstd::prelude::*;

verus! {

/// Black foreground color.
pub const FG_BLACK: u16 = 0x0000;

/// Dark blue foreground color.
pub const FG_DARK_BLUE: u16 = 0x0001;

/// Dark green foreground color.
pub const FG_DARK_GREEN: u16 = 0x0002;

/// Dark cyan foreground color.
pub const FG_DARK_CYAN: u16 = 0x0003;

/// Dark red foreground color.
pub const FG_DARK_RED: u16 = 0x0004;

/// Dark magenta foreground color.
pub const FG_DARK_MAGENTA: u16 = 0x0005;

/// Dark yellow foreground color.
pub const FG_DARK_YELLOW: u16 = 0x0006;

/// Grey foreground color.
pub const FG_GREY: u16 = 0x0007;

/// Dark grey foreground color.
pub const FG_DARK_GREY: u16 = 0x0008;

/// Blue foreground color.
pub const FG_BLUE: u16 = 0x0009;

/// Green foreground color.
pub const FG_GREEN: u16 = 0x000A;

/// Cyan foreground color.
pub const FG_CYAN: u16 = 0x000B;

/// Red foreground color.
pub const FG_RED: u16 = 0x000C;

/// Magenta foreground color.
pub const FG_MAGENTA: u16 = 0x000D;

/// Yellow foreground color.
pub const FG_YELLOW: u16 = 0x000E;

/// White foreground color.
pub const FG_WHITE: u16 = 0x000F;

/// Black background color.
pub const BG_BLACK: u16 = 0x0000;

/// Dark blue background color.
pub const BG_DARK_BLUE: u16 = 0x0010;

/// Dark green background color.
pub const BG_DARK_GREEN: u16 = 0x0020;

/// Dark cyan background color.
pub const BG_DARK_CYAN: u16 = 0x0030;

/// Dark red background color.
pub const BG_DARK_RED: u16 = 0x0040;

/// Dark magenta background color.
pub const BG_DARK_MAGENTA: u16 = 0x0050;

/// Dark yellow background color.
pub const BG_DARK_YELLOW: u16 = 0x0060;

/// Grey background color.
pub const BG_GREY: u16 = 0x0070;

/// Dark grey background color.
pub const BG_DARK_GREY: u16 = 0x0080;

/// Blue background color.
pub const BG_BLUE: u16 = 0x0090;

/// Green background color.
pub const BG_GREEN: u16 = 0x00A0;

/// Cyan background color.
pub const BG_CYAN: u16 = 0x00B0;

/// Red background color.
pub const BG_RED: u16 = 0x00C0;

/// Magenta background color.
pub const BG_MAGENTA: u16 = 0x00D0;

/// Yellow background color.
pub const BG_YELLOW: u16 = 0x00E0;

/// White background color.
pub const BG_WHITE: u16 = 0x00F0;

} // verus!
