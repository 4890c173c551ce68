//! Logical ids of the mouse buttons, as indices into the button table.

use vstd::prelude::*;

verus! {

/// Left mouse button.
pub const M_LEFT: usize = 0;

/// Right mouse button.
pub const M_RIGHT: usize = 1;

/// Middle mouse button.
pub const M_MIDDLE: usize = 2;

/// X1 mouse button (side button 1).
pub const M_X1: usize = 3;

/// X2 mouse button (side button 2).
pub const M_X2: usize = 4;

} // verus!
