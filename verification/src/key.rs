//! Logical ids of the keys, as indices into the key table.

use vstd::prelude::*;

verus! {

/// Space key.
pub const K_SPACE: usize = 0x20;

/// Enter key.
pub const K_ENTER: usize = 0x0D;

/// Escape key.
pub const K_ESCAPE: usize = 0x1B;

/// Backspace key.
pub const K_BACKSPACE: usize = 0x08;

/// Tab key.
pub const K_TAB: usize = 0x09;

/// Shift key.
pub const K_SHIFT: usize = 0x10;

/// Control key.
pub const K_CONTROL: usize = 0x11;

/// Alt key.
pub const K_ALT: usize = 0x12;

/// Caps Lock key.
pub const K_CAPSLOCK: usize = 0x14;

/// Num Lock key.
pub const K_NUMLOCK: usize = 0x90;

/// Scroll Lock key.
pub const K_SCROLL_LOCK: usize = 0x91;

/// Up arrow key.
pub const K_UP: usize = 0x26;

/// Down arrow key.
pub const K_DOWN: usize = 0x28;

/// Left arrow key.
pub const K_LEFT: usize = 0x25;

/// Right arrow key.
pub const K_RIGHT: usize = 0x27;

/// F1 function key.
pub const K_F1: usize = 0x70;

/// F2 function key.
pub const K_F2: usize = 0x71;

/// F3 function key.
pub const K_F3: usize = 0x72;

/// F4 function key.
pub const K_F4: usize = 0x73;

/// F5 function key.
pub const K_F5: usize = 0x74;

/// F6 function key.
pub const K_F6: usize = 0x75;

/// F7 function key.
pub const K_F7: usize = 0x76;

/// F8 function key.
pub const K_F8: usize = 0x77;

/// F9 function key.
pub const K_F9: usize = 0x78;

/// F10 function key.
pub const K_F10: usize = 0x79;

/// F11 function key.
pub const K_F11: usize = 0x7A;

/// F12 function key.
pub const K_F12: usize = 0x7B;

/// Number 0 key.
pub const K_0: usize = 0x30;

/// Number 1 key.
pub const K_1: usize = 0x31;

/// Number 2 key.
pub const K_2: usize = 0x32;

/// Number 3 key.
pub const K_3: usize = 0x33;

/// Number 4 key.
pub const K_4: usize = 0x34;

/// Number 5 key.
pub const K_5: usize = 0x35;

/// Number 6 key.
pub const K_6: usize = 0x36;

/// Number 7 key.
pub const K_7: usize = 0x37;

/// Number 8 key.
pub const K_8: usize = 0x38;

/// Number 9 key.
pub const K_9: usize = 0x39;

/// Letter A key.
pub const K_A: usize = 0x41;

/// Letter B key.
pub const K_B: usize = 0x42;

/// Letter C key.
pub const K_C: usize = 0x43;

/// Letter D key.
pub const K_D: usize = 0x44;

/// Letter E key.
pub const K_E: usize = 0x45;

/// Letter F key.
pub const K_F: usize = 0x46;

/// Letter G key.
pub const K_G: usize = 0x47;

/// Letter H key.
pub const K_H: usize = 0x48;

/// Letter I key.
pub const K_I: usize = 0x49;

/// Letter J key.
pub const K_J: usize = 0x4A;

/// Letter K key.
pub const K_K: usize = 0x4B;

/// Letter L key.
pub const K_L: usize = 0x4C;

/// Letter M key.
pub const K_M: usize = 0x4D;

/// Letter N key.
pub const K_N: usize = 0x4E;

/// Letter O key.
pub const K_O: usize = 0x4F;

/// Letter P key.
pub const K_P: usize = 0x50;

/// Letter Q key.
pub const K_Q: usize = 0x51;

/// Letter R key.
pub const K_R: usize = 0x52;

/// Letter S key.
pub const K_S: usize = 0x53;

/// Letter T key.
pub const K_T: usize = 0x54;

/// Letter U key.
pub const K_U: usize = 0x55;

/// Letter V key.
pub const K_V: usize = 0x56;

/// Letter W key.
pub const K_W: usize = 0x57;

/// Letter X key.
pub const K_X: usize = 0x58;

/// Letter Y key.
pub const K_Y: usize = 0x59;

/// Letter Z key.
pub const K_Z: usize = 0x5A;

/// Numpad 0 key.
pub const K_NUMPAD_0: usize = 0x60;

/// Numpad 1 key.
pub const K_NUMPAD_1: usize = 0x61;

/// Numpad 2 key.
pub const K_NUMPAD_2: usize = 0x62;

/// Numpad 3 key.
pub const K_NUMPAD_3: usize = 0x63;

/// Numpad 4 key.
pub const K_NUMPAD_4: usize = 0x64;

/// Numpad 5 key.
pub const K_NUMPAD_5: usize = 0x65;

/// Numpad 6 key.
pub const K_NUMPAD_6: usize = 0x66;

/// Numpad 7 key.
pub const K_NUMPAD_7: usize = 0x67;

/// Numpad 8 key.
pub const K_NUMPAD_8: usize = 0x68;

/// Numpad 9 key.
pub const K_NUMPAD_9: usize = 0x69;

/// Numpad addition key (+).
pub const K_NUMPAD_ADD: usize = 0x6B;

/// Numpad subtraction key (-).
pub const K_NUMPAD_SUBTRACT: usize = 0x6D;

/// Numpad multiplication key (*).
pub const K_NUMPAD_MULTIPLY: usize = 0x6A;

/// Numpad division key (/).
pub const K_NUMPAD_DIVIDE: usize = 0x6F;

/// Numpad Enter key.
pub const K_NUMPAD_ENTER: usize = 0x0D;

/// Semicolon / Colon key.
/// Only works with US ANSI Keyboards
pub const K_SEMICOLON: usize = 0xBA;

/// Equals / Plus key.
/// Only works with US ANSI Keyboards
pub const K_EQUAL: usize = 0xBB;

/// Comma / Less Than key.
/// Only works with US ANSI Keyboards
pub const K_COMMA: usize = 0xBC;

/// Dash / Underscore key.
/// Only works with US ANSI Keyboards
pub const K_DASH: usize = 0xBD;

/// Period / Greater Than key.
/// Only works with US ANSI Keyboards
pub const K_PERIOD: usize = 0xBE;

/// Forward Slash / Question Mark key.
/// Only works with US ANSI Keyboards
pub const K_SLASH: usize = 0xBF;

/// Backtick / Tilde key.
/// Only works with US ANSI Keyboards
pub const K_BACKTICK: usize = 0xC0;

/// Left Brace / Left Curly Bracket key.
/// Only works with US ANSI Keyboards
pub const K_LEFT_BRACE: usize = 0xDB;

/// Backslash / Pipe key.
/// Only works with US ANSI Keyboards
pub const K_BACKSLASH: usize = 0xDC;

/// Right Brace / Right Curly Bracket key.
/// Only works with US ANSI Keyboards
pub const K_RIGHT_BRACE: usize = 0xDD;

/// Apostrophe / Double Quote key.
/// Only works with US ANSI Keyboards
pub const K_APOSTROPHE: usize = 0xDE;

} // verus!
