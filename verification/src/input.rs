//! Edge detection for keys and mouse buttons: from what is down now and what
//! was down at the last poll to the pressed, released and held flags.

use vstd::prelude::*;

verus! {

/// Number of logical keys.
pub const KEY_COUNT: usize = 256;

/// Number of mouse buttons.
pub const BUTTON_COUNT: usize = 5;

/// The value of the flags of a mouse record that reports button changes.
pub const MOUSE_BUTTONS_CHANGED: u32 = 0;

/// The value of the flags of a mouse record that reports a move.
pub const MOUSE_MOVED: u32 = 1;

/// The state of one key or button.
#[derive(Clone, Copy, Debug, PartialEq, Eq, Structural)]
pub struct KeyState {
    /// Whether it was down at the latest sample.
    pub raw_new: bool,
    /// Whether it was down at the sample that the flags were last derived from.
    pub raw_old: bool,
    /// It went down at the latest poll.
    pub pressed: bool,
    /// It went up at the latest poll.
    pub released: bool,
    /// It is down, as far as the polls have shown.
    pub held: bool,
}

/// One record of the host's input queue, as far as the engine reads it.
#[derive(Clone, Copy, Debug, PartialEq, Eq, Structural)]
pub enum InputEvent {
    /// The console gained (`true`) or lost (`false`) the focus.
    Focus(bool),
    /// A mouse record: the mask of the buttons that are down, the flags that
    /// say what the record reports, and the position of the pointer.
    Mouse { buttons: u32, flags: u32, x: i16, y: i16 },
    /// Any other record.
    Other,
}

impl KeyState {
    /// The state of a key that has never been seen down.
    pub open spec fn idle() -> KeyState {
        KeyState { raw_new: false, raw_old: false, pressed: false, released: false, held: false }
    }

    /// What a key's flags say agrees with what was last sampled: it is held
    /// exactly if it was down, a press implies that it is held, and it is
    /// never pressed and released at once.
    pub open spec fn consistent(self) -> bool {
        &&& self.held == self.raw_old
        &&& self.raw_new == self.raw_old
        &&& self.pressed ==> self.held
        &&& !(self.pressed && self.released)
    }

    /// The state of a key after a poll that found it `down`.
    pub open spec fn polled(self, down: bool) -> KeyState {
        if down != self.raw_old {
            if down {
                KeyState {
                    raw_new: down,
                    raw_old: down,
                    pressed: !self.held,
                    released: false,
                    held: true,
                }
            } else {
                KeyState { raw_new: down, raw_old: down, pressed: false, released: true, held: false }
            }
        } else {
            KeyState { raw_new: down, raw_old: down, pressed: false, released: false, held: self.held }
        }
    }

    /// The state of a button with `down` as its latest sample, flags untouched.
    pub open spec fn sampled(self, down: bool) -> KeyState {
        KeyState { raw_new: down, ..self }
    }

    /// The state of a button after its flags were derived from its latest sample.
    pub open spec fn settled(self) -> KeyState {
        if self.raw_new != self.raw_old {
            if self.raw_new {
                KeyState { raw_old: self.raw_new, pressed: true, released: false, held: true, ..self }
            } else {
                KeyState { raw_old: self.raw_new, pressed: false, released: true, held: false, ..self }
            }
        } else {
            KeyState { pressed: false, released: false, ..self }
        }
    }
}

/// The bit of the console's input mode that lets a click select text.
pub const QUICK_EDIT_MODE: u32 = 0x0040;

/// The bit of the console's input mode that makes the bit above count.
pub const EXTENDED_FLAGS: u32 = 0x0080;

/// The bit of the console's input mode that has mouse records queued.
pub const MOUSE_INPUT: u32 = 0x0010;

/// The bit of the console's input mode that has focus and resize records queued.
pub const WINDOW_INPUT: u32 = 0x0008;

/// The input mode that the engine runs the console in, given the mode that
/// it found: text selection off, mouse and window records on, every other
/// bit as it was.
pub fn game_input_mode(mode: u32) -> (wanted: u32)
    ensures
        wanted == (mode & !QUICK_EDIT_MODE) | EXTENDED_FLAGS | MOUSE_INPUT | WINDOW_INPUT,
        wanted & QUICK_EDIT_MODE == 0,
        wanted & (EXTENDED_FLAGS | MOUSE_INPUT | WINDOW_INPUT) == EXTENDED_FLAGS | MOUSE_INPUT
            | WINDOW_INPUT,
{
    let wanted: u32 = (mode & !QUICK_EDIT_MODE) | EXTENDED_FLAGS | MOUSE_INPUT | WINDOW_INPUT;
    assert(((mode & !0x40u32) | 0x80u32 | 0x10u32 | 0x08u32) & 0x40u32 == 0) by (bit_vector);
    assert(((mode & !0x40u32) | 0x80u32 | 0x10u32 | 0x08u32) & (0x80u32 | 0x10u32 | 0x08u32)
        == 0x80u32 | 0x10u32 | 0x08u32) by (bit_vector);
    wanted
}

/// Whether `mask` has the bit of button `m` set.
pub open spec fn button_down(mask: u32, m: int) -> bool {
    mask & (1u32 << (m as u32)) != 0
}

/// A poll keeps a key's flags in agreement with its samples.
pub proof fn lemma_polled_consistent(k: KeyState, down: bool)
    requires
        k.held == k.raw_old,
    ensures
        k.polled(down).consistent(),
{
}

/// A key that stays up has no flag set, and one that stays down is held and
/// nothing else.
pub proof fn lemma_steady(k: KeyState, down: bool)
    requires
        k.held == k.raw_old,
        k.raw_old == down,
    ensures
        k.polled(down).held == down,
        !k.polled(down).pressed,
        !k.polled(down).released,
{
}

/// A button whose flags were derived from its latest sample is held
/// exactly if it was down then, provided that it was held exactly if it was
/// down at the sample before; it is pressed only if it is held, released
/// only if it is not, and neither if the two samples agree.
pub proof fn lemma_settled(k: KeyState)
    requires
        k.held == k.raw_old,
    ensures
        k.settled().consistent(),
        k.settled().held == k.raw_new,
        k.settled().pressed == (k.raw_new && !k.raw_old),
        k.settled().released == (!k.raw_new && k.raw_old),
{
}

} // verus!
