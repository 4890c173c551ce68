//! The engine: the screen buffer and the input tables, with the operations
//! that every drawing routine is built from.

use crate::color::FG_WHITE;
use crate::pixel::{PIXEL_EMPTY, PIXEL_SOLID};
use crate::input::{button_down, InputEvent, KeyState, BUTTON_COUNT, KEY_COUNT, MOUSE_BUTTONS_CHANGED, MOUSE_MOVED};
use crate::screen::{
    empty_layer, lemma_overlaid_nothing, lemma_overlaid_same, lemma_overlaid_twice, overlaid,
    point_layer, region_layer, stacked, Cell, Layer, ScreenView,
};
use vstd::prelude::*;

verus! {

/// The engine as contracts see it.
pub struct EngineView {
    pub screen: ScreenView,
    pub keys: Seq<KeyState>,
    pub buttons: Seq<KeyState>,
    pub mouse_x: int,
    pub mouse_y: int,
    pub focused: bool,
}

/// The screen buffer together with the state of keys and mouse.
pub struct ConsoleGameEngine {
    keys: [KeyState; 256],
    buttons: [KeyState; 5],
    mouse_x: i32,
    mouse_y: i32,
    console_in_focus: bool,
    screen_width: i16,
    screen_height: i16,
    window_buffer: Vec<Cell>,
}

impl View for ConsoleGameEngine {
    type V = EngineView;

    closed spec fn view(&self) -> EngineView {
        EngineView {
            screen: ScreenView {
                width: self.screen_width as int,
                height: self.screen_height as int,
                cells: self.window_buffer@,
            },
            keys: self.keys@,
            buttons: self.buttons@,
            mouse_x: self.mouse_x as int,
            mouse_y: self.mouse_y as int,
            focused: self.console_in_focus,
        }
    }
}

impl EngineView {
    /// The tables have one entry for each key and button, and the screen
    /// buffer fits the screen.
    pub open spec fn wf(self) -> bool {
        &&& self.screen.wf()
        &&& self.keys.len() == KEY_COUNT
        &&& self.buttons.len() == BUTTON_COUNT
    }

    /// The same engine with another picture on its screen.
    pub open spec fn with_screen(self, screen: ScreenView) -> EngineView {
        EngineView { screen, ..self }
    }

    /// The engine after a poll of the keyboard that found key `i` down
    /// exactly if `down[i]`.
    pub open spec fn keys_polled(self, down: Seq<bool>) -> EngineView {
        EngineView {
            keys: Seq::new(self.keys.len(), |i: int| self.keys[i].polled(down[i])),
            ..self
        }
    }

    /// The engine after one record of the input queue was read: a focus
    /// record sets the focus, a mouse record about buttons sets the latest
    /// sample of each button, one about a move sets the position, and every
    /// other record changes nothing.
    pub open spec fn after_event(self, event: InputEvent) -> EngineView {
        match event {
            InputEvent::Focus(focused) => EngineView { focused, ..self },
            InputEvent::Mouse { buttons, flags, x, y } => {
                if flags == MOUSE_BUTTONS_CHANGED {
                    EngineView {
                        buttons: Seq::new(
                            self.buttons.len(),
                            |m: int| self.buttons[m].sampled(button_down(buttons, m)),
                        ),
                        ..self
                    }
                } else if flags == MOUSE_MOVED {
                    EngineView { mouse_x: x as int, mouse_y: y as int, ..self }
                } else {
                    self
                }
            },
            InputEvent::Other => self,
        }
    }

    /// The engine after the records of `events` were read in their order.
    pub open spec fn after_events(self, events: Seq<InputEvent>) -> EngineView
        decreases events.len(),
    {
        if events.len() == 0 {
            self
        } else {
            self.after_events(events.drop_last()).after_event(events.last())
        }
    }

    /// The engine after the flags of every button were derived from its
    /// latest sample.
    pub open spec fn buttons_settled(self) -> EngineView {
        EngineView {
            buttons: Seq::new(self.buttons.len(), |m: int| self.buttons[m].settled()),
            ..self
        }
    }

    /// The engine after a frame's input queue was handled: the records are
    /// read, and then the flags of every button are derived anew. Without a
    /// record, what is held, the position and the focus stay as they were,
    /// and no button is pressed or released.
    pub open spec fn mouse_updated(self, events: Seq<InputEvent>) -> EngineView {
        self.after_events(events).buttons_settled()
    }
}

/// The flags of a mouse button last for one frame: after a frame without
/// input records no button is pressed or released, and what is held, the
/// position of the pointer and the focus are as they were, provided that
/// each button was held exactly if it was down at its last sample.
pub proof fn lemma_mouse_flags_last_one_frame(v: EngineView, button: int)
    requires
        0 <= button < v.buttons.len(),
        v.buttons[button].consistent(),
    ensures
        !v.mouse_updated(Seq::empty()).buttons[button].pressed,
        !v.mouse_updated(Seq::empty()).buttons[button].released,
        v.mouse_updated(Seq::empty()).buttons[button].held == v.buttons[button].held,
        v.mouse_updated(Seq::empty()).mouse_x == v.mouse_x,
        v.mouse_updated(Seq::empty()).mouse_y == v.mouse_y,
        v.mouse_updated(Seq::empty()).focused == v.focused,
        v.mouse_updated(Seq::empty()).keys == v.keys,
        v.mouse_updated(Seq::empty()).screen == v.screen,
{
}

/// After the queue of a frame was handled, the flags of every button agree
/// with its samples, whatever the queue held.
pub proof fn lemma_mouse_consistent(v: EngineView, events: Seq<InputEvent>, button: int)
    requires
        0 <= button < v.buttons.len(),
        v.buttons[button].held == v.buttons[button].raw_old,
    ensures
        v.after_events(events).buttons.len() == v.buttons.len(),
        v.mouse_updated(events).buttons[button].consistent(),
{
    lemma_events_keep_flags(v, events, button);
    crate::input::lemma_settled(v.after_events(events).buttons[button]);
}

/// Reading records changes the latest sample of a button and nothing else of it.
proof fn lemma_events_keep_flags(v: EngineView, events: Seq<InputEvent>, button: int)
    requires
        0 <= button < v.buttons.len(),
    ensures
        v.after_events(events).buttons.len() == v.buttons.len(),
        v.after_events(events).buttons[button].held == v.buttons[button].held,
        v.after_events(events).buttons[button].raw_old == v.buttons[button].raw_old,
    decreases events.len(),
{
    if events.len() > 0 {
        lemma_events_keep_flags(v, events.drop_last(), button);
    }
}

/// What the host reports of the display that the console is to be shown on.
#[derive(Clone, Copy, Debug)]
pub struct DisplayLimits {
    /// Whether the handle of the console's output is a valid one.
    pub handle_valid: bool,
    /// Width of the largest console window that the display and font allow.
    pub largest_width: i16,
    /// Height of the largest console window that the display and font allow.
    pub largest_height: i16,
    /// Largest width that the window of the screen buffer can take.
    pub window_width: i16,
    /// Largest height that the window of the screen buffer can take.
    pub window_height: i16,
}

/// Why a console of the requested size cannot be set up.
#[derive(Clone, Copy, Debug, PartialEq, Eq, Structural)]
pub enum ConsoleError {
    /// The handle of the console's output is not valid.
    BadHandle,
    /// The requested width or height is negative.
    InvalidSize,
    /// The requested size is beyond the largest window of the display.
    ExceedsDisplay { width: i16, height: i16, max_width: i16, max_height: i16 },
    /// The screen or the font is too high for the window.
    HeightTooBig,
    /// The screen or the font is too wide for the window.
    WidthTooBig,
}

/// Whether a console of `width` by `height` cells can be set up on `display`,
/// and if not, the first reason why.
pub open spec fn console_check(width: i16, height: i16, display: DisplayLimits) -> Result<(), ConsoleError> {
    if !display.handle_valid {
        Err(ConsoleError::BadHandle)
    } else if width < 0 || height < 0 {
        Err(ConsoleError::InvalidSize)
    } else if width > display.largest_width || height > display.largest_height {
        Err(
            ConsoleError::ExceedsDisplay {
                width,
                height,
                max_width: display.largest_width,
                max_height: display.largest_height,
            },
        )
    } else if height > display.window_height {
        Err(ConsoleError::HeightTooBig)
    } else if width > display.window_width {
        Err(ConsoleError::WidthTooBig)
    } else {
        Ok(())
    }
}

/// The cell of a screen that nothing was drawn on.
pub open spec fn blank() -> Cell {
    Cell { glyph: 0, color: 0 }
}

/// Over three polls that find a key down, down and up, a key that was up
/// before is pressed and held after the first, held and not pressed after the
/// second, released and not held after the third.
pub proof fn lemma_key_down_down_up(
    v: EngineView,
    first: Seq<bool>,
    second: Seq<bool>,
    third: Seq<bool>,
    key: int,
)
    requires
        0 <= key < v.keys.len(),
        !v.keys[key].raw_old,
        !v.keys[key].held,
        first[key],
        second[key],
        !third[key],
    ensures
        ({
            let v1 = v.keys_polled(first);
            let v2 = v1.keys_polled(second);
            let v3 = v2.keys_polled(third);
            &&& v1.keys[key].pressed && v1.keys[key].held && !v1.keys[key].released
            &&& !v2.keys[key].pressed && v2.keys[key].held && !v2.keys[key].released
            &&& v3.keys[key].released && !v3.keys[key].held && !v3.keys[key].pressed
        }),
{
}

/// A poll leaves every key with flags that agree with its samples, if they
/// agreed before: a pressed key is held, and a key is held exactly if the
/// poll found it down.
pub proof fn lemma_poll_consistent(v: EngineView, down: Seq<bool>, key: int)
    requires
        0 <= key < v.keys.len(),
        v.keys[key].held == v.keys[key].raw_old,
    ensures
        v.keys_polled(down).keys[key].consistent(),
        v.keys_polled(down).keys[key].held == down[key],
{
}

/// `after` is `before` with `layer` drawn on its screen, and nothing else changed.
pub open spec fn drawn(before: EngineView, after: EngineView, layer: Layer) -> bool {
    &&& after == before.with_screen(after.screen)
    &&& overlaid(before.screen, after.screen, layer)
}

/// The cells of row `y` from column `lo` to column `hi`, both included, each
/// holding `cell`.
pub open spec fn span_layer(y: int, lo: int, hi: int, cell: Cell) -> Layer {
    region_layer(|px: int, py: int| py == y && lo <= px <= hi, cell)
}

/// A coordinate brought into the range from 0 to `limit`.
pub open spec fn clipped(v: int, limit: int) -> int {
    let raised = if v < 0 { 0 } else { v };
    if raised >= limit {
        limit
    } else {
        raised
    }
}

/// The cells `(x, y)` with `x1 <= x < x2` and `y1 <= y < y2`, each holding `cell`.
pub open spec fn rect_layer(x1: int, y1: int, x2: int, y2: int, cell: Cell) -> Layer {
    region_layer(|px: int, py: int| x1 <= px < x2 && y1 <= py < y2, cell)
}

/// Every cell, holding `cell`.
pub open spec fn full_layer(cell: Cell) -> Layer {
    region_layer(|px: int, py: int| true, cell)
}

impl ConsoleGameEngine {
    /// Creates an engine with no key or button down, the pointer at the
    /// origin, the console in focus and a screen of 80 by 80 cells whose
    /// buffer is yet to be set up by `construct_console`.
    pub fn new() -> (engine: Self)
        ensures
            engine@.screen.width == 80,
            engine@.screen.height == 80,
            engine@.screen.cells.len() == 0,
            engine@.keys == Seq::new(KEY_COUNT as nat, |i: int| KeyState::idle()),
            engine@.buttons == Seq::new(BUTTON_COUNT as nat, |i: int| KeyState::idle()),
            engine@.mouse_x == 0,
            engine@.mouse_y == 0,
            engine@.focused,
    {
        let idle = KeyState {
            raw_new: false,
            raw_old: false,
            pressed: false,
            released: false,
            held: false,
        };
        let engine = ConsoleGameEngine {
            keys: [idle; 256],
            buttons: [idle; 5],
            mouse_x: 0,
            mouse_y: 0,
            console_in_focus: true,
            screen_width: 80,
            screen_height: 80,
            window_buffer: Vec::new(),
        };
        assert(engine@.keys =~= Seq::new(KEY_COUNT as nat, |i: int| KeyState::idle()));
        assert(engine@.buttons =~= Seq::new(BUTTON_COUNT as nat, |i: int| KeyState::idle()));
        engine
    }

    /// Whether the screen buffer fits the screen, so that drawing is possible.
    pub fn is_constructed(&self) -> (b: bool)
        ensures
            b == self@.wf(),
    {
        let w = self.screen_width;
        let h = self.screen_height;
        if w < 0 || h < 0 {
            return false;
        }
        proof {
            assert(0 <= (w as int) * (h as int) <= 0x4000_0000) by (nonlinear_arith)
                requires
                    0 <= w < 0x8000,
                    0 <= h < 0x8000,
            ;
            assert(self.window_buffer.len() == self@.screen.cells.len());
        }
        let count: u64 = (w as u64) * (h as u64);
        self.window_buffer.len() as u64 == count
    }

    /// Sets the console up with the given dimensions, if the display allows
    /// them. With a bad handle nothing changes. Otherwise the screen takes
    /// the requested size, and where the size passes every check the buffer
    /// is made anew, with every cell blank.
    pub fn construct_console(&mut self, width: i16, height: i16, display: DisplayLimits) -> (res: Result<
        (),
        ConsoleError,
    >)
        ensures
            res == console_check(width, height, display),
            res == Err::<(), ConsoleError>(ConsoleError::BadHandle) ==> final(self)@ == old(self)@,
            res != Err::<(), ConsoleError>(ConsoleError::BadHandle) ==> final(self)@ == old(
                self,
            )@.with_screen(final(self)@.screen),
            res != Err::<(), ConsoleError>(ConsoleError::BadHandle) ==> final(self)@.screen.width
                == width && final(self)@.screen.height == height,
            res is Err ==> final(self)@.screen.cells == old(self)@.screen.cells,
            res is Ok ==> final(self)@.wf(),
            res is Ok ==> forall|i: int|
                0 <= i < width * height ==> final(self)@.screen.cells[i] == blank(),
    {
        if !display.handle_valid {
            return Err(ConsoleError::BadHandle);
        }
        self.screen_width = width;
        self.screen_height = height;
        if width < 0 || height < 0 {
            return Err(ConsoleError::InvalidSize);
        }
        if width > display.largest_width || height > display.largest_height {
            return Err(
                ConsoleError::ExceedsDisplay {
                    width,
                    height,
                    max_width: display.largest_width,
                    max_height: display.largest_height,
                },
            );
        }
        if height > display.window_height {
            return Err(ConsoleError::HeightTooBig);
        }
        if width > display.window_width {
            return Err(ConsoleError::WidthTooBig);
        }
        proof {
            assert(0 <= (width as int) * (height as int) <= 0x4000_0000) by (nonlinear_arith)
                requires
                    0 <= width < 0x8000,
                    0 <= height < 0x8000,
            ;
        }
        let count: u32 = (width as u32) * (height as u32);
        let mut buffer: Vec<Cell> = Vec::new();
        let mut i: u32 = 0;
        while i < count
            invariant
                i <= count,
                buffer@.len() == i,
                forall|k: int| 0 <= k < i ==> buffer@[k] == blank(),
            decreases count - i,
        {
            buffer.push(Cell { glyph: 0, color: 0 });
            i += 1;
        }
        self.window_buffer = buffer;
        Ok(())
    }

    /// Polls the keyboard: `down[i]` says whether key `i` is down now.
    pub fn update_keys(&mut self, down: &[bool; 256])
        ensures
            final(self)@ == old(self)@.keys_polled(down@),
    {
        let mut i: usize = 0;
        while i < 256
            invariant
                i <= 256,
                self@ == (EngineView { keys: self@.keys, ..old(self)@ }),
                self@.keys.len() == 256,
                forall|k: int| 0 <= k < i ==> self@.keys[k] == old(self)@.keys[k].polled(down@[k]),
                forall|k: int| i <= k < 256 ==> self@.keys[k] == old(self)@.keys[k],
            decreases 256 - i,
        {
            let mut key = self.keys[i];
            key.pressed = false;
            key.released = false;
            key.raw_new = down[i];
            if key.raw_new != key.raw_old {
                if key.raw_new {
                    key.pressed = !key.held;
                    key.held = true;
                } else {
                    key.released = true;
                    key.held = false;
                }
            }
            key.raw_old = key.raw_new;
            self.keys[i] = key;
            i += 1;
        }
        assert(self@.keys =~= old(self)@.keys_polled(down@).keys);
    }

    /// Reads one record of the input queue.
    fn apply_event(&mut self, event: InputEvent)
        ensures
            final(self)@ == old(self)@.after_event(event),
    {
        match event {
            InputEvent::Focus(focused) => {
                self.console_in_focus = focused;
            },
            InputEvent::Mouse { buttons, flags, x, y } => {
                if flags == MOUSE_BUTTONS_CHANGED {
                    let mut m: usize = 0;
                    while m < 5
                        invariant
                            m <= 5,
                            self@ == (EngineView { buttons: self@.buttons, ..old(self)@ }),
                            self@.buttons.len() == 5,
                            forall|k: int|
                                0 <= k < m ==> self@.buttons[k] == old(self)@.buttons[k].sampled(
                                    button_down(buttons, k),
                                ),
                            forall|k: int| m <= k < 5 ==> self@.buttons[k] == old(self)@.buttons[k],
                        decreases 5 - m,
                    {
                        let mut button = self.buttons[m];
                        button.raw_new = (buttons & (1u32 << (m as u32))) != 0;
                        self.buttons[m] = button;
                        m += 1;
                    }
                    assert(self@.buttons =~= old(self)@.after_event(event).buttons);
                } else if flags == MOUSE_MOVED {
                    self.mouse_x = x as i32;
                    self.mouse_y = y as i32;
                }
            },
            InputEvent::Other => {},
        }
    }

    /// Handles the records that the input queue held at this frame, and
    /// derives the flags of the mouse buttons, once a frame whether or not
    /// there were records.
    pub fn update_mouse(&mut self, events: &Vec<InputEvent>)
        ensures
            final(self)@ == old(self)@.mouse_updated(events@),
    {
        let mut i: usize = 0;
        while i < events.len()
            invariant
                i <= events.len(),
                self@ == old(self)@.after_events(events@.take(i as int)),
            decreases events.len() - i,
        {
            proof {
                assert(events@.take(i + 1).drop_last() =~= events@.take(i as int));
            }
            self.apply_event(events[i]);
            i += 1;
        }
        proof {
            assert(events@.take(i as int) =~= events@);
        }
        let ghost read = self@;
        let mut m: usize = 0;
        while m < 5
            invariant
                m <= 5,
                self@ == (EngineView { buttons: self@.buttons, ..read }),
                self@.buttons.len() == 5,
                read.buttons.len() == 5,
                forall|k: int| 0 <= k < m ==> self@.buttons[k] == read.buttons[k].settled(),
                forall|k: int| m <= k < 5 ==> self@.buttons[k] == read.buttons[k],
            decreases 5 - m,
        {
            let mut button = self.buttons[m];
            button.pressed = false;
            button.released = false;
            if button.raw_new != button.raw_old {
                if button.raw_new {
                    button.pressed = true;
                    button.held = true;
                } else {
                    button.released = true;
                    button.held = false;
                }
            }
            button.raw_old = button.raw_new;
            self.buttons[m] = button;
            m += 1;
        }
        assert(self@.buttons =~= read.buttons_settled().buttons);
    }

    /// Returns `true` if the specified key was pressed this frame.
    pub fn key_pressed(&self, key: usize) -> (b: bool)
        requires
            key < KEY_COUNT,
        ensures
            b == self@.keys[key as int].pressed,
    {
        self.keys[key].pressed
    }

    /// Returns `true` if the specified key was released this frame.
    pub fn key_released(&self, key: usize) -> (b: bool)
        requires
            key < KEY_COUNT,
        ensures
            b == self@.keys[key as int].released,
    {
        self.keys[key].released
    }

    /// Returns `true` if the specified key is currently held down.
    pub fn key_held(&self, key: usize) -> (b: bool)
        requires
            key < KEY_COUNT,
        ensures
            b == self@.keys[key as int].held,
    {
        self.keys[key].held
    }

    /// Returns `true` if the specified mouse button was pressed this frame.
    pub fn mouse_pressed(&self, button: usize) -> (b: bool)
        requires
            button < BUTTON_COUNT,
        ensures
            b == self@.buttons[button as int].pressed,
    {
        self.buttons[button].pressed
    }

    /// Returns `true` if the specified mouse button was released this frame.
    pub fn mouse_released(&self, button: usize) -> (b: bool)
        requires
            button < BUTTON_COUNT,
        ensures
            b == self@.buttons[button as int].released,
    {
        self.buttons[button].released
    }

    /// Returns `true` if the specified mouse button is currently held down.
    pub fn mouse_held(&self, button: usize) -> (b: bool)
        requires
            button < BUTTON_COUNT,
        ensures
            b == self@.buttons[button as int].held,
    {
        self.buttons[button].held
    }

    /// Returns the current X position of the mouse in console coordinates.
    pub fn mouse_x(&self) -> (x: i32)
        ensures
            x == self@.mouse_x,
    {
        self.mouse_x
    }

    /// Returns the current Y position of the mouse in console coordinates.
    pub fn mouse_y(&self) -> (y: i32)
        ensures
            y == self@.mouse_y,
    {
        self.mouse_y
    }

    /// Returns the current (X, Y) position of the mouse.
    pub fn mouse_pos(&self) -> (p: (i32, i32))
        ensures
            p.0 == self@.mouse_x,
            p.1 == self@.mouse_y,
    {
        (self.mouse_x, self.mouse_y)
    }

    /// Returns `true` if the console currently has focus.
    pub fn console_focused(&self) -> (b: bool)
        ensures
            b == self@.focused,
    {
        self.console_in_focus
    }

    /// Returns the width of the console in characters.
    pub fn screen_width(&self) -> (w: i32)
        ensures
            w == self@.screen.width,
            -0x8000 <= w < 0x8000,
    {
        self.screen_width as i32
    }

    /// Returns the height of the console in characters.
    pub fn screen_height(&self) -> (h: i32)
        ensures
            h == self@.screen.height,
            -0x8000 <= h < 0x8000,
    {
        self.screen_height as i32
    }

    /// The cell shown at `(x, y)`, or `None` for a position off the screen.
    pub fn cell(&self, x: i32, y: i32) -> (c: Option<Cell>)
        requires
            self@.wf(),
        ensures
            c == if self@.screen.contains(x as int, y as int) {
                Some(self@.screen.at(x as int, y as int))
            } else {
                None
            },
    {
        let w: i64 = self.screen_width as i64;
        let h: i64 = self.screen_height as i64;
        if x >= 0 && (x as i64) < w && y >= 0 && (y as i64) < h {
            proof {
                self@.screen.lemma_index(x as int, y as int);
                assert(self.window_buffer.len() == self@.screen.cells.len());
                assert(0 <= (y as int) * w <= 0x4000_0000) by (nonlinear_arith)
                    requires
                        0 <= y < 0x8000,
                        0 <= w < 0x8000,
                ;
            }
            let idx: usize = ((y as i64) * w + (x as i64)) as usize;
            Some(self.window_buffer[idx])
        } else {
            None
        }
    }

    /// The cells of the screen, row by row, for the host to present.
    pub fn buffer(&self) -> (cells: &Vec<Cell>)
        ensures
            cells@ == self@.screen.cells,
    {
        &self.window_buffer
    }

    /// Draws one cell at `(x, y)`; a position off the screen is ignored.
    pub(crate) fn plot(&mut self, x: i64, y: i64, cell: Cell)
        requires
            old(self)@.wf(),
        ensures
            final(self)@.wf(),
            drawn(old(self)@, final(self)@, point_layer(x as int, y as int, cell)),
    {
        let w: i64 = self.screen_width as i64;
        let h: i64 = self.screen_height as i64;
        if x >= 0 && x < w && y >= 0 && y < h {
            proof {
                self@.screen.lemma_index(x as int, y as int);
                assert(self.window_buffer.len() == self@.screen.cells.len());
                assert(0 <= y * w <= 0x4000_0000) by (nonlinear_arith)
                    requires
                        0 <= y < 0x8000,
                        0 <= w < 0x8000,
                ;
            }
            let idx: usize = (y * w + x) as usize;
            self.window_buffer.set(idx, cell);
            proof {
                let before = old(self)@.screen;
                let after = self@.screen;
                assert forall|px: int, py: int| before.contains(px, py) implies #[trigger] after.at(
                    px,
                    py,
                ) == match point_layer(x as int, y as int, cell)(px, py) {
                    Some(c) => c,
                    None => before.at(px, py),
                } by {
                    before.lemma_index(px, py);
                    before.lemma_index(x as int, y as int);
                }
            }
        }
    }

    /// Fills row `y` from column `lo` to column `hi`, both included.
    pub(crate) fn hspan(&mut self, y: i64, lo: i64, hi: i64, cell: Cell)
        requires
            old(self)@.wf(),
        ensures
            final(self)@.wf(),
            drawn(old(self)@, final(self)@, span_layer(y as int, lo as int, hi as int, cell)),
    {
        let w: i64 = self.screen_width as i64;
        let h: i64 = self.screen_height as i64;
        let ghost start = self@;
        let first: i64 = if lo > 0 { lo } else { 0 };
        let last: i64 = if hi < w - 1 { hi } else { w - 1 };
        if y < 0 || y >= h || first > last {
            proof {
                lemma_overlaid_nothing(start.screen);
                let span = span_layer(y as int, lo as int, hi as int, cell);
                assert forall|px: int, py: int| start.screen.contains(px, py) implies #[trigger] empty_layer()(
                    px,
                    py,
                ) == span(px, py) by {}
                lemma_overlaid_same(start.screen, self@.screen, empty_layer(), span);
            }
            return ;
        }
        let mut x: i64 = first;
        proof {
            lemma_overlaid_nothing(start.screen);
            let done = span_layer(y as int, lo as int, x - 1, cell);
            assert forall|px: int, py: int| start.screen.contains(px, py) implies #[trigger] empty_layer()(
                px,
                py,
            ) == done(px, py) by {}
            lemma_overlaid_same(start.screen, self@.screen, empty_layer(), done);
        }
        while x <= last
            invariant
                start.wf(),
                self@.wf(),
                0 <= first <= x <= last + 1 <= w,
                lo <= first,
                last <= hi,
                w == start.screen.width,
                first == 0 || first == lo,
                last == w - 1 || last == hi,
                drawn(start, self@, span_layer(y as int, lo as int, x - 1, cell)),
            decreases last + 1 - x,
        {
            let ghost before = self@;
            self.plot(x, y, cell);
            proof {
                let done = span_layer(y as int, lo as int, x - 1, cell);
                let point = point_layer(x as int, y as int, cell);
                let more = span_layer(y as int, lo as int, x as int, cell);
                lemma_overlaid_twice(start.screen, before.screen, self@.screen, done, point);
                assert forall|px: int, py: int| start.screen.contains(px, py) implies #[trigger] stacked(
                    done,
                    point,
                )(px, py) == more(px, py) by {}
                lemma_overlaid_same(start.screen, self@.screen, stacked(done, point), more);
            }
            x = x + 1;
        }
        proof {
            let done = span_layer(y as int, lo as int, x - 1, cell);
            let span = span_layer(y as int, lo as int, hi as int, cell);
            assert forall|px: int, py: int| start.screen.contains(px, py) implies #[trigger] done(
                px,
                py,
            ) == span(px, py) by {}
            lemma_overlaid_same(start.screen, self@.screen, done, span);
        }
    }

    /// Draws a single pixel at `(x, y)` with the specified glyph and color.
    pub fn draw_with(&mut self, x: i32, y: i32, c: u16, col: u16)
        requires
            old(self)@.wf(),
        ensures
            final(self)@.wf(),
            drawn(
                old(self)@,
                final(self)@,
                point_layer(x as int, y as int, (Cell { glyph: c, color: col })),
            ),
    {
        self.plot(x as i64, y as i64, Cell { glyph: c, color: col });
    }

    /// Draws a single white pixel at `(x, y)`.
    pub fn draw(&mut self, x: i32, y: i32)
        requires
            old(self)@.wf(),
        ensures
            final(self)@.wf(),
            drawn(
                old(self)@,
                final(self)@,
                point_layer(x as int, y as int, (Cell { glyph: PIXEL_SOLID, color: FG_WHITE })),
            ),
    {
        self.draw_with(x, y, PIXEL_SOLID, FG_WHITE);
    }

    /// Clamps `x` and `y` to be within the screen boundaries.
    pub fn clip(&self, x: &mut i32, y: &mut i32)
        ensures
            *final(x) == clipped(*old(x) as int, self@.screen.width),
            *final(y) == clipped(*old(y) as int, self@.screen.height),
    {
        if *x < 0 {
            *x = 0;
        }
        if *x >= self.screen_width() {
            *x = self.screen_width();
        }
        if *y < 0 {
            *y = 0;
        }
        if *y >= self.screen_height() {
            *y = self.screen_height();
        }
    }

    /// Fills a rectangle from `(x1, y1)` to `(x2, y2)` with white pixels.
    pub fn fill_rect(&mut self, x1: i32, y1: i32, x2: i32, y2: i32)
        requires
            old(self)@.wf(),
        ensures
            final(self)@.wf(),
            drawn(
                old(self)@,
                final(self)@,
                rect_layer(
                    x1 as int,
                    y1 as int,
                    x2 as int,
                    y2 as int,
                    (Cell { glyph: PIXEL_SOLID, color: FG_WHITE }),
                ),
            ),
    {
        self.fill_rect_with(x1, y1, x2, y2, PIXEL_SOLID, FG_WHITE);
    }

    /// Fills a rectangle from `(x1, y1)` to `(x2, y2)` with the specified
    /// glyph and color. The column `x2` and the row `y2` are left out.
    pub fn fill_rect_with(&mut self, x1: i32, y1: i32, x2: i32, y2: i32, c: u16, col: u16)
        requires
            old(self)@.wf(),
        ensures
            final(self)@.wf(),
            drawn(
                old(self)@,
                final(self)@,
                rect_layer(x1 as int, y1 as int, x2 as int, y2 as int, (Cell { glyph: c, color: col })),
            ),
    {
        let cell = Cell { glyph: c, color: col };
        let ghost start = self@;
        let mut left = x1;
        let mut top = y1;
        let mut right = x2;
        let mut bottom = y2;
        self.clip(&mut left, &mut top);
        self.clip(&mut right, &mut bottom);
        let mut y: i32 = top;
        proof {
            lemma_overlaid_nothing(start.screen);
            let done = rect_layer(x1 as int, y1 as int, x2 as int, y as int, cell);
            assert forall|px: int, py: int| start.screen.contains(px, py) implies #[trigger] empty_layer()(
                px,
                py,
            ) == done(px, py) by {}
            lemma_overlaid_same(start.screen, self@.screen, empty_layer(), done);
        }
        while y < bottom
            invariant
                start.wf(),
                self@.wf(),
                left == clipped(x1 as int, start.screen.width),
                right == clipped(x2 as int, start.screen.width),
                top == clipped(y1 as int, start.screen.height),
                bottom == clipped(y2 as int, start.screen.height),
                top <= y,
                y <= bottom || y == top,
                drawn(start, self@, rect_layer(x1 as int, y1 as int, x2 as int, y as int, cell)),
            decreases bottom - y,
        {
            let ghost before = self@;
            self.hspan(y as i64, left as i64, right as i64 - 1, cell);
            proof {
                let done = rect_layer(x1 as int, y1 as int, x2 as int, y as int, cell);
                let row = span_layer(y as int, left as int, right - 1, cell);
                let more = rect_layer(x1 as int, y1 as int, x2 as int, y + 1, cell);
                lemma_overlaid_twice(start.screen, before.screen, self@.screen, done, row);
                assert forall|px: int, py: int| start.screen.contains(px, py) implies #[trigger] stacked(
                    done,
                    row,
                )(px, py) == more(px, py) by {}
                lemma_overlaid_same(start.screen, self@.screen, stacked(done, row), more);
            }
            y = y + 1;
        }
        proof {
            let done = rect_layer(x1 as int, y1 as int, x2 as int, y as int, cell);
            let whole = rect_layer(x1 as int, y1 as int, x2 as int, y2 as int, cell);
            assert forall|px: int, py: int| start.screen.contains(px, py) implies #[trigger] done(
                px,
                py,
            ) == whole(px, py) by {}
            lemma_overlaid_same(start.screen, self@.screen, done, whole);
        }
    }

    /// Clears the entire screen with the given color.
    pub fn clear(&mut self, col: u16)
        requires
            old(self)@.wf(),
        ensures
            final(self)@.wf(),
            drawn(old(self)@, final(self)@, full_layer((Cell { glyph: PIXEL_EMPTY, color: col }))),
    {
        let ghost start = self@;
        let w = self.screen_width();
        let h = self.screen_height();
        self.fill_rect_with(0, 0, w, h, PIXEL_EMPTY, col);
        proof {
            let cell = Cell { glyph: PIXEL_EMPTY, color: col };
            let rect = rect_layer(0, 0, w as int, h as int, cell);
            assert forall|px: int, py: int| start.screen.contains(px, py) implies #[trigger] rect(
                px,
                py,
            ) == full_layer(cell)(px, py) by {}
            lemma_overlaid_same(start.screen, self@.screen, rect, full_layer(cell));
        }
    }
}

} // verus!
