use rusty_console_game_engine::engine::{ConsoleError, ConsoleGameEngine, DisplayLimits};
use rusty_console_game_engine::screen::Cell;

fn display(largest: (i16, i16), window: (i16, i16)) -> DisplayLimits {
    DisplayLimits {
        handle_valid: true,
        largest_width: largest.0,
        largest_height: largest.1,
        window_width: window.0,
        window_height: window.1,
    }
}

#[test]
fn console_of_allowed_size_is_set_up_blank() {
    let mut e = ConsoleGameEngine::new();
    assert_eq!(e.construct_console(160, 100, display((200, 120), (160, 100))), Ok(()));
    assert_eq!(e.screen_width(), 160);
    assert_eq!(e.screen_height(), 100);
    assert!(e.is_constructed());
    assert_eq!(e.buffer().len(), 16000);
    assert!(e.buffer().iter().all(|c| *c == Cell { glyph: 0, color: 0 }));
}

#[test]
fn console_can_be_set_up_again_and_is_blank_again() {
    let mut e = ConsoleGameEngine::new();
    let d = display((200, 120), (200, 120));
    assert_eq!(e.construct_console(10, 10, d), Ok(()));
    e.draw(3, 3);
    assert_eq!(e.construct_console(5, 4, d), Ok(()));
    assert_eq!(e.buffer().len(), 20);
    assert!(e.buffer().iter().all(|c| c.glyph == 0));
}

#[test]
fn bad_handle_changes_nothing() {
    let mut e = ConsoleGameEngine::new();
    let mut d = display((200, 120), (200, 120));
    d.handle_valid = false;
    assert_eq!(e.construct_console(10, 10, d), Err(ConsoleError::BadHandle));
    assert_eq!(e.screen_width(), 80);
    assert_eq!(e.screen_height(), 80);
    assert!(!e.is_constructed());
}

#[test]
fn size_beyond_the_display_is_refused_with_the_numbers() {
    let mut e = ConsoleGameEngine::new();
    assert_eq!(
        e.construct_console(201, 100, display((200, 120), (300, 300))),
        Err(ConsoleError::ExceedsDisplay { width: 201, height: 100, max_width: 200, max_height: 120 })
    );
    assert_eq!(e.screen_width(), 201);
    assert_eq!(e.screen_height(), 100);
    assert!(!e.is_constructed());
    assert_eq!(
        e.construct_console(200, 121, display((200, 120), (300, 300))),
        Err(ConsoleError::ExceedsDisplay { width: 200, height: 121, max_width: 200, max_height: 120 })
    );
}

#[test]
fn size_beyond_the_window_is_refused_height_first() {
    let mut e = ConsoleGameEngine::new();
    assert_eq!(
        e.construct_console(100, 100, display((200, 200), (90, 90))),
        Err(ConsoleError::HeightTooBig)
    );
    assert_eq!(
        e.construct_console(100, 100, display((200, 200), (90, 100))),
        Err(ConsoleError::WidthTooBig)
    );
    assert_eq!(
        e.construct_console(100, 100, display((200, 200), (100, 99))),
        Err(ConsoleError::HeightTooBig)
    );
}

#[test]
fn negative_size_is_refused() {
    let mut e = ConsoleGameEngine::new();
    assert_eq!(
        e.construct_console(-1, 10, display((200, 200), (200, 200))),
        Err(ConsoleError::InvalidSize)
    );
    assert_eq!(
        e.construct_console(10, -10, display((200, 200), (200, 200))),
        Err(ConsoleError::InvalidSize)
    );
    assert!(!e.is_constructed());
}

#[test]
fn failed_setup_keeps_the_old_buffer() {
    let mut e = ConsoleGameEngine::new();
    let d = display((200, 120), (200, 120));
    assert_eq!(e.construct_console(4, 4, d), Ok(()));
    e.draw(1, 1);
    assert_eq!(e.construct_console(4, 121, d).is_err(), true);
    assert_eq!(e.buffer().len(), 16);
    assert_eq!(e.buffer()[5].glyph, 0x2588);
}

#[test]
fn empty_console_is_allowed_and_draws_nothing() {
    let mut e = ConsoleGameEngine::new();
    assert_eq!(e.construct_console(0, 7, display((200, 120), (200, 120))), Ok(()));
    assert!(e.is_constructed());
    e.draw(0, 0);
    e.draw_line(0, 0, 5, 5);
    e.fill_triangle(0, 0, 5, 0, 0, 5);
    e.fill_circle(0, 0, 3);
    e.draw_string(0, 0, "abc");
    e.clear(7);
    assert_eq!(e.buffer().len(), 0);
}
