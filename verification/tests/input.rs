use rusty_console_game_engine::engine::ConsoleGameEngine;
use rusty_console_game_engine::input::{game_input_mode, InputEvent, MOUSE_MOVED};
use rusty_console_game_engine::key::{K_A, K_SPACE, K_Z};
use rusty_console_game_engine::mouse::{M_LEFT, M_MIDDLE, M_RIGHT, M_X1, M_X2};
use rusty_console_game_engine::scheduler::{Action, FrameScheduler, Phase};

fn keys(down: &[usize]) -> [bool; 256] {
    let mut a = [false; 256];
    for k in down {
        a[*k] = true;
    }
    a
}

#[test]
fn fresh_engine_has_nothing_down() {
    let e = ConsoleGameEngine::new();
    for k in 0..256 {
        assert!(!e.key_pressed(k));
        assert!(!e.key_released(k));
        assert!(!e.key_held(k));
    }
    for b in 0..5 {
        assert!(!e.mouse_pressed(b));
        assert!(!e.mouse_released(b));
        assert!(!e.mouse_held(b));
    }
    assert_eq!(e.mouse_x(), 0);
    assert_eq!(e.mouse_y(), 0);
    assert_eq!(e.mouse_pos(), (0, 0));
    assert!(e.console_focused());
    assert_eq!(e.screen_width(), 80);
    assert_eq!(e.screen_height(), 80);
    assert!(!e.is_constructed());
}

#[test]
fn down_down_up_gives_pressed_held_released_for_every_key() {
    let mut e = ConsoleGameEngine::new();
    let all = [true; 256];
    let none = [false; 256];
    e.update_keys(&all);
    for k in 0..256 {
        assert!(e.key_pressed(k) && e.key_held(k) && !e.key_released(k));
    }
    e.update_keys(&all);
    for k in 0..256 {
        assert!(!e.key_pressed(k) && e.key_held(k) && !e.key_released(k));
    }
    e.update_keys(&none);
    for k in 0..256 {
        assert!(!e.key_pressed(k) && !e.key_held(k) && e.key_released(k));
    }
    e.update_keys(&none);
    for k in 0..256 {
        assert!(!e.key_pressed(k) && !e.key_held(k) && !e.key_released(k));
    }
}

#[test]
fn keys_are_told_apart() {
    let mut e = ConsoleGameEngine::new();
    e.update_keys(&keys(&[K_A, K_SPACE]));
    assert!(e.key_pressed(K_A) && e.key_pressed(K_SPACE) && !e.key_pressed(K_Z));
    e.update_keys(&keys(&[K_A, K_Z]));
    assert!(e.key_held(K_A) && !e.key_pressed(K_A));
    assert!(e.key_released(K_SPACE) && !e.key_held(K_SPACE));
    assert!(e.key_pressed(K_Z) && e.key_held(K_Z));
}

#[test]
fn mouse_buttons_follow_the_mask() {
    let mut e = ConsoleGameEngine::new();
    e.update_mouse(&vec![InputEvent::Mouse { buttons: 0b00101, flags: 0, x: 9, y: 9 }]);
    assert!(e.mouse_pressed(M_LEFT) && e.mouse_held(M_LEFT));
    assert!(e.mouse_pressed(M_MIDDLE) && e.mouse_held(M_MIDDLE));
    assert!(!e.mouse_pressed(M_RIGHT) && !e.mouse_held(M_RIGHT));
    assert!(!e.mouse_held(M_X1) && !e.mouse_held(M_X2));
    assert_eq!(e.mouse_pos(), (0, 0));
    e.update_mouse(&vec![InputEvent::Mouse { buttons: 0b10001, flags: 0, x: 0, y: 0 }]);
    assert!(!e.mouse_pressed(M_LEFT) && e.mouse_held(M_LEFT) && !e.mouse_released(M_LEFT));
    assert!(e.mouse_released(M_MIDDLE) && !e.mouse_held(M_MIDDLE));
    assert!(e.mouse_pressed(M_X2) && e.mouse_held(M_X2));
    e.update_mouse(&vec![InputEvent::Mouse { buttons: 0xFFFF_FFE0, flags: 0, x: 0, y: 0 }]);
    for b in 0..5 {
        assert!(!e.mouse_held(b));
    }
    assert!(e.mouse_released(M_LEFT) && e.mouse_released(M_X2));
}

#[test]
fn mouse_moves_and_focus_are_folded_in_order() {
    let mut e = ConsoleGameEngine::new();
    e.update_mouse(&vec![
        InputEvent::Mouse { buttons: 1, flags: MOUSE_MOVED, x: 3, y: 4 },
        InputEvent::Focus(false),
        InputEvent::Other,
        InputEvent::Mouse { buttons: 0, flags: MOUSE_MOVED, x: -7, y: 12 },
        InputEvent::Mouse { buttons: 2, flags: 4, x: 50, y: 50 },
        InputEvent::Mouse { buttons: 2, flags: 0, x: 60, y: 60 },
        InputEvent::Mouse { buttons: 0, flags: 0, x: 60, y: 60 },
    ]);
    assert_eq!(e.mouse_x(), -7);
    assert_eq!(e.mouse_y(), 12);
    assert!(!e.console_focused());
    for b in 0..5 {
        assert!(!e.mouse_pressed(b) && !e.mouse_held(b) && !e.mouse_released(b));
    }
    e.update_mouse(&vec![InputEvent::Focus(true)]);
    assert!(e.console_focused());
}

#[test]
fn mouse_flags_last_one_frame_even_without_events() {
    let mut e = ConsoleGameEngine::new();
    e.update_mouse(&vec![
        InputEvent::Mouse { buttons: 1, flags: 0, x: 0, y: 0 },
        InputEvent::Mouse { buttons: 0, flags: MOUSE_MOVED, x: 7, y: 9 },
        InputEvent::Focus(false),
    ]);
    assert!(e.mouse_pressed(M_LEFT) && e.mouse_held(M_LEFT));
    e.update_mouse(&vec![]);
    assert!(!e.mouse_pressed(M_LEFT) && !e.mouse_released(M_LEFT) && e.mouse_held(M_LEFT));
    assert_eq!(e.mouse_pos(), (7, 9));
    assert!(!e.console_focused());
    e.update_mouse(&vec![]);
    assert!(!e.mouse_pressed(M_LEFT) && e.mouse_held(M_LEFT));
    e.update_mouse(&vec![InputEvent::Mouse { buttons: 0, flags: 0, x: 0, y: 0 }]);
    assert!(e.mouse_released(M_LEFT) && !e.mouse_held(M_LEFT));
    e.update_mouse(&vec![]);
    for b in 0..5 {
        assert!(!e.mouse_pressed(b) && !e.mouse_released(b) && !e.mouse_held(b));
    }
    assert_eq!(e.mouse_pos(), (7, 9));
}

#[test]
fn a_record_of_another_kind_still_settles_the_flags() {
    let mut e = ConsoleGameEngine::new();
    e.update_mouse(&vec![InputEvent::Mouse { buttons: 1, flags: 0, x: 0, y: 0 }]);
    assert!(e.mouse_pressed(M_LEFT));
    e.update_mouse(&vec![InputEvent::Other]);
    assert!(!e.mouse_pressed(M_LEFT) && e.mouse_held(M_LEFT));
}

#[test]
fn input_does_not_touch_the_keys_and_keys_not_the_mouse() {
    let mut e = ConsoleGameEngine::new();
    e.update_keys(&keys(&[K_A]));
    e.update_mouse(&vec![InputEvent::Mouse { buttons: 2, flags: 0, x: 0, y: 0 }]);
    assert!(e.key_pressed(K_A));
    e.update_keys(&keys(&[K_A]));
    assert!(e.mouse_pressed(M_RIGHT));
    e.update_mouse(&vec![]);
    assert!(e.key_held(K_A) && !e.mouse_pressed(M_RIGHT) && e.mouse_held(M_RIGHT));
}

#[test]
fn input_mode_switches_selection_off_and_records_on() {
    assert_eq!(game_input_mode(0), 0x98);
    assert_eq!(game_input_mode(0x40), 0x98);
    assert_eq!(game_input_mode(0x1F7), 0x1BF);
    assert_eq!(game_input_mode(0xFFFF_FFFF), 0xFFFF_FFBF);
}

#[test]
fn a_run_goes_through_setup_frames_and_teardown() {
    let mut s = FrameScheduler::new();
    assert_eq!(s.phase(), Phase::Initializing);
    assert_eq!(s.action(), Action::Setup);
    assert_eq!(s.advance(true, false), Action::Frame);
    assert_eq!(s.phase(), Phase::Running);
    assert_eq!(s.advance(true, false), Action::Frame);
    assert_eq!(s.advance(false, false), Action::Teardown);
    assert_eq!(s.phase(), Phase::ShuttingDown);
    assert_eq!(s.advance(true, false), Action::Stop);
    assert_eq!(s.phase(), Phase::Terminated);
    assert_eq!(s.advance(true, false), Action::Stop);
    assert_eq!(s.advance(false, true), Action::Stop);
    assert_eq!(s.phase(), Phase::Terminated);
}

#[test]
fn failed_setup_leads_to_teardown() {
    let mut s = FrameScheduler::new();
    assert_eq!(s.advance(false, false), Action::Teardown);
    assert_eq!(s.advance(true, false), Action::Stop);
}

#[test]
fn close_request_leads_to_teardown_and_refusal_back_to_frames() {
    let mut s = FrameScheduler::new();
    assert_eq!(s.advance(true, true), Action::Teardown);
    assert_eq!(s.advance(false, true), Action::Frame);
    assert_eq!(s.phase(), Phase::Running);
    assert_eq!(s.advance(true, true), Action::Teardown);
    assert_eq!(s.advance(false, false), Action::Frame);
    assert_eq!(s.advance(true, false), Action::Frame);
    assert_eq!(s.advance(false, false), Action::Teardown);
    assert_eq!(s.advance(true, true), Action::Stop);
}

#[test]
fn a_recorded_run_ends_where_its_steps_lead() {
    let run = FrameScheduler::start(&vec![(true, false), (true, false), (false, false), (true, false)]);
    assert_eq!(run.phase(), Phase::Terminated);
    let open = FrameScheduler::start(&vec![(true, false), (true, true), (false, false)]);
    assert_eq!(open.phase(), Phase::Running);
    assert_eq!(open.action(), Action::Frame);
    let fresh = FrameScheduler::start(&vec![]);
    assert_eq!(fresh.phase(), Phase::Initializing);
    let failed = FrameScheduler::start(&vec![(false, false)]);
    assert_eq!(failed.action(), Action::Teardown);
}
