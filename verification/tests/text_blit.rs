use rusty_console_game_engine::color::{FG_BLUE, FG_GREEN, FG_RED, FG_WHITE};
use rusty_console_game_engine::engine::{ConsoleGameEngine, DisplayLimits};
use rusty_console_game_engine::pixel::{PIXEL_EMPTY, PIXEL_HALF, PIXEL_SOLID};
use rusty_console_game_engine::screen::Cell;
use rusty_console_game_engine::sprite::Sprite;
use rusty_console_game_engine::text::utf16_units;

fn screen(w: i16, h: i16) -> ConsoleGameEngine {
    let mut e = ConsoleGameEngine::new();
    let d = DisplayLimits {
        handle_valid: true,
        largest_width: 1000,
        largest_height: 1000,
        window_width: 1000,
        window_height: 1000,
    };
    assert_eq!(e.construct_console(w, h, d), Ok(()));
    e
}

fn glyphs(e: &ConsoleGameEngine) -> Vec<u16> {
    e.buffer().iter().map(|c| c.glyph).collect()
}

#[test]
fn units_of_plain_and_astral_characters() {
    assert_eq!(utf16_units(""), Vec::<u16>::new());
    assert_eq!(utf16_units("Az"), vec![0x41, 0x7A]);
    assert_eq!(utf16_units("\u{2588}"), vec![0x2588]);
    assert_eq!(utf16_units("\u{FFFF}"), vec![0xFFFF]);
    assert_eq!(utf16_units("\u{10000}"), vec![0xD800, 0xDC00]);
    assert_eq!(utf16_units("a\u{1F600}b"), vec![0x61, 0xD83D, 0xDE00, 0x62]);
    assert_eq!(utf16_units("\u{10FFFF}"), vec![0xDBFF, 0xDFFF]);
    let s = "h\u{e9}llo \u{1F3AE} w\u{f6}rld \u{2593}";
    assert_eq!(utf16_units(s), s.encode_utf16().collect::<Vec<u16>>());
}

#[test]
fn string_is_written_along_the_row() {
    let mut e = screen(6, 3);
    e.draw_string(1, 1, "Hi!");
    assert_eq!(
        glyphs(&e),
        vec![0, 0, 0, 0, 0, 0, 0, 0x48, 0x69, 0x21, 0, 0, 0, 0, 0, 0, 0, 0]
    );
    assert_eq!(e.cell(1, 1), Some(Cell { glyph: 0x48, color: FG_WHITE }));
    e.draw_string_with(0, 0, "ab", FG_RED);
    assert_eq!(e.cell(1, 0), Some(Cell { glyph: 0x62, color: FG_RED }));
}

#[test]
fn string_is_cut_off_at_the_edges_of_its_row() {
    let mut e = screen(4, 2);
    e.draw_string(2, 0, "abcd");
    assert_eq!(glyphs(&e), vec![0, 0, 0x61, 0x62, 0, 0, 0, 0]);
    let mut f = screen(4, 2);
    f.draw_string(3, 0, "ab");
    assert_eq!(glyphs(&f), vec![0, 0, 0, 0x61, 0, 0, 0, 0]);
    let mut g = screen(4, 2);
    g.draw_string(-2, 1, "abcd");
    assert_eq!(glyphs(&g), vec![0, 0, 0, 0, 0x63, 0x64, 0, 0]);
    let mut h = screen(4, 2);
    h.draw_string(0, 2, "abcd");
    h.draw_string(0, -1, "abcd");
    h.draw_string(4, 0, "abcd");
    h.draw_string(-4, 1, "abcd");
    h.draw_string(i32::MIN, i32::MAX, "abcd");
    h.draw_string(i32::MAX, 0, "abcd");
    assert_eq!(glyphs(&h), vec![0; 8]);
    h.draw_string_alpha(-1, 1, "abcdefgh");
    assert_eq!(glyphs(&h), vec![0, 0, 0, 0, 0x62, 0x63, 0x64, 0x65]);
}

#[test]
fn alpha_string_leaves_spaces_out() {
    let mut e = screen(6, 1);
    e.draw_string_with(0, 0, "xxxxxx", FG_RED);
    e.draw_string_alpha(0, 0, "a b  c");
    assert_eq!(glyphs(&e), vec![0x61, 0x78, 0x62, 0x78, 0x78, 0x63]);
    assert_eq!(e.cell(0, 0).unwrap().color, FG_WHITE);
    assert_eq!(e.cell(1, 0).unwrap().color, FG_RED);
    e.draw_string_alpha_with(1, 0, " q", FG_BLUE);
    assert_eq!(e.cell(1, 0), Some(Cell { glyph: 0x78, color: FG_RED }));
    assert_eq!(e.cell(2, 0), Some(Cell { glyph: 0x71, color: FG_BLUE }));
    let mut f = screen(6, 1);
    f.draw_string(0, 0, "a b");
    assert_eq!(glyphs(&f), vec![0x61, 0x20, 0x62, 0, 0, 0]);
}

fn test_sprite() -> Sprite {
    let mut s = Sprite::new(3, 2);
    s.set_glyph(0, 0, PIXEL_SOLID);
    s.set_color(0, 0, FG_RED);
    s.set_glyph(2, 0, PIXEL_HALF);
    s.set_color(2, 0, FG_GREEN);
    s.set_glyph(1, 1, 0x41);
    s.set_color(1, 1, FG_BLUE);
    s.set_color(1, 0, FG_WHITE);
    s
}

#[test]
fn sprite_is_copied_and_its_empty_cells_let_the_screen_through() {
    let mut e = screen(5, 4);
    e.clear(FG_WHITE);
    for row in 0..4 {
        e.draw_string(0, row, ".....");
    }
    e.draw_sprite(1, 1, &test_sprite());
    let dot = Cell { glyph: 0x2E, color: FG_WHITE };
    assert_eq!(e.cell(1, 1), Some(Cell { glyph: PIXEL_SOLID, color: FG_RED }));
    assert_eq!(e.cell(2, 1), Some(dot));
    assert_eq!(e.cell(3, 1), Some(Cell { glyph: PIXEL_HALF, color: FG_GREEN }));
    assert_eq!(e.cell(1, 2), Some(dot));
    assert_eq!(e.cell(2, 2), Some(Cell { glyph: 0x41, color: FG_BLUE }));
    assert_eq!(e.cell(3, 2), Some(dot));
    let changed = e.buffer().iter().filter(|c| **c != dot).count();
    assert_eq!(changed, 3);
}

#[test]
fn sprite_is_clipped_at_every_edge() {
    let s = test_sprite();
    let mut e = screen(3, 2);
    e.draw_sprite(-2, 0, &s);
    assert_eq!(glyphs(&e), vec![PIXEL_HALF, 0, 0, 0, 0, 0]);
    let mut f = screen(3, 2);
    f.draw_sprite(2, 1, &s);
    assert_eq!(glyphs(&f), vec![0, 0, 0, 0, 0, PIXEL_SOLID]);
    let mut g = screen(3, 2);
    g.draw_sprite(-1, -1, &s);
    assert_eq!(glyphs(&g), vec![0x41, 0, 0, 0, 0, 0]);
    let mut h = screen(3, 2);
    h.draw_sprite(3, 0, &s);
    h.draw_sprite(0, 2, &s);
    h.draw_sprite(-3, 0, &s);
    h.draw_sprite(i32::MAX, i32::MAX, &s);
    h.draw_sprite(i32::MIN, i32::MIN, &s);
    assert_eq!(glyphs(&h), vec![0; 6]);
}

#[test]
fn partial_sprite_takes_the_part_that_is_asked_for() {
    let s = test_sprite();
    let mut e = screen(4, 3);
    e.draw_partial_sprite(0, 0, &s, 1, 0, 2, 2);
    assert_eq!(glyphs(&e), vec![0, PIXEL_HALF, 0, 0, 0x41, 0, 0, 0, 0, 0, 0, 0]);
    let mut f = screen(4, 3);
    f.draw_partial_sprite(1, 1, &s, 2, 0, 5, 5);
    assert_eq!(glyphs(&f), vec![0, 0, 0, 0, 0, PIXEL_HALF, 0, 0, 0, 0, 0, 0]);
    let mut g = screen(4, 3);
    g.draw_partial_sprite(0, 0, &s, 0, 0, 0, 2);
    g.draw_partial_sprite(0, 0, &s, 0, 0, 2, 0);
    g.draw_partial_sprite(0, 0, &s, 3, 0, 2, 2);
    g.draw_partial_sprite(0, 0, &s, usize::MAX, usize::MAX, usize::MAX, usize::MAX);
    assert_eq!(glyphs(&g), vec![0; 12]);
    let mut h = screen(4, 3);
    h.draw_partial_sprite(0, 0, &s, 0, 0, usize::MAX, usize::MAX);
    assert_eq!(glyphs(&h), vec![PIXEL_SOLID, 0, PIXEL_HALF, 0, 0, 0x41, 0, 0, 0, 0, 0, 0]);
}

#[test]
fn empty_glyph_is_the_space() {
    assert_eq!(PIXEL_EMPTY, 0x20);
    let mut s = Sprite::new(1, 1);
    s.set_color(0, 0, FG_RED);
    let mut e = screen(2, 2);
    e.draw_sprite(0, 0, &s);
    assert_eq!(glyphs(&e), vec![0; 4]);
}
