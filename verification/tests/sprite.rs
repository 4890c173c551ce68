use rusty_console_game_engine::color::{FG_BLACK, FG_RED};
use rusty_console_game_engine::pixel::{PIXEL_EMPTY, PIXEL_SOLID};
use rusty_console_game_engine::sprite::{Sprite, SpriteError};

#[test]
fn new_sprite_is_empty_and_black() {
    let s = Sprite::new(3, 2);
    assert_eq!(s.width, 3);
    assert_eq!(s.height, 2);
    for y in 0..2 {
        for x in 0..3 {
            assert_eq!(s.get_glyph(x, y), PIXEL_EMPTY);
            assert_eq!(s.get_color(x, y), FG_BLACK);
        }
    }
}

#[test]
fn set_and_get_inside_and_outside() {
    let mut s = Sprite::new(3, 2);
    s.set_glyph(2, 1, PIXEL_SOLID);
    s.set_color(2, 1, FG_RED);
    assert_eq!(s.get_glyph(2, 1), PIXEL_SOLID);
    assert_eq!(s.get_color(2, 1), FG_RED);
    assert_eq!(s.get_glyph(1, 1), PIXEL_EMPTY);
    s.set_glyph(3, 0, PIXEL_SOLID);
    s.set_glyph(0, 2, PIXEL_SOLID);
    assert_eq!(s.get_glyph(3, 0), PIXEL_EMPTY);
    assert_eq!(s.get_glyph(0, 2), PIXEL_EMPTY);
    assert_eq!(s.get_glyph(0, 1), PIXEL_EMPTY);
    assert_eq!(s.get_color(7, 7), FG_BLACK);
}

#[test]
fn to_bytes_has_the_exact_layout() {
    let mut s = Sprite::new(2, 1);
    s.set_glyph(0, 0, 0x2588);
    s.set_glyph(1, 0, 0x0041);
    s.set_color(0, 0, 0x000C);
    s.set_color(1, 0, 0x01F0);
    let bytes = s.to_bytes();
    assert_eq!(
        bytes,
        vec![2, 0, 0, 0, 1, 0, 0, 0, 0x0C, 0x00, 0xF0, 0x01, 0x88, 0x25, 0x41, 0x00]
    );
}

#[test]
fn sprite_round_trip() {
    let mut s = Sprite::new(4, 3);
    for y in 0..3 {
        for x in 0..4 {
            s.set_glyph(x, y, (0x2500 + 16 * y + x) as u16);
            s.set_color(x, y, (x * 17 + y) as u16);
        }
    }
    let back = Sprite::from_bytes(&s.to_bytes()).unwrap();
    assert_eq!(back.width, 4);
    assert_eq!(back.height, 3);
    for y in 0..3 {
        for x in 0..4 {
            assert_eq!(back.get_glyph(x, y), s.get_glyph(x, y));
            assert_eq!(back.get_color(x, y), s.get_color(x, y));
        }
    }
    assert_eq!(back.to_bytes(), s.to_bytes());
}

#[test]
fn from_bytes_rejects_short_input() {
    assert_eq!(Sprite::from_bytes(&[]).err(), Some(SpriteError::TooSmall));
    assert_eq!(Sprite::from_bytes(&[1, 0, 0, 0, 1, 0, 0]).err(), Some(SpriteError::TooSmall));
}

#[test]
fn from_bytes_rejects_truncated_cells() {
    let bytes = vec![2, 0, 0, 0, 1, 0, 0, 0, 1, 0, 2, 0, 3, 0, 4];
    assert_eq!(Sprite::from_bytes(&bytes).err(), Some(SpriteError::Truncated));
    let huge = vec![0xFF, 0xFF, 0xFF, 0xFF, 0xFF, 0xFF, 0xFF, 0xFF, 0, 0];
    assert_eq!(Sprite::from_bytes(&huge).err(), Some(SpriteError::Truncated));
}

#[test]
fn from_bytes_ignores_what_follows_the_cells() {
    let bytes = vec![1, 0, 0, 0, 1, 0, 0, 0, 0x0F, 0x00, 0x88, 0x25, 9, 9, 9];
    let s = Sprite::from_bytes(&bytes).unwrap();
    assert_eq!(s.get_color(0, 0), 0x000F);
    assert_eq!(s.get_glyph(0, 0), 0x2588);
}

#[test]
fn empty_sprite_round_trip() {
    let s = Sprite::new(0, 5);
    let bytes = s.to_bytes();
    assert_eq!(bytes, vec![0, 0, 0, 0, 5, 0, 0, 0]);
    let back = Sprite::from_bytes(&bytes).unwrap();
    assert_eq!(back.width, 0);
    assert_eq!(back.height, 5);
}

#[test]
fn sampling_wraps_in_both_directions() {
    let mut s = Sprite::new(3, 2);
    for y in 0..2 {
        for x in 0..3 {
            s.set_glyph(x, y, (10 * y + x) as u16 + 100);
            s.set_color(x, y, (10 * y + x) as u16);
        }
    }
    assert_eq!(s.sample_glyph(0, 0), 100);
    assert_eq!(s.sample_glyph(2, 1), 112);
    assert_eq!(s.sample_glyph(3, 2), 100);
    assert_eq!(s.sample_glyph(-1, -1), 112);
    assert_eq!(s.sample_glyph(-3, -2), 100);
    assert_eq!(s.sample_glyph(-4, 0), 102);
    assert_eq!(s.sample_color(4, 3), 11);
    assert_eq!(s.sample_color(-2, 5), 11);
    assert_eq!(s.sample_color(i64::MIN, i64::MAX), s.get_color(1, 1));
}

#[test]
fn sampling_is_periodic() {
    let mut s = Sprite::new(5, 4);
    for y in 0..4 {
        for x in 0..5 {
            s.set_glyph(x, y, (y * 5 + x) as u16);
        }
    }
    for x in -12i64..12 {
        for y in -9i64..9 {
            for k in -2i64..3 {
                assert_eq!(s.sample_glyph(x + 5 * k, y - 4 * k), s.sample_glyph(x, y));
            }
        }
    }
}

#[test]
fn clone_is_a_sprite_of_its_own() {
    let mut s = Sprite::new(2, 2);
    s.set_glyph(1, 1, PIXEL_SOLID);
    s.set_color(0, 1, FG_RED);
    let mut t = s.clone();
    assert_eq!(t.width(), 2);
    assert_eq!(t.height(), 2);
    assert_eq!(t.to_bytes(), s.to_bytes());
    t.set_glyph(0, 0, PIXEL_SOLID);
    assert_eq!(s.get_glyph(0, 0), PIXEL_EMPTY);
    assert_eq!(t.get_glyph(0, 0), PIXEL_SOLID);
}

#[test]
fn default_sprite_has_no_cells() {
    let s = Sprite::default();
    assert_eq!(s.width(), 0);
    assert_eq!(s.height(), 0);
    assert_eq!(s.get_glyph(0, 0), PIXEL_EMPTY);
    assert_eq!(s.to_bytes(), vec![0u8; 8]);
}

#[test]
fn a_sprite_whose_size_was_changed_is_not_well_formed() {
    let mut s = Sprite::new(3, 2);
    assert!(s.is_well_formed());
    assert!(s.try_to_bytes().is_some());
    s.width = 4;
    assert!(!s.is_well_formed());
    assert_eq!(s.try_to_bytes(), None);
    s.width = 2;
    s.height = 3;
    assert!(s.is_well_formed());
    s.width = usize::MAX;
    s.height = usize::MAX;
    assert!(!s.is_well_formed());
    assert!(Sprite::default().is_well_formed());
}

#[test]
fn try_to_bytes_gives_what_to_bytes_gives() {
    let mut s = Sprite::new(2, 2);
    s.set_glyph(1, 0, PIXEL_SOLID);
    s.set_color(0, 1, FG_RED);
    assert_eq!(s.try_to_bytes(), Some(s.to_bytes()));
    let back = Sprite::from_bytes(&s.try_to_bytes().unwrap()).unwrap();
    assert_eq!(back.get_glyph(1, 0), PIXEL_SOLID);
    assert_eq!(back.get_color(0, 1), FG_RED);
}
