use rusty_console_game_engine::color::{FG_RED, FG_WHITE};
use rusty_console_game_engine::engine::{ConsoleGameEngine, DisplayLimits};
use rusty_console_game_engine::model::{to_whole_cells, SUBCELLS};
use rusty_console_game_engine::pixel::{PIXEL_EMPTY, PIXEL_HALF, PIXEL_SOLID};
use rusty_console_game_engine::screen::Cell;

fn screen(w: i16, h: i16) -> ConsoleGameEngine {
    let mut e = ConsoleGameEngine::new();
    let d = DisplayLimits {
        handle_valid: true,
        largest_width: 1000,
        largest_height: 1000,
        window_width: 1000,
        window_height: 1000,
    };
    assert_eq!(e.construct_console(w, h, d), Ok(()));
    e
}

fn lit(e: &ConsoleGameEngine) -> Vec<(i32, i32)> {
    let mut v = Vec::new();
    for y in 0..e.screen_height() {
        for x in 0..e.screen_width() {
            if e.cell(x, y).unwrap().glyph != 0 {
                v.push((x, y));
            }
        }
    }
    v
}

fn sorted(mut v: Vec<(i32, i32)>) -> Vec<(i32, i32)> {
    v.sort_by_key(|p| (p.1, p.0));
    v.dedup();
    v
}

fn on_screen(v: Vec<(i32, i32)>, w: i32, h: i32) -> Vec<(i32, i32)> {
    sorted(v.into_iter().filter(|p| p.0 >= 0 && p.0 < w && p.1 >= 0 && p.1 < h).collect())
}

fn textbook_line(x1: i32, y1: i32, x2: i32, y2: i32) -> Vec<(i32, i32)> {
    let mut out = Vec::new();
    let dx = x2 - x1;
    let dy = y2 - y1;
    let dx1 = dx.abs();
    let dy1 = dy.abs();
    let mut px = 2 * dy1 - dx1;
    let mut py = 2 * dx1 - dy1;
    if dy1 <= dx1 {
        let (mut x, mut y, xe) = if dx >= 0 { (x1, y1, x2) } else { (x2, y2, x1) };
        out.push((x, y));
        while x < xe {
            x += 1;
            if px < 0 {
                px += 2 * dy1;
            } else {
                if (dx < 0 && dy < 0) || (dx > 0 && dy > 0) {
                    y += 1;
                } else {
                    y -= 1;
                }
                px += 2 * (dy1 - dx1);
            }
            out.push((x, y));
        }
    } else {
        let (mut x, mut y, ye) = if dy >= 0 { (x1, y1, y2) } else { (x2, y2, y1) };
        out.push((x, y));
        while y < ye {
            y += 1;
            if py <= 0 {
                py += 2 * dx1;
            } else {
                if (dx < 0 && dy < 0) || (dx > 0 && dy > 0) {
                    x += 1;
                } else {
                    x -= 1;
                }
                py += 2 * (dx1 - dy1);
            }
            out.push((x, y));
        }
    }
    out
}

fn textbook_circle(xc: i32, yc: i32, r: i32, filled: bool) -> Vec<(i32, i32)> {
    let mut out = Vec::new();
    if r == 0 {
        return out;
    }
    let mut x = 0;
    let mut y = r;
    let mut p = 3 - 2 * r;
    while y >= x {
        if filled {
            for i in (xc - x)..=(xc + x) {
                out.push((i, yc - y));
                out.push((i, yc + y));
            }
            for i in (xc - y)..=(xc + y) {
                out.push((i, yc - x));
                out.push((i, yc + x));
            }
        } else {
            for (a, b) in [(x, y), (y, x)] {
                out.push((xc - a, yc - b));
                out.push((xc + a, yc - b));
                out.push((xc - a, yc + b));
                out.push((xc + a, yc + b));
            }
        }
        if p < 0 {
            p += 4 * x + 6;
        } else {
            p += 4 * (x - y) + 10;
            y -= 1;
        }
        x += 1;
    }
    out
}

#[test]
fn fresh_console_is_blank() {
    let e = screen(4, 3);
    assert_eq!(e.screen_width(), 4);
    assert_eq!(e.screen_height(), 3);
    assert!(e.is_constructed());
    assert_eq!(e.buffer().len(), 12);
    assert!(e.buffer().iter().all(|c| *c == Cell { glyph: 0, color: 0 }));
    assert_eq!(e.cell(4, 0), None);
    assert_eq!(e.cell(0, 3), None);
    assert_eq!(e.cell(-1, 0), None);
}

#[test]
fn draw_sets_one_cell_and_drops_what_is_off_screen() {
    let mut e = screen(5, 4);
    e.draw(2, 1);
    e.draw_with(4, 3, PIXEL_HALF, FG_RED);
    e.draw(5, 0);
    e.draw(0, 4);
    e.draw(-1, 2);
    e.draw(i32::MAX, i32::MIN);
    assert_eq!(lit(&e), vec![(2, 1), (4, 3)]);
    assert_eq!(e.cell(2, 1), Some(Cell { glyph: PIXEL_SOLID, color: FG_WHITE }));
    assert_eq!(e.cell(4, 3), Some(Cell { glyph: PIXEL_HALF, color: FG_RED }));
    assert_eq!(e.buffer()[1 * 5 + 2].glyph, PIXEL_SOLID);
}

#[test]
fn line_from_origin_to_4_2_has_the_canonical_cells() {
    let mut e = screen(8, 8);
    e.draw_line(0, 0, 4, 2);
    assert_eq!(lit(&e), sorted(vec![(0, 0), (1, 1), (2, 1), (3, 2), (4, 2)]));
    assert_eq!(textbook_line(0, 0, 4, 2), vec![(0, 0), (1, 1), (2, 1), (3, 2), (4, 2)]);
}

#[test]
fn line_backwards_is_walked_from_its_left_end() {
    let mut e = screen(8, 8);
    e.draw_line_with(4, 2, 0, 0, PIXEL_HALF, FG_RED);
    assert_eq!(lit(&e), sorted(vec![(0, 0), (1, 1), (2, 1), (3, 2), (4, 2)]));
    assert_eq!(e.cell(3, 2), Some(Cell { glyph: PIXEL_HALF, color: FG_RED }));
}

#[test]
fn steep_line_rounds_a_half_down() {
    let mut e = screen(8, 8);
    e.draw_line(0, 0, 1, 2);
    assert_eq!(lit(&e), sorted(vec![(0, 0), (0, 1), (1, 2)]));
    let mut f = screen(8, 8);
    f.draw_line(0, 0, 2, 1);
    assert_eq!(lit(&f), sorted(vec![(0, 0), (1, 1), (2, 1)]));
}

#[test]
fn lines_match_the_textbook_walk_in_every_direction() {
    let ends = [
        (0, 0, 9, 3),
        (9, 3, 0, 0),
        (0, 9, 9, 0),
        (9, 0, 0, 9),
        (2, 1, 4, 11),
        (4, 11, 2, 1),
        (7, 0, 3, 11),
        (3, 11, 7, 0),
        (0, 5, 11, 5),
        (11, 5, 0, 5),
        (6, 0, 6, 11),
        (6, 11, 6, 0),
        (3, 3, 3, 3),
        (-5, -3, 15, 9),
        (15, 14, -4, -20),
        (0, 0, 11, 11),
        (11, 0, 0, 11),
        (1, 2, 8, 7),
        (1, 9, 10, 4),
    ];
    for (x1, y1, x2, y2) in ends {
        let mut e = screen(12, 12);
        e.draw_line(x1, y1, x2, y2);
        assert_eq!(lit(&e), on_screen(textbook_line(x1, y1, x2, y2), 12, 12));
    }
}

#[test]
fn line_far_off_screen_leaves_the_screen_alone() {
    let mut e = screen(6, 6);
    e.draw_line(-100, -50, -10, -60);
    e.draw_line(1000, 7, 2000, 7);
    assert_eq!(lit(&e), vec![]);
}

#[test]
fn triangle_outline_is_its_three_lines() {
    let mut e = screen(12, 12);
    e.draw_triangle(1, 1, 10, 3, 4, 9);
    let mut want = textbook_line(1, 1, 10, 3);
    want.extend(textbook_line(10, 3, 4, 9));
    want.extend(textbook_line(4, 9, 1, 1));
    assert_eq!(lit(&e), sorted(want));
    let mut f = screen(12, 12);
    f.draw_triangle_with(1, 1, 10, 3, 4, 9, PIXEL_HALF, FG_RED);
    assert_eq!(lit(&f), lit(&e));
    assert_eq!(f.cell(1, 1), Some(Cell { glyph: PIXEL_HALF, color: FG_RED }));
}

#[test]
fn filled_triangle_0_0_4_0_0_4_is_x_plus_y_up_to_4() {
    let mut e = screen(8, 8);
    e.fill_triangle(0, 0, 4, 0, 0, 4);
    let mut want = Vec::new();
    for y in 0..8 {
        for x in 0..8 {
            if x + y <= 4 {
                want.push((x, y));
            }
        }
    }
    assert_eq!(lit(&e), want);
    assert_eq!(want.len(), 15);
}

fn in_closed_triangle(p: [(i64, i64); 3], x: i64, y: i64) -> bool {
    let e = |a: (i64, i64), b: (i64, i64)| (b.0 - a.0) * (y - a.1) - (b.1 - a.1) * (x - a.0);
    let d0 = e(p[0], p[1]);
    let d1 = e(p[1], p[2]);
    let d2 = e(p[2], p[0]);
    let inside = (d0 >= 0 && d1 >= 0 && d2 >= 0) || (d0 <= 0 && d1 <= 0 && d2 <= 0);
    let minx = p.iter().map(|q| q.0).min().unwrap();
    let maxx = p.iter().map(|q| q.0).max().unwrap();
    let miny = p.iter().map(|q| q.1).min().unwrap();
    let maxy = p.iter().map(|q| q.1).max().unwrap();
    inside && minx <= x && x <= maxx && miny <= y && y <= maxy
}

#[test]
fn filled_triangle_is_the_closed_triangle_whatever_the_order_of_corners() {
    let corners = [
        [(1, 1), (10, 3), (4, 9)],
        [(0, 0), (11, 0), (5, 11)],
        [(5, 0), (0, 11), (11, 11)],
        [(2, 2), (2, 9), (9, 5)],
        [(9, 2), (9, 9), (1, 6)],
        [(0, 0), (11, 11), (3, 4)],
        [(-4, 3), (15, 5), (6, -7)],
        [(3, 3), (3, 3), (3, 3)],
        [(1, 4), (9, 4), (5, 4)],
        [(4, 1), (4, 9), (4, 5)],
        [(0, 0), (5, 5), (10, 10)],
        [(0, 0), (7, 1), (3, 2)],
    ];
    for tri in corners {
        let orders = [[0, 1, 2], [0, 2, 1], [1, 0, 2], [1, 2, 0], [2, 0, 1], [2, 1, 0]];
        for o in orders {
            let p = [tri[o[0]], tri[o[1]], tri[o[2]]];
            let mut e = screen(12, 12);
            e.fill_triangle_with(p[0].0, p[0].1, p[1].0, p[1].1, p[2].0, p[2].1, PIXEL_HALF, FG_RED);
            let mut want = Vec::new();
            for y in 0..12 {
                for x in 0..12 {
                    let q = [
                        (p[0].0 as i64, p[0].1 as i64),
                        (p[1].0 as i64, p[1].1 as i64),
                        (p[2].0 as i64, p[2].1 as i64),
                    ];
                    if in_closed_triangle(q, x, y) {
                        want.push((x as i32, y as i32));
                    }
                }
            }
            assert_eq!(lit(&e), want);
        }
    }
}

#[test]
fn circle_of_radius_zero_or_less_draws_nothing() {
    let mut e = screen(9, 9);
    e.draw_circle(4, 4, 0);
    e.fill_circle(4, 4, 0);
    e.draw_circle(4, 4, -3);
    e.fill_circle(4, 4, -3);
    assert_eq!(lit(&e), vec![]);
}

#[test]
fn circle_of_radius_one_and_two() {
    let mut e = screen(9, 9);
    e.draw_circle(4, 4, 1);
    assert_eq!(lit(&e), sorted(vec![(4, 3), (3, 4), (5, 4), (4, 5)]));
    let mut f = screen(9, 9);
    f.fill_circle(4, 4, 1);
    assert_eq!(lit(&f), sorted(vec![(4, 3), (3, 4), (4, 4), (5, 4), (4, 5)]));
    let mut g = screen(9, 9);
    g.draw_circle_with(4, 4, 2, PIXEL_HALF, FG_RED);
    assert_eq!(
        lit(&g),
        sorted(vec![
            (3, 2), (4, 2), (5, 2),
            (2, 3), (6, 3),
            (2, 4), (6, 4),
            (2, 5), (6, 5),
            (3, 6), (4, 6), (5, 6),
        ])
    );
}

#[test]
fn circles_match_the_midpoint_walk() {
    for r in 1..14 {
        for (xc, yc) in [(10, 10), (0, 0), (19, 3), (-2, 25)] {
            let mut e = screen(20, 20);
            e.draw_circle(xc, yc, r);
            assert_eq!(lit(&e), on_screen(textbook_circle(xc, yc, r, false), 20, 20));
            let mut f = screen(20, 20);
            f.fill_circle_with(xc, yc, r, PIXEL_HALF, FG_RED);
            assert_eq!(lit(&f), on_screen(textbook_circle(xc, yc, r, true), 20, 20));
        }
    }
}

#[test]
fn rectangle_outline() {
    let mut e = screen(8, 8);
    e.draw_rectangle(1, 2, 4, 3);
    assert_eq!(
        lit(&e),
        sorted(vec![
            (1, 2), (2, 2), (3, 2), (4, 2),
            (1, 3), (4, 3),
            (1, 4), (2, 4), (3, 4), (4, 4),
        ])
    );
    let mut f = screen(8, 8);
    f.draw_rectangle(3, 3, 0, 5);
    f.draw_rectangle(3, 3, 5, -1);
    assert_eq!(lit(&f), vec![]);
    f.draw_rectangle_with(6, 6, 1, 1, PIXEL_HALF, FG_RED);
    assert_eq!(lit(&f), vec![(6, 6)]);
    f.draw_rectangle(i32::MAX - 1, 0, 5, 5);
    assert_eq!(lit(&f), vec![(6, 6)]);
}

#[test]
fn filled_rectangle_leaves_out_its_far_edges() {
    let mut e = screen(6, 5);
    e.fill_rect(1, 1, 4, 3);
    assert_eq!(lit(&e), sorted(vec![(1, 1), (2, 1), (3, 1), (1, 2), (2, 2), (3, 2)]));
    let mut f = screen(6, 5);
    f.fill_rect_with(-3, 3, 100, 100, PIXEL_HALF, FG_RED);
    let mut want = Vec::new();
    for y in 3..5 {
        for x in 0..6 {
            want.push((x, y));
        }
    }
    assert_eq!(lit(&f), want);
    let mut g = screen(6, 5);
    g.fill_rect(4, 4, 1, 1);
    g.fill_rect(7, 0, 9, 5);
    assert_eq!(lit(&g), vec![]);
}

#[test]
fn clip_brings_coordinates_onto_the_screen_edge() {
    let e = screen(6, 5);
    let (mut x, mut y) = (-3, 9);
    e.clip(&mut x, &mut y);
    assert_eq!((x, y), (0, 5));
    let (mut x, mut y) = (6, -1);
    e.clip(&mut x, &mut y);
    assert_eq!((x, y), (6, 0));
    let (mut x, mut y) = (5, 4);
    e.clip(&mut x, &mut y);
    assert_eq!((x, y), (5, 4));
}

#[test]
fn clear_fills_every_cell_with_the_empty_glyph() {
    let mut e = screen(4, 3);
    e.draw_line(0, 0, 3, 2);
    e.clear(FG_RED);
    assert_eq!(e.buffer().len(), 12);
    assert!(e.buffer().iter().all(|c| *c == Cell { glyph: PIXEL_EMPTY, color: FG_RED }));
}

fn steps(pts: &[(i32, i32)]) -> Vec<(i32, i32)> {
    pts.iter().map(|p| (p.0 * SUBCELLS, p.1 * SUBCELLS)).collect()
}

#[test]
fn wireframe_joins_the_corners_in_a_ring() {
    let pts = vec![(1, 1), (9, 2), (7, 9), (2, 6)];
    let mut e = screen(12, 12);
    e.draw_wireframe_model(&steps(&pts), FG_RED, PIXEL_HALF);
    let mut want = Vec::new();
    for i in 0..4 {
        let a = pts[i];
        let b = pts[(i + 1) % 4];
        want.extend(textbook_line(a.0, a.1, b.0, b.1));
    }
    assert_eq!(lit(&e), sorted(want));
    assert_eq!(e.cell(1, 1), Some(Cell { glyph: PIXEL_HALF, color: FG_RED }));
    let mut f = screen(12, 12);
    f.draw_wireframe_model(&vec![], FG_RED, PIXEL_HALF);
    assert_eq!(lit(&f), vec![]);
    f.draw_wireframe_model(&steps(&[(3, 4)]), FG_RED, PIXEL_HALF);
    assert_eq!(lit(&f), vec![(3, 4)]);
}

#[test]
fn wireframe_leaves_the_fraction_of_a_corner_off_towards_zero() {
    assert_eq!(to_whole_cells(0), 0);
    assert_eq!(to_whole_cells(255), 0);
    assert_eq!(to_whole_cells(256), 1);
    assert_eq!(to_whole_cells(-1), 0);
    assert_eq!(to_whole_cells(-255), 0);
    assert_eq!(to_whole_cells(-256), -1);
    assert_eq!(to_whole_cells(-257), -1);
    assert_eq!(to_whole_cells(i32::MAX), 8388607);
    assert_eq!(to_whole_cells(i32::MIN), -8388608);
    let mut e = screen(12, 12);
    e.draw_wireframe_model(&vec![(1 * 256 + 255, 2 * 256 + 1), (9 * 256 + 128, 2 * 256 + 200)], FG_RED, PIXEL_HALF);
    assert_eq!(lit(&e), sorted(textbook_line(1, 2, 9, 2)));
    let mut f = screen(12, 12);
    f.draw_wireframe_model(&vec![(-200, -100), (3 * 256, -1)], FG_RED, PIXEL_HALF);
    assert_eq!(lit(&f), sorted(textbook_line(0, 0, 3, 0)));
}

fn floor_div(n: i128, d: i128) -> i128 {
    n.div_euclid(d)
}

fn even_odd(pts: &[(i32, i32)], w: i32, h: i32) -> Vec<(i32, i32)> {
    let mut out = Vec::new();
    let n = pts.len();
    if n < 3 {
        return out;
    }
    for y in 0..h {
        let sample = y as i128 * 256 + 128;
        let mut xs: Vec<(i128, i128)> = Vec::new();
        for i in 0..n {
            let (x1, y1) = (pts[i].0 as i128, pts[i].1 as i128);
            let (x2, y2) = (pts[(i + 1) % n].0 as i128, pts[(i + 1) % n].1 as i128);
            if y1 == y2 {
                continue;
            }
            let (xa, ya, xb, yb) = if y1 < y2 { (x1, y1, x2, y2) } else { (x2, y2, x1, y1) };
            if sample >= ya && sample < yb {
                xs.push((xa * (yb - ya) + (sample - ya) * (xb - xa), 256 * (yb - ya)));
            }
        }
        xs.sort_by(|a, b| (a.0 * b.1).cmp(&(b.0 * a.1)));
        let mut k = 0;
        while k + 1 < xs.len() {
            let from = -floor_div(-xs[k].0, xs[k].1);
            let to = floor_div(xs[k + 1].0, xs[k + 1].1);
            let mut x = from.max(0);
            while x <= to && x < w as i128 {
                out.push((x as i32, y));
                x += 1;
            }
            k += 2;
        }
    }
    sorted(out)
}

#[test]
fn filled_square_covers_the_rows_whose_middle_it_holds() {
    let mut e = screen(8, 8);
    e.draw_filled_model(&steps(&[(1, 1), (5, 1), (5, 4), (1, 4)]), FG_RED, PIXEL_HALF);
    let mut want = Vec::new();
    for y in 1..4 {
        for x in 1..6 {
            want.push((x, y));
        }
    }
    assert_eq!(lit(&e), want);
    assert_eq!(e.cell(1, 1), Some(Cell { glyph: PIXEL_HALF, color: FG_RED }));
}

#[test]
fn filled_square_with_corners_between_cells() {
    let mut e = screen(8, 8);
    let pts = vec![(1 * 256 + 64, 128), (4 * 256 + 192, 128), (4 * 256 + 192, 3 * 256 + 128), (1 * 256 + 64, 3 * 256 + 128)];
    e.draw_filled_model(&pts, FG_RED, PIXEL_HALF);
    let mut want = Vec::new();
    for y in 0..3 {
        for x in 2..5 {
            want.push((x, y));
        }
    }
    assert_eq!(lit(&e), want);
    let mut f = screen(8, 8);
    let low = vec![(256, 129), (3 * 256, 129), (3 * 256, 256 + 128), (256, 256 + 128)];
    f.draw_filled_model(&low, FG_RED, PIXEL_HALF);
    assert_eq!(lit(&f), vec![]);
    let mut g = screen(8, 8);
    let thin = vec![(256, 128), (3 * 256, 128), (3 * 256, 129), (256, 129)];
    g.draw_filled_model(&thin, FG_RED, PIXEL_HALF);
    assert_eq!(lit(&g), vec![(1, 0), (2, 0), (3, 0)]);
}

#[test]
fn filled_model_with_fewer_than_three_corners_draws_nothing() {
    let mut e = screen(8, 8);
    e.draw_filled_model(&vec![], FG_RED, PIXEL_HALF);
    e.draw_filled_model(&steps(&[(1, 1)]), FG_RED, PIXEL_HALF);
    e.draw_filled_model(&steps(&[(1, 1), (5, 6)]), FG_RED, PIXEL_HALF);
    assert_eq!(lit(&e), vec![]);
}

#[test]
fn filled_models_match_the_sorted_pairs_of_crossings() {
    let shapes: Vec<Vec<(i32, i32)>> = vec![
        steps(&[(0, 0), (4, 0), (0, 4)]),
        steps(&[(2, 1), (12, 3), (9, 13), (1, 9)]),
        steps(&[(1, 1), (13, 1), (13, 13), (7, 5), (1, 13)]),
        steps(&[(7, 0), (9, 5), (14, 5), (10, 8), (12, 14), (7, 10), (2, 14), (4, 8), (0, 5), (5, 5)]),
        steps(&[(-5, -5), (20, -3), (18, 22), (-7, 19)]),
        steps(&[(1, 1), (12, 12), (12, 1), (1, 12)]),
        steps(&[(3, 3), (3, 3), (3, 3)]),
        steps(&[(0, 7), (15, 7), (8, 7)]),
        steps(&[(2, 2), (10, 2), (10, 10), (2, 10), (2, 2), (10, 2), (10, 10), (2, 10)]),
        steps(&[(5, 0), (5, 14), (6, 14), (6, 0)]),
        vec![(300, 77), (3500, 410), (2911, 3333), (129, 2000)],
        vec![(1792, 3), (2311, 1290), (3700, 1281), (2600, 2051), (3111, 3599), (1800, 2570), (500, 3600), (1030, 2049), (1, 1279), (1290, 1300)],
        vec![(-1000, 640), (5000, 640), (2000, 3712), (2000, -128)],
        vec![(128, 128), (3712, 384), (3456, 3712), (384, 3456), (1920, 1920)],
        vec![(i32::MIN, i32::MIN), (i32::MAX, i32::MIN), (i32::MAX, i32::MAX), (i32::MIN, i32::MAX)],
        vec![(i32::MIN, 0), (i32::MAX, 1000), (0, i32::MAX), (-5, i32::MIN)],
    ];
    for pts in shapes {
        let mut e = screen(15, 15);
        e.draw_filled_model(&pts, FG_RED, PIXEL_HALF);
        assert_eq!(lit(&e), even_odd(&pts, 15, 15));
    }
}

#[test]
fn every_row_is_crossed_an_even_number_of_times() {
    let pts: Vec<(i32, i32)> =
        vec![(1792, 3), (2311, 1290), (3700, 1281), (2600, 2051), (3111, 3599), (1800, 2570), (500, 3600), (1030, 2049), (1, 1279), (1290, 1300)];
    let n = pts.len();
    for y in -2..17 {
        let middle = y * 256 + 128;
        let mut crossings = 0;
        for i in 0..n {
            let a = pts[i].1 > middle;
            let b = pts[(i + 1) % n].1 > middle;
            if a != b {
                crossings += 1;
            }
        }
        assert_eq!(crossings % 2, 0);
    }
}
