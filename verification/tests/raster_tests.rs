use scribble::raster::render_page;
use scribble::raster::Canvas;
use scribble::raster::Color;
use scribble::raster::Polyline;
use scribble::raster::TextBox;

const PAPER: Color = Color { r: 245, g: 245, b: 245 };
const INK: Color = Color { r: 0, g: 0, b: 0 };
const RED: Color = Color { r: 200, g: 10, b: 20 };
const BLUE: Color = Color { r: 1, g: 2, b: 250 };

/// The walk that steps by a running error term, point by point.
fn walk(x0: i32, y0: i32, x1: i32, y1: i32) -> Vec<(i32, i32)> {
    let dx = (x1 - x0).abs();
    let dy = (y1 - y0).abs();
    let sx = if x0 < x1 { 1 } else { -1 };
    let sy = if y0 < y1 { 1 } else { -1 };
    let mut err = dx - dy;
    let (mut x, mut y) = (x0, y0);
    let mut points = Vec::new();
    loop {
        points.push((x, y));
        if x == x1 && y == y1 {
            break;
        }
        let e2 = 2 * err;
        if e2 > -dy {
            err -= dy;
            x += sx;
        }
        if e2 < dx {
            err += dx;
            y += sy;
        }
    }
    points
}

/// The closed form of the line: the nearest multiple of the slope, a tie rounded down.
fn closed_form(x0: i32, y0: i32, x1: i32, y1: i32) -> Vec<(i32, i32)> {
    let dx = (x1 - x0).abs() as i64;
    let dy = (y1 - y0).abs() as i64;
    let n = dx.max(dy);
    let mut points = Vec::new();
    for k in 0..=n {
        let (px, py) = if n == 0 {
            (0, 0)
        } else {
            ((2 * dx * k + n - 1).div_euclid(2 * n), (2 * dy * k + n - 1).div_euclid(2 * n))
        };
        let x = if x0 < x1 { x0 as i64 + px } else { x0 as i64 - px };
        let y = if y0 < y1 { y0 as i64 + py } else { y0 as i64 - py };
        points.push((x as i32, y as i32));
    }
    points
}

fn painted(canvas: &Canvas, color: Color) -> Vec<(u32, u32)> {
    let mut hits = Vec::new();
    for y in 0..canvas.height() {
        for x in 0..canvas.width() {
            if canvas.pixel(x, y) == Some(color) {
                hits.push((x, y));
            }
        }
    }
    hits
}

#[test]
fn new_canvas_is_filled_with_background() {
    let canvas = Canvas::new(4, 3, PAPER);
    assert_eq!(canvas.width(), 4);
    assert_eq!(canvas.height(), 3);
    assert_eq!(painted(&canvas, PAPER).len(), 12);
    assert_eq!(canvas.pixel(4, 0), None);
    assert_eq!(canvas.pixel(0, 3), None);
}

#[test]
fn empty_canvas_has_no_pixels() {
    let canvas = Canvas::new(0, 5, PAPER);
    assert_eq!(canvas.pixel(0, 0), None);
    assert_eq!(canvas.into_bytes().len(), 0);
}

#[test]
fn fill_repaints_every_pixel() {
    let mut canvas = Canvas::new(3, 2, PAPER);
    canvas.fill(RED);
    assert_eq!(painted(&canvas, RED).len(), 6);
}

#[test]
fn closed_form_agrees_with_error_walk() {
    for x1 in -9..=9 {
        for y1 in -9..=9 {
            assert_eq!(walk(0, 0, x1, y1), closed_form(0, 0, x1, y1), "to ({}, {})", x1, y1);
            assert_eq!(walk(3, -2, x1, y1), closed_form(3, -2, x1, y1), "from (3, -2) to ({}, {})", x1, y1);
        }
    }
}

#[test]
fn thin_line_paints_exactly_the_points_of_the_line() {
    for (x1, y1) in [(7, 2), (2, 7), (0, 5), (5, 0), (6, 6), (1, 0), (3, 4)] {
        let mut canvas = Canvas::new(8, 8, PAPER);
        canvas.draw_line(0, 0, x1, y1, RED, 1);
        let mut expected: Vec<(u32, u32)> = closed_form(0, 0, x1, y1).iter().map(|p| (p.0 as u32, p.1 as u32)).collect();
        expected.sort_by_key(|p| (p.1, p.0));
        assert_eq!(painted(&canvas, RED), expected);
    }
}

#[test]
fn line_two_to_one_rounds_half_down() {
    let mut canvas = Canvas::new(3, 2, PAPER);
    canvas.draw_line(0, 0, 2, 1, RED, 0);
    assert_eq!(painted(&canvas, RED), vec![(0, 0), (1, 0), (2, 1)]);
}

#[test]
fn line_runs_backwards_too() {
    let mut canvas = Canvas::new(4, 4, PAPER);
    canvas.draw_line(3, 3, 0, 1, RED, 1);
    assert_eq!(painted(&canvas, RED), vec![(0, 1), (1, 2), (2, 2), (3, 3)]);
}

#[test]
fn single_point_line_sets_the_brush_down_once() {
    let mut canvas = Canvas::new(5, 5, PAPER);
    canvas.draw_line(2, 2, 2, 2, RED, 2);
    assert_eq!(painted(&canvas, RED), vec![(2, 1), (1, 2), (2, 2), (3, 2), (2, 3)]);
}

#[test]
fn brush_of_width_four_is_a_disc_of_radius_two() {
    let mut canvas = Canvas::new(7, 7, PAPER);
    canvas.draw_line(3, 3, 3, 3, RED, 4);
    let hits = painted(&canvas, RED);
    assert_eq!(hits.len(), 13);
    for (x, y) in hits {
        let (ox, oy) = (x as i32 - 3, y as i32 - 3);
        assert!(ox * ox + oy * oy <= 4);
    }
}

#[test]
fn line_is_clipped_to_the_canvas() {
    let mut canvas = Canvas::new(3, 3, PAPER);
    canvas.draw_line(-2, 1, 5, 1, RED, 1);
    assert_eq!(painted(&canvas, RED), vec![(0, 1), (1, 1), (2, 1)]);
}

#[test]
fn width_with_the_top_bit_set_draws_as_a_negative_width() {
    let mut canvas = Canvas::new(3, 3, PAPER);
    canvas.draw_line(0, 0, 2, 2, RED, 0x8000_0004);
    assert_eq!(painted(&canvas, RED), vec![]);
    canvas.draw_line(0, 0, 2, 2, RED, u32::MAX);
    assert_eq!(painted(&canvas, RED), vec![(0, 0), (1, 1), (2, 2)]);
}

#[test]
fn widest_brush_covers_the_canvas() {
    let mut canvas = Canvas::new(3, 3, PAPER);
    canvas.draw_line(1, 1, 1, 1, RED, 0x7fff_ffff);
    assert_eq!(painted(&canvas, RED).len(), 9);
}

#[test]
fn brush_is_clipped_at_the_corner() {
    let mut canvas = Canvas::new(4, 4, PAPER);
    canvas.draw_line(0, 0, 0, 0, RED, 5);
    assert_eq!(painted(&canvas, RED), vec![(0, 0), (1, 0), (2, 0), (0, 1), (1, 1), (0, 2)]);
    let mut other = Canvas::new(4, 4, PAPER);
    other.draw_line(4, 4, 5, 5, RED, 4);
    assert_eq!(painted(&other, RED), vec![(3, 3)]);
    let mut far = Canvas::new(4, 4, PAPER);
    far.draw_line(4, 4, 5, 5, RED, 3);
    assert_eq!(painted(&far, RED), vec![]);
}

#[test]
fn polyline_of_one_point_leaves_no_mark() {
    let mut canvas = Canvas::new(3, 3, PAPER);
    canvas.draw_polyline(&Polyline { points: vec![(1, 1)], color: RED, width: 3 });
    assert_eq!(painted(&canvas, RED), vec![]);
}

#[test]
fn polyline_draws_each_leg() {
    let mut canvas = Canvas::new(4, 4, PAPER);
    canvas.draw_polyline(&Polyline { points: vec![(0, 0), (3, 0), (3, 3)], color: RED, width: 1 });
    assert_eq!(painted(&canvas, RED), vec![(0, 0), (1, 0), (2, 0), (3, 0), (3, 1), (3, 2), (3, 3)]);
}

#[test]
fn text_box_is_hatched_on_every_fourth_pixel() {
    let mut canvas = Canvas::new(6, 4, PAPER);
    canvas.draw_text_box(&TextBox { x: 1, y: 1, width: 4, height: 2 });
    assert_eq!(painted(&canvas, INK), vec![(3, 1), (2, 2)]);
}

#[test]
fn text_box_is_clipped_and_may_be_empty() {
    let mut canvas = Canvas::new(4, 4, PAPER);
    canvas.draw_text_box(&TextBox { x: -3, y: -3, width: 5, height: 5 });
    assert_eq!(painted(&canvas, INK), vec![(0, 0)]);
    let mut other = Canvas::new(4, 4, PAPER);
    other.draw_text_box(&TextBox { x: 0, y: 0, width: -2, height: 4 });
    other.draw_text_box(&TextBox { x: 0, y: 0, width: 4, height: 0 });
    other.draw_text_box(&TextBox { x: i32::MAX, y: 0, width: i32::MAX, height: 4 });
    assert_eq!(painted(&other, INK), vec![]);
}

#[test]
fn page_shows_text_over_strokes_over_paper() {
    let strokes = vec![
        Polyline { points: vec![(0, 0), (3, 0)], color: RED, width: 1 },
        Polyline { points: vec![(2, 0), (2, 2)], color: BLUE, width: 1 },
    ];
    let boxes = vec![TextBox { x: 0, y: 0, width: 1, height: 1 }];
    let canvas = render_page(4, 3, &strokes, &boxes);
    assert_eq!(canvas.pixel(0, 0), Some(INK));
    assert_eq!(canvas.pixel(1, 0), Some(RED));
    assert_eq!(canvas.pixel(2, 0), Some(BLUE));
    assert_eq!(canvas.pixel(3, 0), Some(RED));
    assert_eq!(canvas.pixel(2, 2), Some(BLUE));
    assert_eq!(canvas.pixel(0, 1), Some(PAPER));
    assert_eq!(painted(&canvas, PAPER).len(), 12 - 6);
}

#[test]
fn bytes_come_row_after_row() {
    let mut canvas = Canvas::new(2, 2, PAPER);
    canvas.draw_line(1, 0, 1, 0, RED, 1);
    canvas.draw_line(0, 1, 0, 1, BLUE, 1);
    let bytes = canvas.into_bytes();
    assert_eq!(bytes, vec![245, 245, 245, 200, 10, 20, 1, 2, 250, 245, 245, 245]);
    let image = image::RgbImage::from_raw(2, 2, bytes).unwrap();
    assert_eq!(image.get_pixel(1, 0).0, [200, 10, 20]);
    assert_eq!(image.get_pixel(0, 1).0, [1, 2, 250]);
}
