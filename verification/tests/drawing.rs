use vectorsnap::annotations::AnnotationStore;
use vectorsnap::raster::{
    cursor_color, draw_circle_with_color, draw_line_with_color, draw_polyline, rgb_on_white,
    Canvas, Rgba, ToolMode,
};

const WHITE: Rgba = Rgba { r: 255, g: 255, b: 255, a: 255 };
const RED: Rgba = Rgba { r: 255, g: 0, b: 0, a: 255 };
const CLEAR: Rgba = Rgba { r: 0, g: 0, b: 0, a: 0 };

fn painted(c: &Canvas, color: Rgba) -> Vec<(u32, u32)> {
    let mut out = Vec::new();
    for y in 0..c.height() {
        for x in 0..c.width() {
            if c.get_pixel(x, y) == color {
                out.push((x, y));
            }
        }
    }
    out
}

#[test]
fn undo_takes_back_last_stroke() {
    let mut s: AnnotationStore<u32> = AnnotationStore::new();
    s.push(3, 10);
    s.push(3, 11);
    s.push(1, 20);
    assert_eq!(s.get(3), Some(&vec![10, 11]));
    assert_eq!(s.undo(3), Some(11));
    assert_eq!(s.get(3), Some(&vec![10]));
    assert_eq!(s.undo(3), Some(10));
    assert_eq!(s.get(3), None);
    assert_eq!(s.undo(3), None);
    assert_eq!(s.pages(), vec![1]);
}

#[test]
fn pages_in_increasing_order() {
    let mut s: AnnotationStore<char> = AnnotationStore::new();
    s.push(9, 'a');
    s.push(2, 'b');
    s.push(5, 'c');
    s.push(2, 'd');
    assert_eq!(s.pages(), vec![2, 5, 9]);
    assert_eq!(s.get(2), Some(&vec!['b', 'd']));
}

#[test]
fn clearing_pages() {
    let mut s: AnnotationStore<u8> = AnnotationStore::new();
    s.push(0, 1);
    s.push(1, 2);
    s.clear_page(0);
    assert_eq!(s.pages(), vec![1]);
    s.clear_page(7);
    assert_eq!(s.pages(), vec![1]);
    s.clear();
    assert!(s.pages().is_empty());
    assert_eq!(s.get(1), None);
}

#[test]
fn canvas_basics() {
    let mut c = Canvas::filled(3, 2, WHITE);
    assert_eq!(c.width(), 3);
    assert_eq!(c.height(), 2);
    c.put_pixel(2, 1, RED);
    assert_eq!(c.get_pixel(2, 1), RED);
    assert_eq!(c.get_pixel(1, 1), WHITE);
    let px = c.into_pixels();
    assert_eq!(px.len(), 6);
    assert_eq!(px[5], RED);
}

#[test]
fn canvas_from_pixels_checks_size() {
    assert!(Canvas::from_pixels(2, 2, vec![WHITE; 3]).is_none());
    let c = Canvas::from_pixels(2, 1, vec![WHITE, RED]).unwrap();
    assert_eq!(c.get_pixel(1, 0), RED);
}

#[test]
fn circle_of_radius_one_is_a_plus() {
    let mut c = Canvas::filled(5, 5, WHITE);
    draw_circle_with_color(&mut c, 2, 2, 1, RED);
    assert_eq!(painted(&c, RED), vec![(2, 1), (1, 2), (2, 2), (3, 2), (2, 3)]);
}

#[test]
fn circle_of_radius_zero_is_a_dot_and_negative_nothing() {
    let mut c = Canvas::filled(3, 3, WHITE);
    draw_circle_with_color(&mut c, 1, 1, 0, RED);
    assert_eq!(painted(&c, RED), vec![(1, 1)]);
    let mut d = Canvas::filled(3, 3, WHITE);
    draw_circle_with_color(&mut d, 1, 1, -1, RED);
    assert!(painted(&d, RED).is_empty());
}

#[test]
fn circle_clipped_at_corner() {
    let mut c = Canvas::filled(4, 4, WHITE);
    draw_circle_with_color(&mut c, 0, 0, 2, RED);
    assert_eq!(painted(&c, RED), vec![(0, 0), (1, 0), (2, 0), (0, 1), (1, 1), (0, 2)]);
}

#[test]
fn thin_line_steps_diagonally() {
    let mut c = Canvas::filled(5, 5, WHITE);
    draw_line_with_color(&mut c, 0, 0, 4, 2, 0, RED);
    assert_eq!(painted(&c, RED), vec![(0, 0), (1, 1), (2, 1), (3, 2), (4, 2)]);
}

#[test]
fn thin_line_backwards_and_vertical() {
    let mut c = Canvas::filled(4, 4, WHITE);
    draw_line_with_color(&mut c, 3, 3, 3, 0, 0, RED);
    assert_eq!(painted(&c, RED), vec![(3, 0), (3, 1), (3, 2), (3, 3)]);
}

#[test]
fn thick_line_covers_neighbours() {
    let mut c = Canvas::filled(5, 3, WHITE);
    draw_line_with_color(&mut c, 1, 1, 3, 1, 1, RED);
    assert_eq!(
        painted(&c, RED),
        vec![(1, 0), (2, 0), (3, 0), (0, 1), (1, 1), (2, 1), (3, 1), (4, 1), (1, 2), (2, 2), (3, 2)]
    );
}

#[test]
fn line_off_canvas_is_clipped() {
    let mut c = Canvas::filled(2, 2, WHITE);
    draw_line_with_color(&mut c, -5, 0, 1, 0, 0, RED);
    assert_eq!(painted(&c, RED), vec![(0, 0), (1, 0)]);
}

#[test]
fn polyline_joins_segments() {
    let mut c = Canvas::filled(4, 4, WHITE);
    draw_polyline(&mut c, &[(0, 0), (2, 0), (2, 2)], 0, CLEAR);
    assert_eq!(painted(&c, CLEAR), vec![(0, 0), (1, 0), (2, 0), (2, 1), (2, 2)]);
    let mut d = Canvas::filled(2, 2, WHITE);
    draw_polyline(&mut d, &[(0, 0)], 3, RED);
    assert!(painted(&d, RED).is_empty());
}

#[test]
fn flattening_onto_white() {
    let c = Canvas::from_pixels(3, 1, vec![RED, CLEAR, Rgba { r: 1, g: 2, b: 3, a: 9 }]).unwrap();
    assert_eq!(rgb_on_white(&c), vec![255, 0, 0, 255, 255, 255, 1, 2, 3]);
}

#[test]
fn cursor_dot_colour() {
    assert_eq!(cursor_color(ToolMode::Pen, RED), RED);
    assert_eq!(cursor_color(ToolMode::Eraser, RED), WHITE);
}
