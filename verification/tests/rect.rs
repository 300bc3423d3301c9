use crossterm::style::Color;
use termdraw::canvas::Paint;
use termdraw::shape::{Drawable, Rect};

fn paint(x: u32, y: u32, color: Color) -> Paint {
    Paint { x, y, color }
}

#[test]
fn rect_border_takes_stroke_and_interior_takes_fill() {
    let s = Color::White;
    let f = Color::Black;
    let paints = Rect(1, 1, 4, 3).draw(80, 24, s, f).unwrap();
    assert_eq!(
        paints,
        vec![
            paint(1, 1, s),
            paint(1, 2, s),
            paint(1, 3, s),
            paint(2, 1, s),
            paint(2, 2, f),
            paint(2, 3, s),
            paint(3, 1, s),
            paint(3, 2, f),
            paint(3, 3, s),
            paint(4, 1, s),
            paint(4, 2, s),
            paint(4, 3, s),
        ]
    );
}

#[test]
fn rect_paints_width_times_height_cells() {
    for (w, h) in [(2u16, 2u16), (2, 7), (5, 3), (10, 10), (1, 1), (1, 6), (9, 1)] {
        let rect = Rect(3, 4, w, h);
        let paints = rect.draw(80, 24, Color::Red, Color::Blue).unwrap();
        assert_eq!(paints.len(), w as usize * h as usize);
        for p in &paints {
            assert!(3 <= p.x && p.x < 3 + w as u32);
            assert!(4 <= p.y && p.y < 4 + h as u32);
            let border =
                p.x == 3 || p.x == 3 + w as u32 - 1 || p.y == 4 || p.y == 4 + h as u32 - 1;
            assert_eq!(p.color, if border { Color::Red } else { Color::Blue });
        }
        let mut cells: Vec<(u32, u32)> = paints.iter().map(|p| (p.x, p.y)).collect();
        cells.sort();
        cells.dedup();
        assert_eq!(cells.len(), paints.len());
    }
}

#[test]
fn rect_of_two_by_two_is_all_border() {
    let paints = Rect(0, 0, 2, 2).draw(80, 24, Color::Red, Color::Blue).unwrap();
    assert_eq!(paints.len(), 4);
    assert!(paints.iter().all(|p| p.color == Color::Red));
}

#[test]
fn rect_without_width_or_height_paints_nothing() {
    assert_eq!(Rect(5, 5, 0, 7).draw(80, 24, Color::Red, Color::Blue).unwrap(), vec![]);
    assert_eq!(Rect(5, 5, 7, 0).draw(80, 24, Color::Red, Color::Blue).unwrap(), vec![]);
    assert_eq!(Rect(5, 5, 0, 0).draw(80, 24, Color::Red, Color::Blue).unwrap(), vec![]);
}

#[test]
fn square_is_the_rect_of_equal_sides() {
    for a in [0u16, 1, 2, 3, 10] {
        assert_eq!(Rect::square(4, 6, a), Rect(4, 6, a, a));
        assert_eq!(
            Rect::square(4, 6, a).draw(80, 24, Color::White, Color::Black).unwrap(),
            Rect(4, 6, a, a).draw(80, 24, Color::White, Color::Black).unwrap()
        );
    }
}

#[test]
fn square_of_three_has_one_interior_cell() {
    let paints = Rect::square(0, 0, 3).draw(80, 24, Color::White, Color::Black).unwrap();
    let inside: Vec<&Paint> = paints.iter().filter(|p| p.color == Color::Black).collect();
    assert_eq!(inside.len(), 1);
    assert_eq!((inside[0].x, inside[0].y), (1, 1));
    assert_eq!(paints.len(), 9);
}

#[test]
fn rect_past_the_last_addressable_cell_names_every_cell() {
    let s = Color::White;
    let paints = Rect(65535, 65534, 2, 2).draw(80, 24, s, Color::Black).unwrap();
    assert_eq!(
        paints,
        vec![
            paint(65535, 65534, s),
            paint(65535, 65535, s),
            paint(65536, 65534, s),
            paint(65536, 65535, s),
        ]
    );
}

#[test]
fn rect_does_not_read_canvas_size() {
    let rect = Rect(70, 20, 20, 10);
    assert!(!rect.reads_canvas_size());
    assert_eq!(
        rect.draw(80, 24, Color::Red, Color::Blue).unwrap(),
        rect.draw(0, 0, Color::Red, Color::Blue).unwrap()
    );
    assert_eq!(rect.draw(80, 24, Color::Red, Color::Blue).unwrap().len(), 200);
}
