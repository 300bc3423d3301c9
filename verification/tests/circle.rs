use crossterm::style::Color;
use termdraw::canvas::Paint;
use termdraw::shape::{Circle, Drawable};

fn paint(x: u32, y: u32, color: Color) -> Paint {
    Paint { x, y, color }
}

#[test]
fn circle_of_radius_two() {
    let s = Color::White;
    let f = Color::Black;
    let paints = Circle(5, 5, 2).draw(80, 24, s, f).unwrap();
    assert_eq!(
        paints,
        vec![
            paint(3, 5, s),
            paint(4, 4, s),
            paint(4, 5, f),
            paint(4, 6, s),
            paint(5, 3, s),
            paint(5, 4, f),
            paint(5, 5, f),
            paint(5, 6, f),
            paint(5, 7, s),
            paint(6, 4, s),
            paint(6, 5, f),
            paint(6, 6, s),
            paint(7, 5, s),
        ]
    );
}

#[test]
fn circle_cells_lie_in_the_diamond_and_on_the_canvas() {
    let cases =
        [(10u16, 10u16, 4u16, 80u16, 24u16), (0, 0, 3, 80, 24), (78, 22, 5, 80, 24), (3, 2, 6, 5, 4)];
    for (cx, cy, r, w, h) in cases {
        let paints = Circle(cx, cy, r).draw(w, h, Color::Red, Color::Blue).unwrap();
        let mut expected = 0usize;
        for x in 0..w as i64 {
            for y in 0..h as i64 {
                if (x - cx as i64).abs() + (y - cy as i64).abs() <= r as i64 {
                    expected += 1;
                }
            }
        }
        assert_eq!(paints.len(), expected);
        for p in &paints {
            let dx = p.x as i64 - cx as i64;
            let dy = p.y as i64 - cy as i64;
            assert!(dx.abs() + dy.abs() <= r as i64);
            assert!(p.x < w as u32 && p.y < h as u32);
            let border = (dx + dy).abs() == r as i64 || (dx - dy).abs() == r as i64;
            assert_eq!(p.color, if border { Color::Red } else { Color::Blue });
        }
        let mut cells: Vec<(u32, u32)> = paints.iter().map(|p| (p.x, p.y)).collect();
        cells.sort();
        cells.dedup();
        assert_eq!(cells.len(), paints.len());
    }
}

#[test]
fn circle_in_the_corner_is_clipped() {
    let s = Color::White;
    let paints = Circle(0, 0, 1).draw(80, 24, s, Color::Black).unwrap();
    assert_eq!(paints, vec![paint(0, 0, Color::Black), paint(0, 1, s), paint(1, 0, s)]);
}

#[test]
fn circle_of_radius_zero_paints_its_centre_as_border() {
    let paints = Circle(4, 9, 0).draw(80, 24, Color::White, Color::Black).unwrap();
    assert_eq!(paints, vec![paint(4, 9, Color::White)]);
}

#[test]
fn circle_off_the_canvas_paints_nothing() {
    assert_eq!(Circle(100, 100, 3).draw(80, 24, Color::White, Color::Black).unwrap(), vec![]);
    assert_eq!(Circle(4, 9, 0).draw(4, 24, Color::White, Color::Black).unwrap(), vec![]);
    assert_eq!(Circle(5, 5, 2).draw(0, 0, Color::White, Color::Black).unwrap(), vec![]);
}

#[test]
fn circle_past_the_last_column_does_not_come_back_at_the_first() {
    let paints = Circle(65535, 0, 1).draw(65535, 24, Color::White, Color::Black).unwrap();
    assert_eq!(paints, vec![paint(65534, 0, Color::White)]);
}

#[test]
fn circle_reads_canvas_size() {
    assert!(Circle(5, 5, 2).reads_canvas_size());
    let wide = Circle(5, 5, 2).draw(80, 24, Color::White, Color::Black).unwrap();
    let narrow = Circle(5, 5, 2).draw(6, 24, Color::White, Color::Black).unwrap();
    assert_eq!(wide.len(), 13);
    assert_eq!(narrow.len(), 9);
}
