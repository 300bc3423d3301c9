use crossterm::style::Color;
use std::collections::HashMap;
use termdraw::canvas::Paint;
use termdraw::shape::{Background, Circle, CustomShape, Drawable, Line, Point, Rect};

fn apply(cells: &mut HashMap<(u32, u32), Color>, width: u16, height: u16, paints: &[Paint]) {
    for p in paints {
        if p.x < width as u32 && p.y < height as u32 {
            cells.insert((p.x, p.y), p.color);
        }
    }
}

fn once_and_twice<S: Drawable>(shape: &S) {
    let (width, height) = (20u16, 10u16);
    let mut start: HashMap<(u32, u32), Color> = HashMap::new();
    start.insert((1, 1), Color::Green);
    start.insert((19, 9), Color::Yellow);
    let mut once = start.clone();
    apply(&mut once, width, height, &shape.draw(width, height, Color::Red, Color::Blue).unwrap());
    let mut twice = once.clone();
    apply(&mut twice, width, height, &shape.draw(width, height, Color::Red, Color::Blue).unwrap());
    assert_eq!(once, twice);
}

#[test]
fn drawing_twice_is_drawing_once() {
    once_and_twice(&Background);
    once_and_twice(&Point(3, 3));
    once_and_twice(&Line(0, 0, 15, 5));
    once_and_twice(&Rect(15, 5, 10, 10));
    once_and_twice(&Circle(2, 2, 4));
    once_and_twice(&CustomShape(vec![Point(0, 0), Point(10, 0), Point(5, 5), Point(5, 9)], true));
}

#[test]
fn later_shape_wins_where_shapes_overlap() {
    let mut cells: HashMap<(u32, u32), Color> = HashMap::new();
    apply(&mut cells, 20, 10, &Background.draw(20, 10, Color::Black, Color::Reset).unwrap());
    apply(&mut cells, 20, 10, &Rect(2, 2, 3, 3).draw(20, 10, Color::White, Color::Grey).unwrap());
    assert_eq!(cells.get(&(0, 0)), Some(&Color::Black));
    assert_eq!(cells.get(&(2, 2)), Some(&Color::White));
    assert_eq!(cells.get(&(3, 3)), Some(&Color::Grey));
    assert_eq!(cells.get(&(19, 9)), None);
    assert_eq!(cells.len(), 19 * 9);
}
