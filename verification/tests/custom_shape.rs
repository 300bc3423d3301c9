use crossterm::style::Color;
use termdraw::canvas::Paint;
use termdraw::shape::{CustomShape, Drawable, InvalidShapeError, Line, Point};

fn triangle(close: bool) -> CustomShape {
    CustomShape(vec![Point(0, 0), Point(10, 0), Point(5, 5)], close)
}

#[test]
fn closed_triangle_has_three_edges() {
    assert_eq!(
        triangle(true).edges(),
        Ok(vec![Line(0, 0, 10, 0), Line(10, 0, 5, 5), Line(5, 5, 0, 0)])
    );
}

#[test]
fn open_triangle_has_two_edges() {
    assert_eq!(triangle(false).edges(), Ok(vec![Line(0, 0, 10, 0), Line(10, 0, 5, 5)]));
}

#[test]
fn triangle_is_drawn_edge_by_edge() {
    let s = Color::White;
    let f = Color::Reset;
    let mut expected: Vec<Paint> = Vec::new();
    expected.extend(Line(0, 0, 10, 0).draw(80, 24, s, f).unwrap());
    expected.extend(Line(10, 0, 5, 5).draw(80, 24, s, f).unwrap());
    assert_eq!(expected.len(), 16);
    assert_eq!(triangle(false).draw(80, 24, s, f).unwrap(), expected);
    expected.extend(Line(5, 5, 0, 0).draw(80, 24, s, f).unwrap());
    assert_eq!(triangle(true).draw(80, 24, s, f).unwrap(), expected);
    assert!(expected.iter().all(|p| p.color == s));
}

#[test]
fn closing_edge_runs_from_the_last_vertex_to_the_first() {
    let shape = CustomShape(vec![Point(2, 9), Point(4, 9), Point(2, 3)], true);
    let cells: Vec<(u32, u32)> = shape
        .draw(80, 24, Color::White, Color::Reset)
        .unwrap()
        .iter()
        .map(|p| (p.x, p.y))
        .collect();
    assert_eq!(
        cells,
        vec![(2, 9), (3, 9), (2, 3), (2, 4), (2, 5), (2, 6), (2, 7), (2, 8)]
    );
}

#[test]
fn shape_with_too_few_vertices_fails() {
    for vertices in [vec![], vec![Point(1, 1)], vec![Point(1, 1), Point(5, 5)]] {
        for close in [false, true] {
            let shape = CustomShape(vertices.clone(), close);
            assert_eq!(
                shape.draw(80, 24, Color::White, Color::Reset),
                Err(InvalidShapeError::NotEnoughVertices)
            );
            assert_eq!(shape.edges(), Err(InvalidShapeError::NotEnoughVertices));
        }
    }
}

#[test]
fn invalid_shape_error_in_words() {
    assert_eq!(InvalidShapeError::NotEnoughVertices.message(), "not enough vertices");
}

#[test]
fn shape_with_many_vertices() {
    let vertices = vec![Point(0, 0), Point(0, 2), Point(3, 2), Point(3, 4), Point(6, 6)];
    let shape = CustomShape(vertices, false);
    assert_eq!(
        shape.edges(),
        Ok(vec![Line(0, 0, 0, 2), Line(0, 2, 3, 2), Line(3, 2, 3, 4), Line(3, 4, 6, 6)])
    );
    let cells: Vec<(u32, u32)> = shape
        .draw(80, 24, Color::White, Color::Reset)
        .unwrap()
        .iter()
        .map(|p| (p.x, p.y))
        .collect();
    assert_eq!(
        cells,
        vec![(0, 0), (0, 1), (0, 2), (1, 2), (2, 2), (3, 2), (3, 3), (3, 4), (4, 5), (5, 6)]
    );
    assert!(!shape.reads_canvas_size());
}
