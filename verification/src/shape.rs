//! The shapes and what they have in common.

use crate::canvas::{
    lemma_paint_all_keeps_size, lemma_paint_all_twice, Canvas, CellPaint, Paint,
};
use crossterm::style::Color;
use vstd::prelude::*;

pub mod background;
pub mod circle;
pub mod custom_shape;
pub mod line;
pub mod point;
pub mod rect;

pub use background::Background;
pub use circle::Circle;
pub use custom_shape::CustomShape;
pub use line::Line;
pub use point::Point;
pub use rect::Rect;

verus! {

/// Why a shape could not be drawn.
#[derive(Clone, Copy, Debug, PartialEq, Eq)]
pub enum InvalidShapeError {
    /// A vertex chain needs at least three vertices.
    NotEnoughVertices,
}

impl InvalidShapeError {
    /// The error in words.
    pub fn message(&self) -> (text: String)
        ensures
            text@ == "not enough vertices"@,
    {
        match self {
            InvalidShapeError::NotEnoughVertices => "not enough vertices".to_owned(),
        }
    }
}

/// Something that can be drawn on a canvas of character cells.
pub trait Drawable {
    /// Whether the shape can be drawn at all.
    spec fn drawable(&self) -> bool;

    /// The cell writes that drawing the shape makes, in the order in which it
    /// makes them, on a canvas `width` columns wide and `height` rows high.
    spec fn paints(&self, width: u16, height: u16, stroke_color: Color, fill_color: Color) -> Seq<
        CellPaint,
    >;

    /// Whether the cell writes of the shape depend on the size of the canvas.
    /// Where they do not, any size may be handed to `draw`.
    fn reads_canvas_size(&self) -> (reads: bool)
        ensures
            !reads ==> forall|w: u16, h: u16, stroke_color: Color, fill_color: Color|
                #[trigger] self.paints(w, h, stroke_color, fill_color) == self.paints(
                    0,
                    0,
                    stroke_color,
                    fill_color,
                ),
    ;

    /// Computes the cell writes of the shape: border cells take
    /// `stroke_color`, interior cells `fill_color`.
    fn draw(&self, width: u16, height: u16, stroke_color: Color, fill_color: Color) -> (r: Result<
        Vec<Paint>,
        InvalidShapeError,
    >)
        ensures
            self.drawable() <==> r is Ok,
            r matches Ok(out) ==> out.deep_view() == self.paints(
                width,
                height,
                stroke_color,
                fill_color,
            ),
    ;
}

/// The canvas after `shape` has been drawn on it: a shape that cannot be
/// drawn leaves it as it was.
pub open spec fn drawn<S: Drawable>(
    canvas: Canvas,
    shape: &S,
    stroke_color: Color,
    fill_color: Color,
) -> Canvas {
    if shape.drawable() {
        canvas.paint_all(shape.paints(canvas.width, canvas.height, stroke_color, fill_color))
    } else {
        canvas
    }
}

/// Drawing a shape a second time, in the same colours, leaves every cell of
/// the canvas as the first drawing left it.
pub proof fn lemma_draw_twice<S: Drawable>(
    canvas: Canvas,
    shape: &S,
    stroke_color: Color,
    fill_color: Color,
)
    ensures
        drawn(drawn(canvas, shape, stroke_color, fill_color), shape, stroke_color, fill_color)
            == drawn(canvas, shape, stroke_color, fill_color),
{
    let paints = shape.paints(canvas.width, canvas.height, stroke_color, fill_color);
    lemma_paint_all_keeps_size(canvas, paints);
    lemma_paint_all_twice(canvas, paints);
}

} // verus!
