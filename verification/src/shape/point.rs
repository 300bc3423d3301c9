//! Single cells.

use crate::canvas::{push_paint, Canvas, CellPaint, Paint};
use crate::shape::{drawn, Drawable, InvalidShapeError};
use crossterm::style::Color;
use vstd::prelude::*;

verus! {

/// The cell in column `0`, row `1`.
#[derive(Clone, Copy, Debug, PartialEq, Eq)]
pub struct Point(pub u16, pub u16);

impl Point {
    /// After a point is drawn, its cell has the stroke colour if it lies on
    /// the canvas; every other cell is untouched.
    pub proof fn lemma_drawn(
        &self,
        canvas: Canvas,
        stroke_color: Color,
        fill_color: Color,
        x: int,
        y: int,
    )
        ensures
            drawn(canvas, self, stroke_color, fill_color).color_at(x, y) == if x == self.0 && y
                == self.1 && canvas.holds(x, y) {
                Some(stroke_color)
            } else {
                canvas.color_at(x, y)
            },
    {
        let paints = self.paints(canvas.width, canvas.height, stroke_color, fill_color);
        assert(paints.drop_last() =~= Seq::<CellPaint>::empty());
        assert(canvas.paint_all(paints) == canvas.paint_all(paints.drop_last()).paint(
            paints.last(),
        ));
    }
}

impl Drawable for Point {
    open spec fn drawable(&self) -> bool {
        true
    }

    open spec fn paints(
        &self,
        width: u16,
        height: u16,
        stroke_color: Color,
        fill_color: Color,
    ) -> Seq<CellPaint> {
        seq![CellPaint { x: self.0 as int, y: self.1 as int, color: stroke_color }]
    }

    fn reads_canvas_size(&self) -> (reads: bool)
        ensures
            !reads,
    {
        false
    }

    fn draw(&self, width: u16, height: u16, stroke_color: Color, fill_color: Color) -> (r: Result<
        Vec<Paint>,
        InvalidShapeError,
    >) {
        let mut out: Vec<Paint> = Vec::new();
        assert(out.deep_view() =~= Seq::<CellPaint>::empty());
        push_paint(&mut out, self.0 as u32, self.1 as u32, stroke_color);
        assert(out.deep_view() =~= self.paints(width, height, stroke_color, fill_color));
        Ok(out)
    }
}

} // verus!
