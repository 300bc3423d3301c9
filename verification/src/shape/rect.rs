//! Axis-aligned rectangles and squares.

use crate::canvas::{
    lemma_last_paint_uniform, lemma_paint_all_color, push_paint, Canvas, CellPaint, Paint,
};
use crate::scan::{
    column_of, column_scan, lemma_scan_next_column, lemma_scan_offsets, lemma_scan_position,
    lemma_take_next,
};
use crate::shape::{drawn, Drawable, InvalidShapeError};
use crossterm::style::Color;
use vstd::prelude::*;

verus! {

/// A rectangle anchored at (`0`, `1`), `2` columns wide and `3` rows high.
#[derive(Clone, Copy, Debug, PartialEq, Eq)]
pub struct Rect(pub u16, pub u16, pub u16, pub u16);

impl Rect {
    /// The square anchored at (`x`, `y`) with sides of `side` cells.
    pub open spec fn spec_square(x: u16, y: u16, side: u16) -> Rect {
        Rect(x, y, side, side)
    }

    /// The square anchored at (`x`, `y`) with sides of `side` cells.
    #[verifier::when_used_as_spec(spec_square)]
    pub fn square(x: u16, y: u16, side: u16) -> (r: Rect)
        ensures
            r == Rect(x, y, side, side),
    {
        Rect(x, y, side, side)
    }

    /// Whether the cell (`x`, `y`) belongs to the rectangle.
    pub open spec fn covers(&self, x: int, y: int) -> bool {
        self.0 <= x < self.0 + self.2 && self.1 <= y < self.1 + self.3
    }

    /// Whether the cell (`x`, `y`) lies in the first or last column or row of
    /// the rectangle.
    pub open spec fn on_border(&self, x: int, y: int) -> bool {
        x == self.0 || x == self.0 + self.2 - 1 || y == self.1 || y == self.1 + self.3 - 1
    }

    /// The write that the cell (`x`, `y`) receives: the stroke colour on the
    /// border, the fill colour inside.
    pub open spec fn paint_at(
        &self,
        x: int,
        y: int,
        stroke_color: Color,
        fill_color: Color,
    ) -> CellPaint {
        CellPaint {
            x,
            y,
            color: if self.on_border(x, y) {
                stroke_color
            } else {
                fill_color
            },
        }
    }

    /// The write for the cell `a` columns and `b` rows from the anchor, as a
    /// function of the two offsets.
    pub open spec fn block(&self, stroke_color: Color, fill_color: Color) -> spec_fn(
        int,
        int,
    ) -> CellPaint {
        |a: int, b: int| self.paint_at(self.0 + a, self.1 + b, stroke_color, fill_color)
    }

    /// The place in drawing order of the cell (`x`, `y`): columns come one
    /// after the other, each from its first row down.
    pub open spec fn turn(&self, x: int, y: int) -> int {
        (x - self.0) * self.3 + (y - self.1)
    }

    /// A rectangle writes each of its cells once, and no other cell: as
    /// many writes as width times height, none for a rectangle without width
    /// or height; border cells in the stroke colour, the others in the fill
    /// colour.
    pub proof fn lemma_paints(
        &self,
        width: u16,
        height: u16,
        stroke_color: Color,
        fill_color: Color,
    )
        ensures
            self.paints(width, height, stroke_color, fill_color).len() == self.2 * self.3,
            self.2 == 0 || self.3 == 0 ==> self.paints(width, height, stroke_color, fill_color)
                == Seq::<CellPaint>::empty(),
            forall|i: int|
                0 <= i < self.paints(width, height, stroke_color, fill_color).len() ==> {
                    let p = #[trigger] self.paints(width, height, stroke_color, fill_color)[i];
                    &&& self.covers(p.x, p.y)
                    &&& p == self.paint_at(p.x, p.y, stroke_color, fill_color)
                    &&& i == self.turn(p.x, p.y)
                },
            forall|x: int, y: int|
                self.covers(x, y) ==> 0 <= #[trigger] self.turn(x, y) < self.paints(
                    width,
                    height,
                    stroke_color,
                    fill_color,
                ).len() && self.paints(width, height, stroke_color, fill_color)[self.turn(x, y)]
                    == self.paint_at(x, y, stroke_color, fill_color),
    {
        let paints = self.paints(width, height, stroke_color, fill_color);
        assert forall|i: int| 0 <= i < paints.len() implies {
            let p = #[trigger] paints[i];
            &&& self.covers(p.x, p.y)
            &&& p == self.paint_at(p.x, p.y, stroke_color, fill_color)
            &&& i == self.turn(p.x, p.y)
        } by {
            lemma_scan_offsets(self.2 as nat, self.3 as nat, i);
        }
        assert forall|x: int, y: int| self.covers(x, y) implies 0 <= #[trigger] self.turn(x, y)
            < paints.len() && paints[self.turn(x, y)] == self.paint_at(
            x,
            y,
            stroke_color,
            fill_color,
        ) by {
            lemma_scan_position(self.2 as nat, self.3 as nat, x - self.0, y - self.1);
        }
        if self.2 == 0 || self.3 == 0 {
            assert(self.2 * self.3 == 0) by (nonlinear_arith)
                requires
                    self.2 == 0 || self.3 == 0,
            ;
            assert(paints =~= Seq::<CellPaint>::empty());
        }
    }

    /// After a rectangle is drawn, each of its cells that lies on the canvas
    /// has the stroke colour if it is on the border and the fill colour if it
    /// is not; every other cell is untouched.
    pub proof fn lemma_drawn(
        &self,
        canvas: Canvas,
        stroke_color: Color,
        fill_color: Color,
        x: int,
        y: int,
    )
        ensures
            drawn(canvas, self, stroke_color, fill_color).color_at(x, y) == if self.covers(x, y)
                && canvas.holds(x, y) {
                Some(self.paint_at(x, y, stroke_color, fill_color).color)
            } else {
                canvas.color_at(x, y)
            },
    {
        let paints = self.paints(canvas.width, canvas.height, stroke_color, fill_color);
        let color = self.paint_at(x, y, stroke_color, fill_color).color;
        self.lemma_paints(canvas.width, canvas.height, stroke_color, fill_color);
        lemma_last_paint_uniform(paints, x, y, color);
        lemma_paint_all_color(canvas, paints, x, y);
        if self.covers(x, y) {
            let i = self.turn(x, y);
            assert(paints[i] == self.paint_at(x, y, stroke_color, fill_color));
            assert(paints[i].at(x, y));
        }
    }

    /// A square is drawn as the rectangle of equal width and height.
    pub proof fn lemma_square_is_rect(
        x: u16,
        y: u16,
        side: u16,
        width: u16,
        height: u16,
        stroke_color: Color,
        fill_color: Color,
    )
        ensures
            Rect::square(x, y, side).paints(width, height, stroke_color, fill_color) == Rect(
                x,
                y,
                side,
                side,
            ).paints(width, height, stroke_color, fill_color),
    {
    }
}

impl Drawable for Rect {
    open spec fn drawable(&self) -> bool {
        true
    }

    open spec fn paints(
        &self,
        width: u16,
        height: u16,
        stroke_color: Color,
        fill_color: Color,
    ) -> Seq<CellPaint> {
        column_scan(self.2 as nat, self.3 as nat, self.block(stroke_color, fill_color))
    }

    fn reads_canvas_size(&self) -> (reads: bool)
        ensures
            !reads,
    {
        false
    }

    fn draw(&self, width: u16, height: u16, stroke_color: Color, fill_color: Color) -> (r: Result<
        Vec<Paint>,
        InvalidShapeError,
    >) {
        let ghost cell = self.block(stroke_color, fill_color);
        let ghost rows = self.3 as nat;
        let mut out: Vec<Paint> = Vec::new();
        let mut x_offset: u16 = 0;
        assert(out.deep_view() =~= column_scan(0, rows, cell));
        while x_offset < self.2
            invariant
                x_offset <= self.2,
                rows == self.3,
                cell == self.block(stroke_color, fill_color),
                out.deep_view() == column_scan(x_offset as nat, rows, cell),
            decreases self.2 - x_offset,
        {
            let ghost done = out.deep_view();
            let ghost column = column_of(x_offset as int, rows, cell);
            let mut y_offset: u16 = 0;
            assert(out.deep_view() =~= done + column.take(0));
            while y_offset < self.3
                invariant
                    x_offset < self.2,
                    y_offset <= self.3,
                    rows == self.3,
                    cell == self.block(stroke_color, fill_color),
                    column == column_of(x_offset as int, rows, cell),
                    out.deep_view() == done + column.take(y_offset as int),
                decreases self.3 - y_offset,
            {
                let x: u32 = self.0 as u32 + x_offset as u32;
                let y: u32 = self.1 as u32 + y_offset as u32;
                if x_offset == 0 || x_offset == self.2 - 1 || y_offset == 0 || y_offset == self.3
                    - 1 {
                    push_paint(&mut out, x, y, stroke_color);
                } else {
                    push_paint(&mut out, x, y, fill_color);
                }
                proof {
                    lemma_take_next(column, y_offset as int);
                }
                y_offset += 1;
            }
            proof {
                assert(column.take(rows as int) =~= column);
                lemma_scan_next_column(x_offset as nat, rows, cell);
            }
            x_offset += 1;
        }
        Ok(out)
    }
}

} // verus!
