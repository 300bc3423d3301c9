//! Line segments.

use crate::canvas::{
    lemma_last_paint_uniform, lemma_paint_all_color, push_paint, Canvas, CellPaint, Paint,
};
use crate::scan::lemma_take_next;
use crate::shape::{drawn, Drawable, InvalidShapeError};
use crossterm::style::Color;
use vstd::prelude::*;

verus! {

/// A segment from (`0`, `1`) to (`2`, `3`).
#[derive(Clone, Copy, Debug, PartialEq, Eq)]
pub struct Line(pub u16, pub u16, pub u16, pub u16);

/// The quotient of `a` by `b`, rounded toward zero.
pub open spec fn quotient_toward_zero(a: int, b: int) -> int {
    if b > 0 {
        if a >= 0 {
            a / b
        } else {
            -((-a) / b)
        }
    } else {
        if a >= 0 {
            -(a / (-b))
        } else {
            (-a) / (-b)
        }
    }
}

impl Line {
    /// Whether the segment is vertical: both ends in one column.
    pub open spec fn vertical(&self) -> bool {
        self.0 == self.2
    }

    /// Whether the segment is horizontal without being vertical.
    pub open spec fn horizontal(&self) -> bool {
        self.0 != self.2 && self.1 == self.3
    }

    /// The whole number of columns by which a sloped segment moves from one
    /// row to the next.
    pub open spec fn step(&self) -> int {
        quotient_toward_zero(self.2 - self.0, self.3 - self.1)
    }

    /// How many cells the segment paints.
    ///
    /// A vertical or horizontal segment stops short of its second end; a
    /// sloped one paints one cell in each row from the first end to the
    /// second. A segment whose second end lies before the first paints
    /// nothing.
    pub open spec fn run(&self) -> nat {
        if self.vertical() {
            if self.3 >= self.1 {
                (self.3 - self.1) as nat
            } else {
                0
            }
        } else if self.horizontal() {
            if self.2 >= self.0 {
                (self.2 - self.0) as nat
            } else {
                0
            }
        } else {
            if self.3 >= self.1 {
                (self.3 - self.1 + 1) as nat
            } else {
                0
            }
        }
    }

    /// The column of the `k`-th cell.
    pub open spec fn column(&self, k: int) -> int {
        if self.vertical() {
            self.0 as int
        } else if self.horizontal() {
            self.0 + k
        } else {
            self.0 + self.step() * k
        }
    }

    /// The row of the `k`-th cell.
    pub open spec fn row(&self, k: int) -> int {
        if self.horizontal() {
            self.1 as int
        } else {
            self.1 + k
        }
    }

    /// The cells of the segment in painting order, all in one colour.
    pub open spec fn cells(&self, color: Color) -> Seq<CellPaint> {
        Seq::new(self.run(), |k: int| CellPaint { x: self.column(k), y: self.row(k), color })
    }

    /// Whether the segment paints the cell (`x`, `y`).
    pub open spec fn covers(&self, x: int, y: int) -> bool {
        if self.vertical() {
            x == self.0 && self.1 <= y < self.3
        } else if self.horizontal() {
            y == self.1 && self.0 <= x < self.2
        } else {
            self.1 <= y <= self.3 && x == self.0 + self.step() * (y - self.1)
        }
    }

    /// The place in painting order of the cell (`x`, `y`).
    pub open spec fn turn(&self, x: int, y: int) -> int {
        if self.horizontal() {
            x - self.0
        } else {
            y - self.1
        }
    }

    /// A segment writes each of its cells once, and no other cell, all in
    /// the one colour.
    pub proof fn lemma_cells(&self, color: Color)
        ensures
            self.cells(color).len() == self.run(),
            forall|k: int|
                0 <= k < self.run() ==> {
                    let p = #[trigger] self.cells(color)[k];
                    &&& p.color == color
                    &&& self.covers(p.x, p.y)
                    &&& k == self.turn(p.x, p.y)
                },
            forall|x: int, y: int| #[trigger]
                self.covers(x, y) ==> 0 <= self.turn(x, y) < self.run() && self.cells(
                    color,
                )[self.turn(x, y)] == (CellPaint { x, y, color }),
    {
    }

    /// After a segment is drawn, each of its cells that lies on the canvas
    /// has the stroke colour; every other cell is untouched.
    pub proof fn lemma_drawn(
        &self,
        canvas: Canvas,
        stroke_color: Color,
        fill_color: Color,
        x: int,
        y: int,
    )
        ensures
            drawn(canvas, self, stroke_color, fill_color).color_at(x, y) == if self.covers(x, y)
                && canvas.holds(x, y) {
                Some(stroke_color)
            } else {
                canvas.color_at(x, y)
            },
    {
        let paints = self.cells(stroke_color);
        self.lemma_cells(stroke_color);
        lemma_last_paint_uniform(paints, x, y, stroke_color);
        lemma_paint_all_color(canvas, paints, x, y);
        if self.covers(x, y) {
            assert(paints[self.turn(x, y)].at(x, y));
        }
    }

    /// Every cell of a segment lies in the box spanned by its two ends.
    pub proof fn lemma_cells_between_ends(&self, k: int)
        requires
            0 <= k < self.run(),
        ensures
            self.0 <= self.column(k) <= self.2 || self.2 <= self.column(k) <= self.0,
            self.1 <= self.row(k) <= self.3,
    {
        if !self.vertical() && !self.horizontal() {
            let dx: int = self.2 - self.0;
            let dy: int = self.3 - self.1;
            if dx >= 0 {
                lemma_scaled_quotient(dx, dy, k);
            } else {
                lemma_scaled_quotient(-dx, dy, k);
                assert(self.step() * k == -(((-dx) / dy) * k)) by (nonlinear_arith)
                    requires
                        self.step() == -((-dx) / dy),
                ;
            }
        }
    }

    /// Appends the cells of the segment to `out`.
    pub(crate) fn draw_onto(&self, out: &mut Vec<Paint>, color: Color)
        ensures
            final(out).deep_view() == old(out).deep_view() + self.cells(color),
    {
        let ghost before = out.deep_view();
        let ghost cells = self.cells(color);
        assert(out.deep_view() =~= before + cells.take(0));
        if self.0 == self.2 {
            let mut y: u16 = self.1;
            while y < self.3
                invariant
                    self.vertical(),
                    cells == self.cells(color),
                    0 <= y - self.1 <= self.run(),
                    out.deep_view() == before + cells.take(y - self.1),
                decreases self.3 - y,
            {
                push_paint(out, self.0 as u32, y as u32, color);
                proof {
                    lemma_take_next(cells, y - self.1);
                }
                y += 1;
            }
        } else if self.1 == self.3 {
            let mut x: u16 = self.0;
            while x < self.2
                invariant
                    self.horizontal(),
                    cells == self.cells(color),
                    0 <= x - self.0 <= self.run(),
                    out.deep_view() == before + cells.take(x - self.0),
                decreases self.2 - x,
            {
                push_paint(out, x as u32, self.1 as u32, color);
                proof {
                    lemma_take_next(cells, x - self.0);
                }
                x += 1;
            }
        } else {
            let y_delta: i32 = self.3 as i32 - self.1 as i32;
            if y_delta > 0 {
                let x_chunks: i32 = (self.2 as i32 - self.0 as i32) / y_delta;
                let mut y_offset: i32 = 0;
                while y_offset <= y_delta
                    invariant
                        !self.vertical(),
                        !self.horizontal(),
                        cells == self.cells(color),
                        y_delta == self.3 - self.1,
                        x_chunks == self.step(),
                        0 <= y_offset <= self.run(),
                        out.deep_view() == before + cells.take(y_offset as int),
                    decreases y_delta + 1 - y_offset,
                {
                    proof {
                        self.lemma_cells_between_ends(y_offset as int);
                        lemma_take_next(cells, y_offset as int);
                    }
                    let x: i32 = self.0 as i32 + x_chunks * y_offset;
                    let y: i32 = self.1 as i32 + y_offset;
                    push_paint(out, x as u32, y as u32, color);
                    y_offset += 1;
                }
            }
        }
        assert(out.deep_view() =~= before + cells.take(self.run() as int));
        assert(cells.take(self.run() as int) =~= cells);
    }
}

/// For `0 <= k <= d`, `k` times the quotient of `a` by `d` lies between zero
/// and `a`.
proof fn lemma_scaled_quotient(a: int, d: int, k: int)
    by (nonlinear_arith)
    requires
        a >= 0,
        d > 0,
        0 <= k <= d,
    ensures
        0 <= (a / d) * k <= a,
{
    assert((a / d) * d <= a);
    assert((a / d) * k <= (a / d) * d);
}

impl Drawable for Line {
    open spec fn drawable(&self) -> bool {
        true
    }

    open spec fn paints(
        &self,
        width: u16,
        height: u16,
        stroke_color: Color,
        fill_color: Color,
    ) -> Seq<CellPaint> {
        self.cells(stroke_color)
    }

    fn reads_canvas_size(&self) -> (reads: bool)
        ensures
            !reads,
    {
        false
    }

    fn draw(&self, width: u16, height: u16, stroke_color: Color, fill_color: Color) -> (r: Result<
        Vec<Paint>,
        InvalidShapeError,
    >) {
        let mut out: Vec<Paint> = Vec::new();
        self.draw_onto(&mut out, stroke_color);
        Ok(out)
    }
}

} // verus!
