//! The backdrop of a canvas.

use crate::canvas::{
    lemma_last_paint_uniform, lemma_paint_all_color, push_paint, Canvas, CellPaint, Paint,
};
use crate::scan::{
    column_of, column_scan, lemma_scan_next_column, lemma_scan_offsets, lemma_scan_position,
    lemma_take_next,
};
use crate::shape::{drawn, Drawable, InvalidShapeError};
use crossterm::style::Color;
use vstd::prelude::*;

verus! {

/// The whole canvas but for its last column and its last row.
#[derive(Clone, Copy, Debug, PartialEq, Eq)]
pub struct Background;

impl Background {
    /// How many columns, or rows, are painted of `extent`: all but the last.
    pub open spec fn span(extent: u16) -> nat {
        if extent > 0 {
            (extent - 1) as nat
        } else {
            0
        }
    }

    /// The write for the cell in column `a`, row `b`.
    pub open spec fn cell_at(color: Color) -> spec_fn(int, int) -> CellPaint {
        |a: int, b: int| CellPaint { x: a, y: b, color }
    }

    /// Whether the backdrop of a canvas `width` columns wide and `height`
    /// rows high paints the cell (`x`, `y`): it does unless the cell lies in
    /// the last column or the last row, or off the canvas.
    pub open spec fn covers(width: u16, height: u16, x: int, y: int) -> bool {
        0 <= x < width - 1 && 0 <= y < height - 1
    }

    /// The place in painting order of the cell (`x`, `y`).
    pub open spec fn turn(height: u16, x: int, y: int) -> int {
        x * Self::span(height) + y
    }

    /// The backdrop writes each cell it covers once, and no other cell, all
    /// in the stroke colour.
    pub proof fn lemma_paints(
        &self,
        width: u16,
        height: u16,
        stroke_color: Color,
        fill_color: Color,
    )
        ensures
            self.paints(width, height, stroke_color, fill_color).len() == Self::span(width)
                * Self::span(height),
            forall|i: int|
                0 <= i < self.paints(width, height, stroke_color, fill_color).len() ==> {
                    let p = #[trigger] self.paints(width, height, stroke_color, fill_color)[i];
                    &&& p.color == stroke_color
                    &&& Self::covers(width, height, p.x, p.y)
                    &&& i == Self::turn(height, p.x, p.y)
                },
            forall|x: int, y: int| #[trigger]
                Self::covers(width, height, x, y) ==> 0 <= Self::turn(height, x, y) < self.paints(
                    width,
                    height,
                    stroke_color,
                    fill_color,
                ).len() && self.paints(width, height, stroke_color, fill_color)[Self::turn(
                    height,
                    x,
                    y,
                )] == (CellPaint { x, y, color: stroke_color }),
    {
        let paints = self.paints(width, height, stroke_color, fill_color);
        assert forall|i: int| 0 <= i < paints.len() implies {
            let p = #[trigger] paints[i];
            &&& p.color == stroke_color
            &&& Self::covers(width, height, p.x, p.y)
            &&& i == Self::turn(height, p.x, p.y)
        } by {
            lemma_scan_offsets(Self::span(width), Self::span(height), i);
        }
        assert forall|x: int, y: int| #[trigger]
            Self::covers(width, height, x, y) implies 0 <= Self::turn(height, x, y) < paints.len()
            && paints[Self::turn(height, x, y)] == (CellPaint { x, y, color: stroke_color }) by {
            lemma_scan_position(Self::span(width), Self::span(height), x, y);
        }
    }

    /// After the backdrop is drawn, every cell of the canvas but those of
    /// the last column and the last row has the stroke colour; every other
    /// cell is untouched.
    pub proof fn lemma_drawn(
        &self,
        canvas: Canvas,
        stroke_color: Color,
        fill_color: Color,
        x: int,
        y: int,
    )
        ensures
            drawn(canvas, self, stroke_color, fill_color).color_at(x, y) == if Self::covers(
                canvas.width,
                canvas.height,
                x,
                y,
            ) {
                Some(stroke_color)
            } else {
                canvas.color_at(x, y)
            },
    {
        let paints = self.paints(canvas.width, canvas.height, stroke_color, fill_color);
        self.lemma_paints(canvas.width, canvas.height, stroke_color, fill_color);
        lemma_last_paint_uniform(paints, x, y, stroke_color);
        lemma_paint_all_color(canvas, paints, x, y);
        if Self::covers(canvas.width, canvas.height, x, y) {
            assert(paints[Self::turn(canvas.height, x, y)].at(x, y));
        }
    }
}

impl Drawable for Background {
    open spec fn drawable(&self) -> bool {
        true
    }

    open spec fn paints(
        &self,
        width: u16,
        height: u16,
        stroke_color: Color,
        fill_color: Color,
    ) -> Seq<CellPaint> {
        column_scan(Self::span(width), Self::span(height), Self::cell_at(stroke_color))
    }

    fn reads_canvas_size(&self) -> (reads: bool)
        ensures
            reads,
    {
        true
    }

    fn draw(&self, width: u16, height: u16, stroke_color: Color, fill_color: Color) -> (r: Result<
        Vec<Paint>,
        InvalidShapeError,
    >) {
        let ghost cell = Self::cell_at(stroke_color);
        let columns: u16 = if width > 0 {
            width - 1
        } else {
            0
        };
        let rows: u16 = if height > 0 {
            height - 1
        } else {
            0
        };
        let mut out: Vec<Paint> = Vec::new();
        let mut x: u16 = 0;
        assert(out.deep_view() =~= column_scan(0, rows as nat, cell));
        while x < columns
            invariant
                x <= columns,
                cell == Self::cell_at(stroke_color),
                out.deep_view() == column_scan(x as nat, rows as nat, cell),
            decreases columns - x,
        {
            let ghost done = out.deep_view();
            let ghost column = column_of(x as int, rows as nat, cell);
            let mut y: u16 = 0;
            assert(out.deep_view() =~= done + column.take(0));
            while y < rows
                invariant
                    y <= rows,
                    cell == Self::cell_at(stroke_color),
                    column == column_of(x as int, rows as nat, cell),
                    out.deep_view() == done + column.take(y as int),
                decreases rows - y,
            {
                push_paint(&mut out, x as u32, y as u32, stroke_color);
                proof {
                    lemma_take_next(column, y as int);
                }
                y += 1;
            }
            proof {
                assert(column.take(rows as int) =~= column);
                lemma_scan_next_column(x as nat, rows as nat, cell);
            }
            x += 1;
        }
        Ok(out)
    }
}

} // verus!
