//! Circles in the taxicab metric: diamonds.

use crate::canvas::{
    lemma_last_paint_uniform, lemma_paint_all_color, push_paint, Canvas, CellPaint, Paint,
};
use crate::scan::{
    column_of, column_scan, lemma_filter_nothing, lemma_scan_next_column, lemma_scan_offsets,
    lemma_scan_position, lemma_take_next,
};
use crate::shape::{drawn, Drawable, InvalidShapeError};
use crossterm::style::Color;
use vstd::math::abs;
use vstd::prelude::*;

verus! {

/// The cells within `2` steps of the centre (`0`, `1`), where a step leads to
/// the next cell in the same row or the same column.
#[derive(Clone, Copy, Debug, PartialEq, Eq)]
pub struct Circle(pub u16, pub u16, pub u16);

impl Circle {
    /// Whether the cell (`x`, `y`) belongs to the circle.
    pub open spec fn covers(&self, x: int, y: int) -> bool {
        abs(x - self.0) + abs(y - self.1) <= self.2
    }

    /// Whether the cell (`x`, `y`) counts as border: the sum or the
    /// difference of its two offsets from the centre is the radius, up to
    /// sign.
    pub open spec fn on_border(&self, x: int, y: int) -> bool {
        abs((x - self.0) + (y - self.1)) == self.2 || abs((x - self.0) - (y - self.1)) == self.2
    }

    /// The write that the cell (`x`, `y`) receives: the stroke colour on the
    /// border, the fill colour inside.
    pub open spec fn paint_at(
        &self,
        x: int,
        y: int,
        stroke_color: Color,
        fill_color: Color,
    ) -> CellPaint {
        CellPaint {
            x,
            y,
            color: if self.on_border(x, y) {
                stroke_color
            } else {
                fill_color
            },
        }
    }

    /// The side of the square that bounds the circle.
    pub open spec fn side(&self) -> nat {
        (2 * self.2 + 1) as nat
    }

    /// The write for the cell in column `a`, row `b` of the bounding square,
    /// as a function of `a` and `b`.
    pub open spec fn block(&self, stroke_color: Color, fill_color: Color) -> spec_fn(
        int,
        int,
    ) -> CellPaint {
        |a: int, b: int|
            self.paint_at(self.0 + a - self.2, self.1 + b - self.2, stroke_color, fill_color)
    }

    /// Which writes are made: those to cells of the circle that lie on a
    /// canvas `width` columns wide and `height` rows high.
    pub open spec fn kept(&self, width: u16, height: u16) -> spec_fn(CellPaint) -> bool {
        |p: CellPaint| self.covers(p.x, p.y) && 0 <= p.x < width && 0 <= p.y < height
    }

    /// A circle writes the cells that belong to it and lie on the canvas,
    /// and no others: border cells in the stroke colour, the others in the
    /// fill colour.
    pub proof fn lemma_paints(
        &self,
        width: u16,
        height: u16,
        stroke_color: Color,
        fill_color: Color,
    )
        ensures
            forall|i: int|
                0 <= i < self.paints(width, height, stroke_color, fill_color).len() ==> {
                    let p = #[trigger] self.paints(width, height, stroke_color, fill_color)[i];
                    &&& self.covers(p.x, p.y)
                    &&& 0 <= p.x < width
                    &&& 0 <= p.y < height
                    &&& p == self.paint_at(p.x, p.y, stroke_color, fill_color)
                },
            forall|x: int, y: int|
                self.covers(x, y) && 0 <= x < width && 0 <= y < height ==> self.paints(
                    width,
                    height,
                    stroke_color,
                    fill_color,
                ).contains(#[trigger] self.paint_at(x, y, stroke_color, fill_color)),
    {
        let square = column_scan(self.side(), self.side(), self.block(stroke_color, fill_color));
        let keep = self.kept(width, height);
        let paints = self.paints(width, height, stroke_color, fill_color);
        assert forall|i: int| 0 <= i < paints.len() implies {
            let p = #[trigger] paints[i];
            &&& self.covers(p.x, p.y)
            &&& 0 <= p.x < width
            &&& 0 <= p.y < height
            &&& p == self.paint_at(p.x, p.y, stroke_color, fill_color)
        } by {
            square.lemma_filter_pred(keep, i);
            assert(paints.contains(paints[i]));
            square.lemma_filter_contains_rev(keep, paints[i]);
            let j = choose|j: int| 0 <= j < square.len() && square[j] == paints[i];
            lemma_scan_offsets(self.side(), self.side(), j);
        }
        assert forall|x: int, y: int|
            self.covers(x, y) && 0 <= x < width && 0 <= y < height implies paints.contains(
            #[trigger] self.paint_at(x, y, stroke_color, fill_color),
        ) by {
            let a = x - self.0 + self.2;
            let b = y - self.1 + self.2;
            lemma_scan_position(self.side(), self.side(), a, b);
            let j = a * self.side() + b;
            assert(square[j] == self.paint_at(x, y, stroke_color, fill_color));
            square.lemma_filter_contains(keep, j);
        }
    }

    /// After a circle is drawn, each of its cells that lies on the canvas has
    /// the stroke colour if it is on the border and the fill colour if it is
    /// not; every other cell is untouched.
    pub proof fn lemma_drawn(
        &self,
        canvas: Canvas,
        stroke_color: Color,
        fill_color: Color,
        x: int,
        y: int,
    )
        ensures
            drawn(canvas, self, stroke_color, fill_color).color_at(x, y) == if self.covers(x, y)
                && canvas.holds(x, y) {
                Some(self.paint_at(x, y, stroke_color, fill_color).color)
            } else {
                canvas.color_at(x, y)
            },
    {
        let paints = self.paints(canvas.width, canvas.height, stroke_color, fill_color);
        let here = self.paint_at(x, y, stroke_color, fill_color);
        self.lemma_paints(canvas.width, canvas.height, stroke_color, fill_color);
        lemma_last_paint_uniform(paints, x, y, here.color);
        lemma_paint_all_color(canvas, paints, x, y);
        if self.covers(x, y) && canvas.holds(x, y) {
            assert(paints.contains(here));
            let i = choose|i: int| 0 <= i < paints.len() && paints[i] == here;
            assert(paints[i].at(x, y));
        }
    }
}

impl Drawable for Circle {
    open spec fn drawable(&self) -> bool {
        true
    }

    open spec fn paints(
        &self,
        width: u16,
        height: u16,
        stroke_color: Color,
        fill_color: Color,
    ) -> Seq<CellPaint> {
        column_scan(self.side(), self.side(), self.block(stroke_color, fill_color)).filter(
            self.kept(width, height),
        )
    }

    fn reads_canvas_size(&self) -> (reads: bool)
        ensures
            reads,
    {
        true
    }

    fn draw(&self, width: u16, height: u16, stroke_color: Color, fill_color: Color) -> (r: Result<
        Vec<Paint>,
        InvalidShapeError,
    >) {
        let ghost cell = self.block(stroke_color, fill_color);
        let ghost keep = self.kept(width, height);
        let ghost side = self.side();
        let r: i32 = self.2 as i32;
        let mut out: Vec<Paint> = Vec::new();
        let mut x_offset: i32 = -r;
        proof {
            lemma_filter_nothing(column_scan(0, side, cell), keep);
            assert(out.deep_view() =~= Seq::<CellPaint>::empty());
        }
        while x_offset <= r
            invariant
                r == self.2,
                side == self.side(),
                cell == self.block(stroke_color, fill_color),
                keep == self.kept(width, height),
                -r <= x_offset <= r + 1,
                out.deep_view() == column_scan((x_offset + r) as nat, side, cell).filter(keep),
            decreases r + 1 - x_offset,
        {
            let ghost done = out.deep_view();
            let ghost column = column_of(x_offset + r, side, cell);
            let reach: i32 = if x_offset < 0 {
                r + x_offset
            } else {
                r - x_offset
            };
            let mut y_offset: i32 = -reach;
            proof {
                lemma_filter_nothing(column.take(y_offset + r), keep);
                assert(out.deep_view() =~= done + column.take(y_offset + r).filter(keep));
            }
            while y_offset <= reach
                invariant
                    r == self.2,
                    side == self.side(),
                    cell == self.block(stroke_color, fill_color),
                    keep == self.kept(width, height),
                    -r <= x_offset <= r,
                    reach == r - abs(x_offset as int),
                    column == column_of(x_offset + r, side, cell),
                    -reach <= y_offset <= reach + 1,
                    out.deep_view() == done + column.take(y_offset + r).filter(keep),
                decreases reach + 1 - y_offset,
            {
                let x: i32 = self.0 as i32 + x_offset;
                let y: i32 = self.1 as i32 + y_offset;
                if 0 <= x && x < width as i32 && 0 <= y && y < height as i32 {
                    let sum: i32 = x_offset + y_offset;
                    let difference: i32 = x_offset - y_offset;
                    if sum == r || sum == -r || difference == r || difference == -r {
                        push_paint(&mut out, x as u32, y as u32, stroke_color);
                    } else {
                        push_paint(&mut out, x as u32, y as u32, fill_color);
                    }
                }
                proof {
                    let n: int = y_offset + r;
                    lemma_take_next(column, n);
                    column.take(n).lemma_filter_push(column[n], keep);
                    assert(out.deep_view() =~= done + column.take(n + 1).filter(keep));
                }
                y_offset += 1;
            }
            proof {
                let n: int = reach + 1 + r;
                assert(column =~= column.take(n) + column.skip(n));
                Seq::filter_distributes_over_add(column.take(n), column.skip(n), keep);
                lemma_filter_nothing(column.skip(n), keep);
                assert(out.deep_view() =~= done + column.filter(keep));
                lemma_scan_next_column((x_offset + r) as nat, side, cell);
                Seq::filter_distributes_over_add(
                    column_scan((x_offset + r) as nat, side, cell),
                    column,
                    keep,
                );
            }
            x_offset += 1;
        }
        Ok(out)
    }
}

} // verus!
