//! Chains of vertices joined by line segments.

use crate::canvas::{
    lemma_last_paint_uniform, lemma_paint_all_color, Canvas, CellPaint, Paint,
};
use crate::scan::lemma_take_next;
use crate::shape::line::Line;
use crate::shape::point::Point;
use crate::shape::{drawn, Drawable, InvalidShapeError};
use crossterm::style::Color;
use vstd::prelude::*;

verus! {

/// The vertices `0`, each joined to the next by a line segment; where `1` is
/// set, the last vertex is joined to the first as well.
#[derive(Clone, Debug)]
pub struct CustomShape(pub Vec<Point>, pub bool);

/// The cells of a run of segments, one segment after the other.
pub open spec fn chain(edges: Seq<Line>, color: Color) -> Seq<CellPaint> {
    edges.map_values(|edge: Line| edge.cells(color)).flatten()
}

/// A run of segments with one more segment at its end writes what the run
/// writes, and then the cells of that segment.
pub proof fn lemma_chain_push(edges: Seq<Line>, edge: Line, color: Color)
    ensures
        chain(edges.push(edge), color) == chain(edges, color) + edge.cells(color),
{
    let cells = |edge: Line| edge.cells(color);
    assert(edges.push(edge).map_values(cells) =~= edges.map_values(cells).push(edge.cells(color)));
    edges.map_values(cells).lemma_flatten_push(edge.cells(color));
}

/// A run of segments writes the cells of each of its segments, and no other
/// cell, all in the one colour.
pub proof fn lemma_chain(edges: Seq<Line>, color: Color)
    ensures
        forall|n: int|
            0 <= n < chain(edges, color).len() ==> {
                let p = #[trigger] chain(edges, color)[n];
                &&& p.color == color
                &&& exists|e: int| 0 <= e < edges.len() && #[trigger] edges[e].covers(p.x, p.y)
            },
        forall|e: int, x: int, y: int|
            0 <= e < edges.len() && #[trigger] edges[e].covers(x, y) ==> exists|n: int|
                0 <= n < chain(edges, color).len() && (#[trigger] chain(edges, color)[n]).at(x, y),
    decreases edges.len(),
{
    if edges.len() == 0 {
        assert(edges.map_values(|edge: Line| edge.cells(color)) =~= Seq::<
            Seq<CellPaint>,
        >::empty());
    } else {
        let front = edges.drop_last();
        let last = edges.last();
        let before = chain(front, color);
        let whole = chain(edges, color);
        lemma_chain(front, color);
        last.lemma_cells(color);
        assert(edges =~= front.push(last));
        lemma_chain_push(front, last, color);
        assert forall|n: int| 0 <= n < whole.len() implies {
            let p = #[trigger] whole[n];
            &&& p.color == color
            &&& exists|e: int| 0 <= e < edges.len() && #[trigger] edges[e].covers(p.x, p.y)
        } by {
            let p = whole[n];
            if n < before.len() {
                assert(p == before[n]);
                let e = choose|e: int| 0 <= e < front.len() && #[trigger] front[e].covers(p.x, p.y);
                assert(edges[e].covers(p.x, p.y));
            } else {
                assert(p == last.cells(color)[n - before.len()]);
                assert(edges[edges.len() - 1].covers(p.x, p.y));
            }
        }
        assert forall|e: int, x: int, y: int|
            0 <= e < edges.len() && #[trigger] edges[e].covers(x, y) implies exists|n: int|
            0 <= n < whole.len() && (#[trigger] whole[n]).at(x, y) by {
            if e < front.len() {
                assert(front[e].covers(x, y));
                let n = choose|n: int| 0 <= n < before.len() && (#[trigger] before[n]).at(x, y);
                assert(whole[n].at(x, y));
            } else {
                let n = before.len() + last.turn(x, y);
                assert(whole[n] == last.cells(color)[last.turn(x, y)]);
                assert(whole[n].at(x, y));
            }
        }
    }
}

impl CustomShape {
    /// The segment from vertex `i` to the vertex after it.
    pub open spec fn side(&self, i: int) -> Line {
        Line(self.0@[i].0, self.0@[i].1, self.0@[i + 1].0, self.0@[i + 1].1)
    }

    /// The segment from the last vertex back to the first.
    pub open spec fn closing_side(&self) -> Line {
        Line(self.0@.last().0, self.0@.last().1, self.0@.first().0, self.0@.first().1)
    }

    /// How many vertices have a vertex after them.
    pub open spec fn joints(&self) -> nat {
        if self.0@.len() > 0 {
            (self.0@.len() - 1) as nat
        } else {
            0
        }
    }

    /// The segments that make up the shape, in drawing order.
    pub open spec fn sides(&self) -> Seq<Line> {
        let open_chain = Seq::new(self.joints(), |i: int| self.side(i));
        if self.1 {
            open_chain.push(self.closing_side())
        } else {
            open_chain
        }
    }

    /// Whether the shape paints the cell (`x`, `y`): one of its segments
    /// does.
    pub open spec fn covers(&self, x: int, y: int) -> bool {
        self.drawable() && exists|e: int|
            0 <= e < self.sides().len() && #[trigger] self.sides()[e].covers(x, y)
    }

    /// Splits the shape into its line segments. A shape of fewer than three
    /// vertices has none.
    pub fn edges(&self) -> (r: Result<Vec<Line>, InvalidShapeError>)
        ensures
            self.0@.len() >= 3 <==> r is Ok,
            r matches Ok(edges) ==> edges@ == self.sides(),
            r matches Err(e) ==> e == InvalidShapeError::NotEnoughVertices,
    {
        let count: usize = self.0.len();
        if count < 3 {
            return Err(InvalidShapeError::NotEnoughVertices);
        }
        let ghost open_chain = Seq::new(self.joints(), |i: int| self.side(i));
        let mut edges: Vec<Line> = Vec::new();
        let mut i: usize = 0;
        while i < count - 1
            invariant
                count == self.0@.len(),
                count >= 3,
                i <= count - 1,
                open_chain == Seq::new(self.joints(), |i: int| self.side(i)),
                edges@ == open_chain.take(i as int),
            decreases count - 1 - i,
        {
            let cur: &Point = &self.0[i];
            let next: &Point = &self.0[i + 1];
            edges.push(Line(cur.0, cur.1, next.0, next.1));
            proof {
                lemma_take_next(open_chain, i as int);
            }
            i += 1;
        }
        assert(open_chain.take(count - 1) =~= open_chain);
        if self.1 {
            let first: &Point = &self.0[0];
            let last: &Point = &self.0[count - 1];
            edges.push(Line(last.0, last.1, first.0, first.1));
        }
        Ok(edges)
    }

    /// After a shape is drawn, each cell of one of its segments that lies on
    /// the canvas has the stroke colour; every other cell is untouched. A
    /// shape that cannot be drawn touches no cell.
    pub proof fn lemma_drawn(
        &self,
        canvas: Canvas,
        stroke_color: Color,
        fill_color: Color,
        x: int,
        y: int,
    )
        ensures
            drawn(canvas, self, stroke_color, fill_color).color_at(x, y) == if self.covers(x, y)
                && canvas.holds(x, y) {
                Some(stroke_color)
            } else {
                canvas.color_at(x, y)
            },
    {
        let paints = self.paints(canvas.width, canvas.height, stroke_color, fill_color);
        if self.drawable() {
            lemma_chain(self.sides(), stroke_color);
        }
        lemma_last_paint_uniform(paints, x, y, stroke_color);
        lemma_paint_all_color(canvas, paints, x, y);
        if self.covers(x, y) {
            let e = choose|e: int|
                0 <= e < self.sides().len() && #[trigger] self.sides()[e].covers(x, y);
            assert(self.sides()[e].covers(x, y));
        }
    }
}

impl Drawable for CustomShape {
    open spec fn drawable(&self) -> bool {
        self.0@.len() >= 3
    }

    open spec fn paints(
        &self,
        width: u16,
        height: u16,
        stroke_color: Color,
        fill_color: Color,
    ) -> Seq<CellPaint> {
        if self.drawable() {
            chain(self.sides(), stroke_color)
        } else {
            Seq::empty()
        }
    }

    fn reads_canvas_size(&self) -> (reads: bool)
        ensures
            !reads,
    {
        false
    }

    fn draw(&self, width: u16, height: u16, stroke_color: Color, fill_color: Color) -> (r: Result<
        Vec<Paint>,
        InvalidShapeError,
    >)
        ensures
            r matches Err(e) ==> e == InvalidShapeError::NotEnoughVertices,
    {
        let edges: Vec<Line> = match self.edges() {
            Ok(edges) => edges,
            Err(e) => {
                return Err(e);
            },
        };
        let mut out: Vec<Paint> = Vec::new();
        let mut i: usize = 0;
        assert(out.deep_view() =~= chain(edges@.take(0), stroke_color));
        while i < edges.len()
            invariant
                i <= edges.len(),
                out.deep_view() == chain(edges@.take(i as int), stroke_color),
            decreases edges.len() - i,
        {
            edges[i].draw_onto(&mut out, stroke_color);
            proof {
                lemma_take_next(edges@, i as int);
                lemma_chain_push(edges@.take(i as int), edges@[i as int], stroke_color);
            }
            i += 1;
        }
        assert(edges@.take(edges.len() as int) =~= edges@);
        Ok(out)
    }
}

} // verus!
