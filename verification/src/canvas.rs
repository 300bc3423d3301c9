//! Cells, cell writes and the mathematical model of a canvas.

use crossterm::style::Color;
use vstd::prelude::*;

verus! {

/// Makes `crossterm::style::Color` known to the verifier as an opaque type.
/// Nothing is claimed of what a colour holds: a shape never looks inside
/// one, it only hands it on to the cells it paints.
#[verifier::external_type_specification]
#[verifier::external_body]
pub struct ExColor(crossterm::style::Color);

/// The model of one cell write: a cell and the colour it receives.
pub struct CellPaint {
    pub x: int,
    pub y: int,
    pub color: Color,
}

impl CellPaint {
    /// Whether the write goes to the cell (`x`, `y`).
    pub open spec fn at(self, x: int, y: int) -> bool {
        self.x == x && self.y == y
    }
}

/// One cell write as a shape emits it: paint cell (`x`, `y`) with `color`.
///
/// The coordinates are wider than a terminal's so that a shape reaching past
/// the last addressable column or row can still name every cell it covers;
/// whoever owns the terminal clips.
#[derive(Clone, Copy, Debug, PartialEq, Eq)]
pub struct Paint {
    pub x: u32,
    pub y: u32,
    pub color: Color,
}

impl View for Paint {
    type V = CellPaint;

    open spec fn view(&self) -> CellPaint {
        CellPaint { x: self.x as int, y: self.y as int, color: self.color }
    }
}

impl DeepView for Paint {
    type V = CellPaint;

    open spec fn deep_view(&self) -> CellPaint {
        self@
    }
}

/// The model of a canvas: its size, and the colour of every cell that has
/// been painted.
pub struct Canvas {
    pub width: u16,
    pub height: u16,
    pub colors: Map<(int, int), Color>,
}

impl Canvas {
    /// Whether the cell (`x`, `y`) lies on the canvas.
    pub open spec fn holds(self, x: int, y: int) -> bool {
        0 <= x < self.width && 0 <= y < self.height
    }

    /// The colour of the cell (`x`, `y`), if it has been painted.
    pub open spec fn color_at(self, x: int, y: int) -> Option<Color> {
        if self.colors.contains_key((x, y)) {
            Some(self.colors[(x, y)])
        } else {
            None
        }
    }

    /// The canvas after one write: a write to a cell off the canvas is
    /// skipped.
    pub open spec fn paint(self, p: CellPaint) -> Canvas {
        if self.holds(p.x, p.y) {
            Canvas {
                width: self.width,
                height: self.height,
                colors: self.colors.insert((p.x, p.y), p.color),
            }
        } else {
            self
        }
    }

    /// The canvas after a run of writes, made in order.
    pub open spec fn paint_all(self, paints: Seq<CellPaint>) -> Canvas
        decreases paints.len(),
    {
        if paints.len() == 0 {
            self
        } else {
            self.paint_all(paints.drop_last()).paint(paints.last())
        }
    }
}

/// The colour of the last write in `paints` that goes to the cell
/// (`x`, `y`), if any does.
pub open spec fn last_paint_at(paints: Seq<CellPaint>, x: int, y: int) -> Option<Color>
    decreases paints.len(),
{
    if paints.len() == 0 {
        None
    } else if paints.last().at(x, y) {
        Some(paints.last().color)
    } else {
        last_paint_at(paints.drop_last(), x, y)
    }
}

/// Writes never change the size of a canvas.
pub proof fn lemma_paint_all_keeps_size(canvas: Canvas, paints: Seq<CellPaint>)
    ensures
        canvas.paint_all(paints).width == canvas.width,
        canvas.paint_all(paints).height == canvas.height,
    decreases paints.len(),
{
    if paints.len() > 0 {
        lemma_paint_all_keeps_size(canvas, paints.drop_last());
    }
}

/// Last write wins: after a run of writes a cell on the canvas has the
/// colour of the last write that went to it, and every other cell is as it
/// was.
pub proof fn lemma_paint_all_color(canvas: Canvas, paints: Seq<CellPaint>, x: int, y: int)
    ensures
        canvas.paint_all(paints).color_at(x, y) == if canvas.holds(x, y) && last_paint_at(
            paints,
            x,
            y,
        ) is Some {
            last_paint_at(paints, x, y)
        } else {
            canvas.color_at(x, y)
        },
    decreases paints.len(),
{
    if paints.len() > 0 {
        lemma_paint_all_color(canvas, paints.drop_last(), x, y);
        lemma_paint_all_keeps_size(canvas, paints.drop_last());
    }
}

/// Where every write to the cell (`x`, `y`) carries the same colour, that
/// colour is the last one written there, provided the cell is written at all.
pub proof fn lemma_last_paint_uniform(paints: Seq<CellPaint>, x: int, y: int, color: Color)
    requires
        forall|i: int|
            0 <= i < paints.len() && (#[trigger] paints[i]).at(x, y) ==> paints[i].color == color,
    ensures
        last_paint_at(paints, x, y) == if exists|i: int|
            0 <= i < paints.len() && (#[trigger] paints[i]).at(x, y) {
            Some(color)
        } else {
            None
        },
    decreases paints.len(),
{
    if paints.len() > 0 {
        let front = paints.drop_last();
        assert forall|i: int|
            0 <= i < front.len() && (#[trigger] front[i]).at(x, y) implies front[i].color
            == color by {
            assert(front[i] == paints[i]);
        }
        lemma_last_paint_uniform(front, x, y, color);
        if paints.last().at(x, y) {
            assert(paints[paints.len() - 1].at(x, y));
        } else if exists|i: int| 0 <= i < paints.len() && (#[trigger] paints[i]).at(x, y) {
            let i = choose|i: int| 0 <= i < paints.len() && (#[trigger] paints[i]).at(x, y);
            assert(front[i].at(x, y));
        } else {
            assert forall|i: int| 0 <= i < front.len() implies !(#[trigger] front[i]).at(x, y) by {
                assert(front[i] == paints[i]);
            }
        }
    }
}

/// Making the same run of writes a second time changes nothing.
pub proof fn lemma_paint_all_twice(canvas: Canvas, paints: Seq<CellPaint>)
    ensures
        canvas.paint_all(paints).paint_all(paints) == canvas.paint_all(paints),
{
    let once = canvas.paint_all(paints);
    let twice = once.paint_all(paints);
    lemma_paint_all_keeps_size(canvas, paints);
    lemma_paint_all_keeps_size(once, paints);
    assert forall|cell: (int, int)|
        #![trigger twice.colors.dom().contains(cell)]
        #![trigger once.colors.dom().contains(cell)]
        twice.colors.dom().contains(cell) == once.colors.dom().contains(cell) && (
        once.colors.dom().contains(cell) ==> twice.colors[cell] == once.colors[cell]) by {
        lemma_paint_all_color(canvas, paints, cell.0, cell.1);
        lemma_paint_all_color(once, paints, cell.0, cell.1);
    }
    assert(twice.colors =~= once.colors);
}

/// Appends one cell write to `out`.
pub(crate) fn push_paint(out: &mut Vec<Paint>, x: u32, y: u32, color: Color)
    ensures
        final(out).deep_view() == old(out).deep_view().push(
            CellPaint { x: x as int, y: y as int, color },
        ),
{
    out.push(Paint { x, y, color });
    assert(out.deep_view() =~= old(out).deep_view().push(
        CellPaint { x: x as int, y: y as int, color },
    ));
}

} // verus!
