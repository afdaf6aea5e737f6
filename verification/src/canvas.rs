//! A plot-sized grid of cells, recorded as the ordered writes made into it.

use vstd::prelude::*;

verus! {

/// How a written cell is colored, relative to the candle or line being drawn.
#[derive(Debug, Clone, Copy, PartialEq, Eq, Structural)]
pub enum Paint {
    /// The wick color over the plot background; other attributes untouched.
    Wick,
    /// The body color over the plot background; other attributes untouched.
    Body,
    /// The body color over the plot background, with the reverse-video
    /// attribute set (`reversed`) or cleared, so a partial block can light the
    /// top of its cell.
    Segment { reversed: bool },
    /// The plot background on itself with reverse video cleared: an erased cell.
    Blank,
    /// The line color over the plot background, with every other attribute
    /// cleared.
    Line,
    /// An annotation's text color over the plot background, with reverse
    /// video cleared.
    Text,
    /// A value line's own style over the plot background, with reverse video
    /// cleared.
    Rule,
    /// The plot background with reverse video cleared and the foreground
    /// untouched: the blank padding that breaks a line around its label.
    Gap,
}

/// One write: `glyph` painted with `paint` at the plot-relative cell
/// `(col, row)`.
#[derive(Debug, Clone, Copy, PartialEq, Eq, Structural)]
pub struct Mark {
    pub col: u16,
    pub row: u16,
    pub glyph: char,
    pub paint: Paint,
}

/// The last write at `(col, row)` among `marks`, if any.
pub open spec fn last_at(marks: Seq<Mark>, col: int, row: int) -> Option<Mark>
    decreases marks.len(),
{
    if marks.len() == 0 {
        None
    } else if marks.last().col == col && marks.last().row == row {
        Some(marks.last())
    } else {
        last_at(marks.drop_last(), col, row)
    }
}

/// The content of a cell after a drawing step: `new` when the step paints
/// the cell and it lies `inside` the grid, otherwise the `prev` content.
pub open spec fn overlay(
    prev: Option<(char, Paint)>,
    inside: bool,
    new: Option<(char, Paint)>,
) -> Option<(char, Paint)> {
    if inside && new is Some {
        new
    } else {
        prev
    }
}

/// Whether painting with `p` leaves a cell's other attributes, reverse video
/// among them, as they were: the wick and body paints set only the colors.
/// Every other paint sets or clears reverse video itself.
pub open spec fn keeps_attributes(p: Paint) -> bool {
    p == Paint::Wick || p == Paint::Body
}

/// A `width` x `height` grid of plot cells and the writes made into it, in
/// order. A later write to a cell replaces an earlier one, so the content of a
/// cell is its last write.
pub struct Canvas {
    width: u16,
    height: u16,
    marks: Vec<Mark>,
}

impl Canvas {
    /// Columns in the grid.
    pub closed spec fn cols(self) -> nat {
        self.width as nat
    }

    /// Rows in the grid.
    pub closed spec fn rows(self) -> nat {
        self.height as nat
    }

    /// Every write made so far, oldest first.
    pub closed spec fn writes(self) -> Seq<Mark> {
        self.marks@
    }

    /// Whether `(col, row)` is a cell of the grid.
    pub open spec fn contains(self, col: int, row: int) -> bool {
        0 <= col < self.cols() && 0 <= row < self.rows()
    }

    /// The glyph and paint currently at `(col, row)`: its last write, or
    /// `None` when nothing was written there.
    pub open spec fn at(self, col: int, row: int) -> Option<(char, Paint)> {
        match last_at(self.writes(), col, row) {
            Some(m) => Some((m.glyph, m.paint)),
            None => None,
        }
    }

    /// Whether `after` still begins with every write of `self`, in order.
    pub open spec fn grown_into(self, after: Canvas) -> bool {
        &&& self.writes().len() <= after.writes().len()
        &&& forall|i: int| 0 <= i < self.writes().len() ==> #[trigger] after.writes()[i] == self.writes()[i]
    }

    /// Whether `after` is `self` with writes added that all keep attributes.
    pub open spec fn adds_keeping(self, after: Canvas) -> bool {
        &&& self.grown_into(after)
        &&& forall|i: int|
            self.writes().len() <= i < after.writes().len() ==> keeps_attributes(#[trigger] after.writes()[i].paint)
    }

    /// Whether `after` is `self` with writes added that all reset attributes.
    pub open spec fn adds_resetting(self, after: Canvas) -> bool {
        &&& self.grown_into(after)
        &&& forall|i: int|
            self.writes().len() <= i < after.writes().len() ==> !keeps_attributes(#[trigger] after.writes()[i].paint)
    }

    /// Whether `after` is `self` with writes added, every added write that
    /// keeps attributes coming before every added write that resets them. So
    /// no attribute a drawing sets is later patched over by the same drawing,
    /// and a cell whose last write keeps attributes was not reset by it.
    pub open spec fn adds_in_order(self, after: Canvas) -> bool {
        &&& self.grown_into(after)
        &&& forall|i: int, j: int|
            self.writes().len() <= i < j < after.writes().len() && !keeps_attributes(
                #[trigger] after.writes()[i].paint,
            ) ==> !keeps_attributes(#[trigger] after.writes()[j].paint)
    }

    /// Every write lands inside the grid.
    #[verifier::type_invariant]
    closed spec fn in_grid(self) -> bool {
        forall|i: int|
            0 <= i < self.marks@.len() ==> #[trigger] self.marks@[i].col < self.width
                && self.marks@[i].row < self.height
    }

    /// An empty grid of `width` x `height` cells.
    pub fn new(width: u16, height: u16) -> (c: Canvas)
        ensures
            c.cols() == width,
            c.rows() == height,
            c.writes() == Seq::<Mark>::empty(),
    {
        Canvas { width, height, marks: Vec::new() }
    }

    /// Columns in the grid.
    pub fn width(&self) -> (w: u16)
        ensures
            w == self.cols(),
    {
        self.width
    }

    /// Rows in the grid.
    pub fn height(&self) -> (h: u16)
        ensures
            h == self.rows(),
    {
        self.height
    }

    /// The writes made so far, oldest first. Replaying them in order onto a
    /// terminal buffer reproduces the drawing.
    pub fn marks(&self) -> (m: &[Mark])
        ensures
            m@ == self.writes(),
            forall|i: int| 0 <= i < m@.len() ==> self.contains(#[trigger] m@[i].col as int, m@[i].row as int),
    {
        proof {
            use_type_invariant(self);
        }
        self.marks.as_slice()
    }

    /// Writes `glyph` painted with `paint` at `(col, row)`, ignoring a
    /// position outside the grid.
    pub fn put(&mut self, col: u32, row: u32, glyph: char, paint: Paint)
        ensures
            final(self).cols() == old(self).cols(),
            final(self).rows() == old(self).rows(),
            old(self).contains(col as int, row as int) ==> final(self).writes() == old(self).writes().push(
                Mark { col: col as u16, row: row as u16, glyph, paint },
            ),
            !old(self).contains(col as int, row as int) ==> final(self).writes() == old(self).writes(),
            keeps_attributes(paint) ==> old(self).adds_keeping(*final(self)),
            !keeps_attributes(paint) ==> old(self).adds_resetting(*final(self)),
            forall|c: int, r: int|
                #[trigger] final(self).at(c, r) == overlay(
                    old(self).at(c, r),
                    old(self).contains(c, r),
                    if c == col && r == row {
                        Some((glyph, paint))
                    } else {
                        None
                    },
                ),
    {
        proof {
            use_type_invariant(&*self);
        }
        if col < self.width as u32 && row < self.height as u32 {
            let mut marks = Vec::new();
            std::mem::swap(&mut marks, &mut self.marks);
            marks.push(Mark { col: col as u16, row: row as u16, glyph, paint });
            self.marks = marks;
            let ghost m = Mark { col: col as u16, row: row as u16, glyph, paint };
            assert forall|c: int, r: int|
                #[trigger] self.at(c, r) == overlay(
                    old(self).at(c, r),
                    old(self).contains(c, r),
                    if c == col && r == row {
                        Some((glyph, paint))
                    } else {
                        None
                    },
                ) by {
                lemma_put_at(*old(self), *self, m, c, r);
            }
        }
    }
}

/// What a single write does to the grid: the written cell takes the new glyph
/// and paint, and every other cell keeps its content.
pub proof fn lemma_put_at(before: Canvas, after: Canvas, m: Mark, col: int, row: int)
    requires
        after.writes() == before.writes().push(m),
    ensures
        after.at(col, row) == if m.col == col && m.row == row {
            Some((m.glyph, m.paint))
        } else {
            before.at(col, row)
        },
{
    assert(after.writes().drop_last() == before.writes());
}

/// Adding writes that keep attributes, twice, adds writes that keep them.
pub proof fn lemma_keeping_twice(a: Canvas, b: Canvas, c: Canvas)
    requires
        a.adds_keeping(b),
        b.adds_keeping(c),
    ensures
        a.adds_keeping(c),
{
    assert forall|i: int| 0 <= i < a.writes().len() implies #[trigger] c.writes()[i] == a.writes()[i] by {
        assert(c.writes()[i] == b.writes()[i]);
    }
    assert forall|i: int| a.writes().len() <= i < c.writes().len() implies keeps_attributes(
        #[trigger] c.writes()[i].paint,
    ) by {
        if i < b.writes().len() {
            assert(c.writes()[i] == b.writes()[i]);
        }
    }
}

/// Adding writes that reset attributes, twice, adds writes that reset them.
pub proof fn lemma_resetting_twice(a: Canvas, b: Canvas, c: Canvas)
    requires
        a.adds_resetting(b),
        b.adds_resetting(c),
    ensures
        a.adds_resetting(c),
{
    assert forall|i: int| 0 <= i < a.writes().len() implies #[trigger] c.writes()[i] == a.writes()[i] by {
        assert(c.writes()[i] == b.writes()[i]);
    }
    assert forall|i: int| a.writes().len() <= i < c.writes().len() implies !keeps_attributes(
        #[trigger] c.writes()[i].paint,
    ) by {
        if i < b.writes().len() {
            assert(c.writes()[i] == b.writes()[i]);
        }
    }
}

/// Writes that keep attributes followed by writes that reset them are added
/// in order.
pub proof fn lemma_keeping_then_resetting(a: Canvas, b: Canvas, c: Canvas)
    requires
        a.adds_keeping(b),
        b.adds_resetting(c),
    ensures
        a.adds_in_order(c),
{
    assert forall|i: int| 0 <= i < a.writes().len() implies #[trigger] c.writes()[i] == a.writes()[i] by {
        assert(c.writes()[i] == b.writes()[i]);
    }
    assert forall|i: int, j: int|
        a.writes().len() <= i < j < c.writes().len() && !keeps_attributes(#[trigger] c.writes()[i].paint) implies !keeps_attributes(
        #[trigger] c.writes()[j].paint,
    ) by {
        if i < b.writes().len() {
            assert(c.writes()[i] == b.writes()[i]);
        }
        if j < b.writes().len() {
            assert(c.writes()[j] == b.writes()[j]);
            assert(c.writes()[i] == b.writes()[i]);
        }
    }
}

/// Writes that all keep, or all reset, attributes are added in order.
pub proof fn lemma_uniform_in_order(a: Canvas, b: Canvas)
    requires
        a.adds_keeping(b) || a.adds_resetting(b),
    ensures
        a.adds_in_order(b),
{
}

} // verus!
