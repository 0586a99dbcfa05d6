//! The two grids of a growth, each a flat array with one entry per cell, the
//! cell `(x, y)` at position `y * width + x`: the mask of cells that were
//! queued, and the canvas of colours.

use crate::neighbours::in_grid;
use crate::point::Point;
use vstd::prelude::*;

verus! {

/// A colour: red, green, blue.
pub type Rgb = (u8, u8, u8);

/// The position of the cell `(x, y)` in a flat array of rows of `width`.
pub open spec fn cell_index(x: int, y: int, width: int) -> int {
    y * width + x
}

/// The cells of a grid have positions below `width * height`.
pub proof fn lemma_cell_index_bounds(x: int, y: int, width: int, height: int)
    requires
        in_grid(x, y, width, height),
    ensures
        0 <= cell_index(x, y, width) < width * height,
{
    assert(y * width + x < (y + 1) * width) by (nonlinear_arith)
        requires
            0 <= x < width,
    ;
    assert((y + 1) * width <= height * width) by (nonlinear_arith)
        requires
            0 <= y < height,
            0 < width,
    ;
    assert(0 <= y * width) by (nonlinear_arith)
        requires
            0 <= y,
            0 < width,
    ;
    assert(height * width == width * height) by (nonlinear_arith);
}

/// Two cells of a grid at one position are one cell.
pub proof fn lemma_cell_index_injective(x1: int, y1: int, x2: int, y2: int, width: int)
    requires
        0 <= x1 < width,
        0 <= x2 < width,
        cell_index(x1, y1, width) == cell_index(x2, y2, width),
    ensures
        x1 == x2,
        y1 == y2,
{
    if y1 < y2 {
        assert(y1 * width + width <= y2 * width) by (nonlinear_arith)
            requires
                y1 + 1 <= y2,
                0 < width,
        ;
    } else if y2 < y1 {
        assert(y2 * width + width <= y1 * width) by (nonlinear_arith)
            requires
                y2 + 1 <= y1,
                0 < width,
        ;
    }
}

/// How many entries of `s` are `true`.
pub open spec fn count_true(s: Seq<bool>) -> nat
    decreases s.len(),
{
    if s.len() == 0 {
        0
    } else {
        count_true(s.drop_last()) + if s.last() {
            1nat
        } else {
            0nat
        }
    }
}

proof fn lemma_count_bound(s: Seq<bool>)
    ensures
        count_true(s) <= s.len(),
    decreases s.len(),
{
    if s.len() > 0 {
        lemma_count_bound(s.drop_last());
    }
}

proof fn lemma_count_none(s: Seq<bool>)
    requires
        forall|i: int| 0 <= i < s.len() ==> !s[i],
    ensures
        count_true(s) == 0,
    decreases s.len(),
{
    if s.len() > 0 {
        lemma_count_none(s.drop_last());
    }
}

proof fn lemma_count_all(s: Seq<bool>)
    requires
        forall|i: int| 0 <= i < s.len() ==> s[i],
    ensures
        count_true(s) == s.len(),
    decreases s.len(),
{
    if s.len() > 0 {
        lemma_count_all(s.drop_last());
    }
}

proof fn lemma_count_set(s: Seq<bool>, i: int)
    requires
        0 <= i < s.len(),
        !s[i],
    ensures
        count_true(s.update(i, true)) == count_true(s) + 1,
    decreases s.len(),
{
    let t = s.update(i, true);
    if i == s.len() - 1 {
        assert(t.drop_last() == s.drop_last());
    } else {
        assert(t.drop_last() == s.drop_last().update(i, true));
        lemma_count_set(s.drop_last(), i);
    }
}

/// The cells that were queued.
pub struct Mask {
    width: usize,
    height: usize,
    cells: Vec<bool>,
}

impl Mask {
    /// The number of columns.
    pub closed spec fn cols(&self) -> usize {
        self.width
    }

    /// The number of rows.
    pub closed spec fn rows(&self) -> usize {
        self.height
    }

    /// There is one entry per cell.
    pub closed spec fn wf(&self) -> bool {
        self.cells.len() == self.width * self.height
    }

    /// Whether `(x, y)` is a cell of the grid that is marked.
    pub closed spec fn marked(&self, x: int, y: int) -> bool {
        in_grid(x, y, self.width as int, self.height as int) && self.cells@[cell_index(
            x,
            y,
            self.width as int,
        )]
    }

    /// How many cells are marked.
    pub closed spec fn count(&self) -> nat {
        count_true(self.cells@)
    }

    /// A mask of `width` by `height` cells with no cell marked.
    pub fn new(width: usize, height: usize) -> (mask: Mask)
        requires
            width * height <= usize::MAX,
        ensures
            mask.wf(),
            mask.cols() == width,
            mask.rows() == height,
            mask.count() == 0,
            forall|x: int, y: int| !mask.marked(x, y),
    {
        let mut cells: Vec<bool> = Vec::new();
        let total: usize = width * height;
        let mut i: usize = 0;
        while i < total
            invariant
                i <= total,
                cells@.len() == i,
                forall|j: int| 0 <= j < i ==> !cells@[j],
            decreases total - i,
        {
            cells.push(false);
            i = i + 1;
        }
        let mask = Mask { width, height, cells };
        proof {
            lemma_count_none(mask.cells@);
            assert forall|x: int, y: int| !mask.marked(x, y) by {
                if in_grid(x, y, width as int, height as int) {
                    lemma_cell_index_bounds(x, y, width as int, height as int);
                }
            }
        }
        mask
    }

    /// Whether `(x, y)` is a cell of the grid that is marked.
    pub fn is_marked(&self, x: usize, y: usize) -> (b: bool)
        requires
            self.wf(),
        ensures
            b == self.marked(x as int, y as int),
    {
        if x < self.width && y < self.height {
            proof {
                lemma_cell_index_bounds(x as int, y as int, self.width as int, self.height as int);
                assert(0 <= y * self.width) by (nonlinear_arith);
            }
            self.cells[y * self.width + x]
        } else {
            false
        }
    }

    /// Marks the cell `(x, y)`.
    pub fn mark(&mut self, x: usize, y: usize)
        requires
            old(self).wf(),
            in_grid(x as int, y as int, old(self).cols() as int, old(self).rows() as int),
        ensures
            final(self).wf(),
            final(self).cols() == old(self).cols(),
            final(self).rows() == old(self).rows(),
            final(self).marked(x as int, y as int),
            forall|x2: int, y2: int|
                !(x2 == x && y2 == y) ==> final(self).marked(x2, y2) == old(self).marked(x2, y2),
            final(self).count() == old(self).count() + if old(self).marked(x as int, y as int) {
                0nat
            } else {
                1nat
            },
    {
        proof {
            lemma_cell_index_bounds(x as int, y as int, self.width as int, self.height as int);
            assert(0 <= y * self.width) by (nonlinear_arith);
        }
        let i: usize = y * self.width + x;
        let ghost before = self.cells@;
        if !self.cells[i] {
            self.cells.set(i, true);
            proof {
                lemma_count_set(before, i as int);
            }
        }
        assert(self.cells@ == before.update(i as int, true));
        assert forall|x2: int, y2: int| !(x2 == x && y2 == y) implies self.marked(x2, y2) == old(
            self,
        ).marked(x2, y2) by {
            if in_grid(x2, y2, self.width as int, self.height as int) {
                lemma_cell_index_bounds(x2, y2, self.width as int, self.height as int);
                if cell_index(x2, y2, self.width as int) == i {
                    lemma_cell_index_injective(x2, y2, x as int, y as int, self.width as int);
                }
            }
        }
    }

    /// Only cells of the grid are marked.
    pub proof fn lemma_marked_in_grid(&self, x: int, y: int)
        requires
            self.marked(x, y),
        ensures
            in_grid(x, y, self.cols() as int, self.rows() as int),
    {
    }

    /// No more cells are marked than the grid has.
    pub proof fn lemma_count_bounded(&self)
        requires
            self.wf(),
        ensures
            self.count() <= self.cols() * self.rows(),
    {
        lemma_count_bound(self.cells@);
    }

    /// Where every cell is marked, the count is that of the cells.
    pub proof fn lemma_count_full(&self)
        requires
            self.wf(),
            forall|x: int, y: int|
                in_grid(x, y, self.cols() as int, self.rows() as int) ==> self.marked(x, y),
        ensures
            self.count() == self.cols() * self.rows(),
    {
        let w = self.width as int;
        let h = self.height as int;
        assert forall|i: int| 0 <= i < self.cells@.len() implies self.cells@[i] by {
            if w > 0 {
                let x = i % w;
                let y = i / w;
                assert(i == y * w + x && 0 <= x < w && 0 <= y) by (nonlinear_arith)
                    requires
                        x == i % w,
                        y == i / w,
                        w > 0,
                        i >= 0,
                ;
                if y >= h {
                    assert(y * w >= h * w) by (nonlinear_arith)
                        requires
                            y >= h,
                            w > 0,
                    ;
                    assert(h * w == w * h) by (nonlinear_arith);
                }
                assert(self.marked(x, y));
            } else {
                assert(w * h == 0) by (nonlinear_arith)
                    requires
                        w == 0,
                ;
            }
        }
        lemma_count_all(self.cells@);
    }
}

/// The colour that the writes of `history` leave at `(x, y)`: that of the last
/// write there, and black where there was none.
pub open spec fn colour_left(history: Seq<Point>, x: int, y: int) -> Rgb
    decreases history.len(),
{
    if history.len() == 0 {
        (0u8, 0u8, 0u8)
    } else if history.last().x == x && history.last().y == y {
        (history.last().r, history.last().g, history.last().b)
    } else {
        colour_left(history.drop_last(), x, y)
    }
}

/// Where one write went to `(x, y)`, its colour is the one left there.
pub proof fn lemma_colour_left_once(history: Seq<Point>, i: int)
    requires
        0 <= i < history.len(),
        forall|j: int|
            0 <= j < history.len() && j != i ==> !((#[trigger] history[j]).x == history[i].x
                && history[j].y == history[i].y),
    ensures
        colour_left(history, history[i].x as int, history[i].y as int) == (
            history[i].r,
            history[i].g,
            history[i].b,
        ),
    decreases history.len(),
{
    if i < history.len() - 1 {
        let last = history[history.len() - 1];
        assert(!(last.x == history[i].x && last.y == history[i].y));
        lemma_colour_left_once(history.drop_last(), i);
    }
}

/// The grid of colours, together with the record of what was written to it.
pub struct Canvas {
    width: usize,
    height: usize,
    pixels: Vec<Rgb>,
    written: Ghost<Seq<Point>>,
}

impl Canvas {
    /// The number of columns.
    pub closed spec fn cols(&self) -> usize {
        self.width
    }

    /// The number of rows.
    pub closed spec fn rows(&self) -> usize {
        self.height
    }

    /// The writes so far, oldest first: each as the point that was painted.
    pub closed spec fn history(&self) -> Seq<Point> {
        self.written@
    }

    /// The colours, row after row.
    pub closed spec fn colours(&self) -> Seq<Rgb> {
        self.pixels@
    }

    /// There is one colour per cell, every write went to a cell of the grid,
    /// and each cell shows what the writes left there.
    pub closed spec fn wf(&self) -> bool {
        &&& self.pixels.len() == self.width * self.height
        &&& forall|i: int|
            0 <= i < self.written@.len() ==> in_grid(
                (#[trigger] self.written@[i]).x as int,
                self.written@[i].y as int,
                self.width as int,
                self.height as int,
            )
        &&& forall|x: int, y: int|
            in_grid(x, y, self.width as int, self.height as int) ==> self.pixels@[cell_index(
                x,
                y,
                self.width as int,
            )] == #[trigger] colour_left(self.written@, x, y)
    }

    /// A black canvas of `width` by `height` cells.
    pub fn new(width: usize, height: usize) -> (canvas: Canvas)
        requires
            width * height <= usize::MAX,
        ensures
            canvas.wf(),
            canvas.cols() == width,
            canvas.rows() == height,
            canvas.history() == Seq::<Point>::empty(),
    {
        let mut pixels: Vec<Rgb> = Vec::new();
        let total: usize = width * height;
        let mut i: usize = 0;
        while i < total
            invariant
                i <= total,
                pixels@.len() == i,
                forall|j: int| 0 <= j < i ==> pixels@[j] == (0u8, 0u8, 0u8),
            decreases total - i,
        {
            pixels.push((0, 0, 0));
            i = i + 1;
        }
        let canvas = Canvas { width, height, pixels, written: Ghost(Seq::empty()) };
        proof {
            assert forall|x: int, y: int|
                in_grid(x, y, width as int, height as int) implies canvas.pixels@[cell_index(
                x,
                y,
                width as int,
            )] == #[trigger] colour_left(canvas.written@, x, y) by {
                lemma_cell_index_bounds(x, y, width as int, height as int);
            }
        }
        canvas
    }

    /// The number of columns.
    pub fn width(&self) -> (w: usize)
        ensures
            w == self.cols(),
    {
        self.width
    }

    /// The number of rows.
    pub fn height(&self) -> (h: usize)
        ensures
            h == self.rows(),
    {
        self.height
    }

    /// The colour at `(x, y)`.
    pub fn get(&self, x: usize, y: usize) -> (colour: Rgb)
        requires
            self.wf(),
            in_grid(x as int, y as int, self.cols() as int, self.rows() as int),
        ensures
            colour == colour_left(self.history(), x as int, y as int),
            colour == self.colours()[cell_index(x as int, y as int, self.cols() as int)],
    {
        proof {
            lemma_cell_index_bounds(x as int, y as int, self.width as int, self.height as int);
            assert(0 <= y * self.width) by (nonlinear_arith);
        }
        self.pixels[y * self.width + x]
    }

    /// Writes `colour` to `(x, y)`.
    pub fn put(&mut self, x: usize, y: usize, colour: Rgb)
        requires
            old(self).wf(),
            in_grid(x as int, y as int, old(self).cols() as int, old(self).rows() as int),
        ensures
            final(self).wf(),
            final(self).cols() == old(self).cols(),
            final(self).rows() == old(self).rows(),
            final(self).history() == old(self).history().push(
                Point { r: colour.0, g: colour.1, b: colour.2, x, y },
            ),
    {
        proof {
            lemma_cell_index_bounds(x as int, y as int, self.width as int, self.height as int);
            assert(0 <= y * self.width) by (nonlinear_arith);
        }
        let i: usize = y * self.width + x;
        let ghost point = Point { r: colour.0, g: colour.1, b: colour.2, x, y };
        let ghost before = self.written@;
        self.pixels.set(i, colour);
        self.written = Ghost(before.push(point));
        proof {
            let after = before.push(point);
            assert(after.drop_last() == before);
            assert forall|x2: int, y2: int|
                in_grid(x2, y2, self.width as int, self.height as int) implies self.pixels@[cell_index(
                x2,
                y2,
                self.width as int,
            )] == #[trigger] colour_left(after, x2, y2) by {
                lemma_cell_index_bounds(x2, y2, self.width as int, self.height as int);
                assert(after.last() == point);
                if cell_index(x2, y2, self.width as int) == i {
                    lemma_cell_index_injective(x2, y2, x as int, y as int, self.width as int);
                } else {
                    assert(old(self).pixels@[cell_index(x2, y2, self.width as int)] == colour_left(
                        before,
                        x2,
                        y2,
                    ));
                }
            }
        }
    }

    /// Gives up the colours, row after row: the cell `(x, y)` is at
    /// `y * width + x`.
    pub fn into_pixels(self) -> (pixels: Vec<Rgb>)
        ensures
            pixels@ == self.colours(),
    {
        self.pixels
    }

    /// Each cell shows the colour that the writes left on it.
    pub proof fn lemma_colours_shown(&self, x: int, y: int)
        requires
            self.wf(),
            in_grid(x, y, self.cols() as int, self.rows() as int),
        ensures
            0 <= cell_index(x, y, self.cols() as int) < self.colours().len(),
            self.colours()[cell_index(x, y, self.cols() as int)] == colour_left(
                self.history(),
                x,
                y,
            ),
    {
        lemma_cell_index_bounds(x, y, self.width as int, self.height as int);
    }

    /// Every write went to a cell of the grid.
    pub proof fn lemma_history_within(&self, i: int)
        requires
            self.wf(),
            0 <= i < self.history().len(),
        ensures
            in_grid(
                self.history()[i].x as int,
                self.history()[i].y as int,
                self.cols() as int,
                self.rows() as int,
            ),
    {
    }

    /// The colours are as many as the cells, which can be counted.
    pub proof fn lemma_colours_len(&self)
        requires
            self.wf(),
        ensures
            self.colours().len() == self.cols() * self.rows(),
            self.cols() * self.rows() <= usize::MAX,
    {
    }
}

} // verus!
