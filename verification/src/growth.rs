//! What a growth is: the words in which the engine's contracts speak of a
//! record of painted points, and why a record that has run out of pending
//! points covers the grid.

use crate::color::diffuses;
use crate::grid::{colour_left, lemma_colour_left_once};
use crate::neighbours::{adjacent, in_grid};
use crate::point::Point;
use vstd::prelude::*;

verus! {

/// Whether two points share their cell.
pub open spec fn same_cell(p: Point, q: Point) -> bool {
    p.x == q.x && p.y == q.y
}

/// Whether `p` lies on the cell `(x, y)`.
pub open spec fn lies_at(p: Point, x: int, y: int) -> bool {
    p.x == x && p.y == y
}

/// Whether some point of `history` lies on `(x, y)`.
pub open spec fn painted_at(history: Seq<Point>, x: int, y: int) -> bool {
    exists|i: int| 0 <= i < history.len() && lies_at(#[trigger] history[i], x, y)
}

/// Whether no two points of `history` share a cell.
pub open spec fn painted_once(history: Seq<Point>) -> bool {
    forall|i: int, j: int|
        0 <= i < j < history.len() ==> !same_cell(#[trigger] history[i], #[trigger] history[j])
}

/// Whether every point of `history` lies in the grid.
pub open spec fn within(history: Seq<Point>, width: int, height: int) -> bool {
    forall|i: int|
        0 <= i < history.len() ==> in_grid(
            (#[trigger] history[i]).x as int,
            history[i].y as int,
            width,
            height,
        )
}

/// Whether every cell of the grid has a point of `history` on it.
pub open spec fn covers(history: Seq<Point>, width: int, height: int) -> bool {
    forall|x: int, y: int| in_grid(x, y, width, height) ==> #[trigger] painted_at(history, x, y)
}

/// Whether `child` may grow out of `parent`: it lies on a touching cell, and
/// each of its channels is the parent's, moved by a non-zero step of at most
/// `delta` and clamped.
pub open spec fn derives(parent: Point, child: Point, delta: int) -> bool {
    &&& adjacent(parent.x as int, parent.y as int, child.x as int, child.y as int)
    &&& diffuses(parent.r, child.r, delta)
    &&& diffuses(parent.g, child.g, delta)
    &&& diffuses(parent.b, child.b, delta)
}

/// Whether the `k`-th seed is the first of the seeds on its cell.
pub open spec fn first_claim(seeds: Seq<Point>, k: int) -> bool {
    &&& 0 <= k < seeds.len()
    &&& forall|j: int| 0 <= j < k ==> !same_cell(#[trigger] seeds[j], seeds[k])
}

/// Whether `p` is a seed that is the first on its cell.
pub open spec fn is_seed(seeds: Seq<Point>, p: Point) -> bool {
    exists|k: int| #[trigger] first_claim(seeds, k) && seeds[k] == p
}

/// The seeds that are the first on their cell, in their order.
pub open spec fn claims(seeds: Seq<Point>) -> Seq<Point>
    decreases seeds.len(),
{
    if seeds.len() == 0 {
        Seq::empty()
    } else {
        let before = claims(seeds.drop_last());
        if first_claim(seeds, seeds.len() - 1) {
            before.push(seeds.last())
        } else {
            before
        }
    }
}

/// Whether `p` has an origin: it is a seed, or it grows out of one of the
/// first `n` points of `history`.
pub open spec fn rooted(seeds: Seq<Point>, history: Seq<Point>, n: int, p: Point, delta: int) -> bool {
    is_seed(seeds, p) || exists|j: int|
        0 <= j < n && j < history.len() && derives(#[trigger] history[j], p, delta)
}

/// Whether every point of `history` is a seed or grows out of a point
/// painted before it.
pub open spec fn all_rooted(seeds: Seq<Point>, history: Seq<Point>, delta: int) -> bool {
    forall|i: int|
        0 <= i < history.len() ==> rooted(seeds, history, i, #[trigger] history[i], delta)
}

/// Whether every seed that is the first on its cell was painted.
pub open spec fn seeds_painted(seeds: Seq<Point>, history: Seq<Point>) -> bool {
    forall|k: int| #[trigger] first_claim(seeds, k) ==> history.contains(seeds[k])
}

/// Whether `history` is the record of a growth that has come to its end:
/// as many points as the grid has cells, one on each cell, the seeds among
/// them, and every other point grown out of an earlier one.
pub open spec fn fully_grown(
    seeds: Seq<Point>,
    history: Seq<Point>,
    width: int,
    height: int,
    delta: int,
) -> bool {
    &&& history.len() == width * height
    &&& within(history, width, height)
    &&& painted_once(history)
    &&& covers(history, width, height)
    &&& all_rooted(seeds, history, delta)
    &&& seeds_painted(seeds, history)
}

/// Whether the painted cells are closed: every cell of the grid that
/// touches a painted cell is painted.
pub open spec fn closed_under_touch(history: Seq<Point>, width: int, height: int) -> bool {
    forall|i: int, x: int, y: int|
        0 <= i < history.len() && in_grid(x, y, width, height) && #[trigger] adjacent(
            history[i].x as int,
            history[i].y as int,
            x,
            y,
        ) ==> painted_at(history, x, y)
}

proof fn lemma_reach(history: Seq<Point>, width: int, height: int, x0: int, y0: int, x: int, y: int)
    requires
        closed_under_touch(history, width, height),
        painted_at(history, x0, y0),
        in_grid(x0, y0, width, height),
        in_grid(x, y, width, height),
    ensures
        painted_at(history, x, y),
    decreases (if x >= x0 { x - x0 } else { x0 - x }) + (if y >= y0 { y - y0 } else { y0 - y }),
{
    if x == x0 && y == y0 {
    } else {
        let px = if x > x0 { x - 1 } else if x < x0 { x + 1 } else { x };
        let py = if y > y0 { y - 1 } else if y < y0 { y + 1 } else { y };
        lemma_reach(history, width, height, x0, y0, px, py);
        let i = choose|i: int| 0 <= i < history.len() && lies_at(#[trigger] history[i], px, py);
        assert(adjacent(history[i].x as int, history[i].y as int, x, y));
    }
}

/// In a grid where something is painted and the painted cells are closed,
/// every cell is painted: any two cells are joined by a chain of touching
/// cells.
pub proof fn lemma_closed_covers(history: Seq<Point>, width: int, height: int)
    requires
        history.len() > 0,
        within(history, width, height),
        closed_under_touch(history, width, height),
    ensures
        covers(history, width, height),
{
    let first = history[0];
    assert(lies_at(history[0], first.x as int, first.y as int));
    assert forall|x: int, y: int| in_grid(x, y, width, height) implies #[trigger] painted_at(
        history,
        x,
        y,
    ) by {
        lemma_reach(history, width, height, first.x as int, first.y as int, x, y);
    }
}

/// Where each cell is painted once, the colour left on the cell of a
/// painted point is that point's.
pub proof fn lemma_painted_once_colour(history: Seq<Point>, i: int)
    requires
        painted_once(history),
        0 <= i < history.len(),
    ensures
        colour_left(history, history[i].x as int, history[i].y as int) == (
            history[i].r,
            history[i].g,
            history[i].b,
        ),
{
    assert forall|j: int| 0 <= j < history.len() && j != i implies !((#[trigger] history[j]).x
        == history[i].x && history[j].y == history[i].y) by {
        if j < i {
            assert(!same_cell(history[j], history[i]));
        } else {
            assert(!same_cell(history[i], history[j]));
        }
    }
    lemma_colour_left_once(history, i);
}

/// At the end of a growth every cell of the grid was painted exactly once:
/// one point of the record lies on it, and no other.
pub proof fn lemma_painted_exactly_once(
    seeds: Seq<Point>,
    history: Seq<Point>,
    width: int,
    height: int,
    delta: int,
    x: int,
    y: int,
) -> (i: int)
    requires
        fully_grown(seeds, history, width, height, delta),
        in_grid(x, y, width, height),
    ensures
        0 <= i < history.len(),
        lies_at(history[i], x, y),
        forall|j: int| 0 <= j < history.len() && lies_at(#[trigger] history[j], x, y) ==> j == i,
        colour_left(history, x, y) == (history[i].r, history[i].g, history[i].b),
{
    assert(painted_at(history, x, y));
    let i = choose|i: int| 0 <= i < history.len() && lies_at(#[trigger] history[i], x, y);
    assert forall|j: int| 0 <= j < history.len() && lies_at(#[trigger] history[j], x, y) implies j
        == i by {
        if j < i {
            assert(!same_cell(history[j], history[i]));
        } else if i < j {
            assert(!same_cell(history[i], history[j]));
        }
    }
    lemma_painted_once_colour(history, i);
    i
}

/// At the end of a growth each seed that is the first on its cell has left
/// its own colour there.
pub proof fn lemma_seed_keeps_colour(
    seeds: Seq<Point>,
    history: Seq<Point>,
    width: int,
    height: int,
    delta: int,
    k: int,
)
    requires
        fully_grown(seeds, history, width, height, delta),
        first_claim(seeds, k),
    ensures
        colour_left(history, seeds[k].x as int, seeds[k].y as int) == (
            seeds[k].r,
            seeds[k].g,
            seeds[k].b,
        ),
{
    assert(history.contains(seeds[k]));
    let i = choose|i: int| 0 <= i < history.len() && history[i] == seeds[k];
    lemma_painted_once_colour(history, i);
}

} // verus!
