//! What holds between the mask, the record of painted points and the pending
//! queue while a growth runs, and why each move of the engine keeps it.

use crate::growth::{
    all_rooted, closed_under_touch, derives, first_claim, fully_grown, is_seed,
    lemma_closed_covers, lies_at, painted_at, painted_once, rooted, same_cell, seeds_painted,
    within,
};
use crate::grid::Mask;
use crate::neighbours::{adjacent, in_grid};
use crate::pending::{lemma_added, lemma_count_holds, lemma_popped, PendingKind};
use crate::point::Point;
use vstd::prelude::*;

verus! {

/// Whether some pending point lies on `(x, y)`.
pub open spec fn waits_at(pending: PendingKind, x: int, y: int) -> bool {
    exists|p: Point| #[trigger] pending.holds(p) && lies_at(p, x, y)
}

/// Whether every cell that touches one of the first `closed` painted points
/// is marked.
pub open spec fn touched_marked(
    mask: Mask,
    history: Seq<Point>,
    width: int,
    height: int,
    closed: int,
) -> bool {
    forall|i: int, x: int, y: int|
        0 <= i < closed && i < history.len() && in_grid(x, y, width, height) && #[trigger] adjacent(
            history[i].x as int,
            history[i].y as int,
            x,
            y,
        ) ==> mask.marked(x, y)
}

/// Whether every pending point lies on a marked cell of the grid that is
/// not painted, and has an origin.
pub open spec fn pending_sound(
    seeds: Seq<Point>,
    mask: Mask,
    history: Seq<Point>,
    pending: PendingKind,
    width: int,
    height: int,
    delta: int,
) -> bool {
    forall|p: Point| #[trigger]
        pending.holds(p) ==> {
            &&& in_grid(p.x as int, p.y as int, width, height)
            &&& mask.marked(p.x as int, p.y as int)
            &&& !painted_at(history, p.x as int, p.y as int)
            &&& rooted(seeds, history, history.len() as int, p, delta)
        }
}

/// Whether no two pending points share a cell.
pub open spec fn pending_apart(pending: PendingKind) -> bool {
    forall|p: Point, q: Point|
        #[trigger] pending.holds(p) && #[trigger] pending.holds(q) && same_cell(p, q) ==> p == q
}

/// Whether every marked cell is painted or has a pending point on it.
pub open spec fn marked_accounted(mask: Mask, history: Seq<Point>, pending: PendingKind) -> bool {
    forall|x: int, y: int| #[trigger]
        mask.marked(x, y) ==> painted_at(history, x, y) || waits_at(pending, x, y)
}

/// Whether each of the first `claimed` seeds that is the first on its cell
/// is pending or painted.
pub open spec fn seeds_placed(
    seeds: Seq<Point>,
    history: Seq<Point>,
    pending: PendingKind,
    claimed: int,
) -> bool {
    forall|k: int|
        0 <= k < claimed && #[trigger] first_claim(seeds, k) ==> pending.holds(seeds[k])
            || history.contains(seeds[k])
}

/// Whether every painted point lies on a marked cell.
pub open spec fn painted_marked(mask: Mask, history: Seq<Point>) -> bool {
    forall|i: int|
        0 <= i < history.len() ==> mask.marked(
            (#[trigger] history[i]).x as int,
            history[i].y as int,
        )
}

/// The state of a growth is consistent: marked cells are exactly those that
/// are painted or pending, no cell is painted or pending twice, every point
/// has an origin, and around each of the first `closed` painted points all
/// cells are marked.
pub open spec fn consistent(
    width: int,
    height: int,
    delta: int,
    seeds: Seq<Point>,
    mask: Mask,
    history: Seq<Point>,
    pending: PendingKind,
    closed: int,
    claimed: int,
) -> bool {
    &&& mask.wf()
    &&& mask.cols() == width
    &&& mask.rows() == height
    &&& delta >= 1
    &&& pending.distinct()
    &&& within(history, width, height)
    &&& painted_once(history)
    &&& painted_marked(mask, history)
    &&& all_rooted(seeds, history, delta)
    &&& pending_sound(seeds, mask, history, pending, width, height, delta)
    &&& pending_apart(pending)
    &&& marked_accounted(mask, history, pending)
    &&& pending.count() + history.len() == mask.count()
    &&& touched_marked(mask, history, width, height, closed)
    &&& seeds_placed(seeds, history, pending, claimed)
}

/// While a point is pending, fewer points are painted than the grid has
/// cells.
pub proof fn lemma_room(
    width: int,
    height: int,
    delta: int,
    seeds: Seq<Point>,
    mask: Mask,
    history: Seq<Point>,
    pending: PendingKind,
    closed: int,
    claimed: int,
)
    requires
        consistent(width, height, delta, seeds, mask, history, pending, closed, claimed),
    ensures
        pending.count() + history.len() <= width * height,
{
    mask.lemma_count_bounded();
}

/// Painting a point that left the queue keeps the state consistent; the
/// cells around the new point are not yet known to be marked.
pub proof fn lemma_commit(
    width: int,
    height: int,
    delta: int,
    seeds: Seq<Point>,
    mask: Mask,
    history: Seq<Point>,
    before: PendingKind,
    which: int,
    p: Point,
    after: PendingKind,
    claimed: int,
)
    requires
        consistent(
            width,
            height,
            delta,
            seeds,
            mask,
            history,
            before,
            history.len() as int,
            claimed,
        ),
        before.popped(which, p, &after),
    ensures
        consistent(
            width,
            height,
            delta,
            seeds,
            mask,
            history.push(p),
            after,
            history.len() as int,
            claimed,
        ),
{
    lemma_popped(before, which, p, after);
    let grown = history.push(p);
    let n = history.len() as int;
    assert(before.holds(p));
    assert(forall|i: int| 0 <= i < n ==> grown[i] == history[i]);
    assert(grown[n] == p);
    assert(within(grown, width, height));
    assert(painted_once(grown)) by {
        assert forall|i: int, j: int| 0 <= i < j < grown.len() implies !same_cell(
            #[trigger] grown[i],
            #[trigger] grown[j],
        ) by {
            if j == n {
                if same_cell(grown[i], p) {
                    assert(lies_at(history[i], p.x as int, p.y as int));
                }
            } else {
                assert(!same_cell(history[i], history[j]));
            }
        }
    }
    assert(painted_marked(mask, grown));
    assert(all_rooted(seeds, grown, delta)) by {
        assert forall|i: int| 0 <= i < grown.len() implies rooted(
            seeds,
            grown,
            i,
            #[trigger] grown[i],
            delta,
        ) by {
            if i < n {
                assert(rooted(seeds, history, i, history[i], delta));
                lemma_rooted_grows(seeds, history, p, i, grown[i], delta);
            } else {
                lemma_rooted_grows(seeds, history, p, n, p, delta);
            }
        }
    }
    assert(pending_sound(seeds, mask, grown, after, width, height, delta)) by {
        assert forall|q: Point| #[trigger] after.holds(q) implies {
            &&& in_grid(q.x as int, q.y as int, width, height)
            &&& mask.marked(q.x as int, q.y as int)
            &&& !painted_at(grown, q.x as int, q.y as int)
            &&& rooted(seeds, grown, grown.len() as int, q, delta)
        } by {
            assert(before.holds(q));
            assert(q != p);
            assert(!same_cell(p, q));
            if painted_at(grown, q.x as int, q.y as int) {
                let i = choose|i: int|
                    0 <= i < grown.len() && lies_at(#[trigger] grown[i], q.x as int, q.y as int);
                if i < n {
                    assert(lies_at(history[i], q.x as int, q.y as int));
                }
            }
            lemma_rooted_grows(seeds, history, p, n, q, delta);
        }
    }
    assert(pending_apart(after));
    assert(marked_accounted(mask, grown, after)) by {
        assert forall|x: int, y: int| #[trigger] mask.marked(x, y) implies painted_at(grown, x, y)
            || waits_at(after, x, y) by {
            if painted_at(history, x, y) {
                let i = choose|i: int| 0 <= i < n && lies_at(#[trigger] history[i], x, y);
                assert(lies_at(grown[i], x, y));
            } else {
                let q = choose|q: Point| #[trigger] before.holds(q) && lies_at(q, x, y);
                if q == p {
                    assert(lies_at(grown[n], x, y));
                } else {
                    assert(after.holds(q));
                }
            }
        }
    }
    assert(touched_marked(mask, grown, width, height, n));
    assert(seeds_placed(seeds, grown, after, claimed)) by {
        assert forall|k: int| 0 <= k < claimed && #[trigger] first_claim(seeds, k) implies after.holds(
            seeds[k],
        ) || grown.contains(seeds[k]) by {
            if before.holds(seeds[k]) {
                if seeds[k] == p {
                    assert(grown[n] == seeds[k]);
                }
            } else {
                let i = choose|i: int| 0 <= i < n && history[i] == seeds[k];
                assert(grown[i] == seeds[k]);
            }
        }
    }
}

proof fn lemma_rooted_grows(
    seeds: Seq<Point>,
    history: Seq<Point>,
    p: Point,
    n: int,
    q: Point,
    delta: int,
)
    requires
        rooted(seeds, history, n, q, delta),
    ensures
        rooted(seeds, history.push(p), n, q, delta),
        rooted(seeds, history.push(p), n + 1, q, delta),
{
    let grown = history.push(p);
    if !is_seed(seeds, q) {
        let j = choose|j: int|
            0 <= j < n && j < history.len() && derives(#[trigger] history[j], q, delta);
        assert(derives(grown[j], q, delta));
    }
}

/// Marking an unmarked cell and queueing a point on it keeps the state
/// consistent.
pub proof fn lemma_enqueue(
    width: int,
    height: int,
    delta: int,
    seeds: Seq<Point>,
    mask: Mask,
    marked: Mask,
    history: Seq<Point>,
    before: PendingKind,
    q: Point,
    after: PendingKind,
    closed: int,
    claimed: int,
)
    requires
        consistent(width, height, delta, seeds, mask, history, before, closed, claimed),
        in_grid(q.x as int, q.y as int, width, height),
        !mask.marked(q.x as int, q.y as int),
        rooted(seeds, history, history.len() as int, q, delta),
        marked.wf(),
        marked.cols() == width,
        marked.rows() == height,
        marked.marked(q.x as int, q.y as int),
        forall|x: int, y: int|
            !(x == q.x && y == q.y) ==> marked.marked(x, y) == mask.marked(x, y),
        marked.count() == mask.count() + 1,
        before.added(q, &after),
    ensures
        consistent(width, height, delta, seeds, marked, history, after, closed, claimed),
        !before.holds(q),
{
    lemma_added(before, q, after);
    assert(!before.holds(q));
    assert(painted_marked(marked, history)) by {
        assert forall|i: int| 0 <= i < history.len() implies marked.marked(
            (#[trigger] history[i]).x as int,
            history[i].y as int,
        ) by {
            assert(mask.marked(history[i].x as int, history[i].y as int));
        }
    }
    assert(pending_sound(seeds, marked, history, after, width, height, delta)) by {
        assert forall|p: Point| #[trigger] after.holds(p) implies {
            &&& in_grid(p.x as int, p.y as int, width, height)
            &&& marked.marked(p.x as int, p.y as int)
            &&& !painted_at(history, p.x as int, p.y as int)
            &&& rooted(seeds, history, history.len() as int, p, delta)
        } by {
            if p == q {
                if painted_at(history, q.x as int, q.y as int) {
                    let i = choose|i: int|
                        0 <= i < history.len() && lies_at(
                            #[trigger] history[i],
                            q.x as int,
                            q.y as int,
                        );
                    assert(mask.marked(history[i].x as int, history[i].y as int));
                }
            } else {
                assert(before.holds(p));
                assert(mask.marked(p.x as int, p.y as int));
            }
        }
    }
    assert(pending_apart(after)) by {
        assert forall|p: Point, r: Point|
            #[trigger] after.holds(p) && #[trigger] after.holds(r) && same_cell(p, r) implies p
            == r by {
            if p != q {
                assert(before.holds(p));
                assert(mask.marked(p.x as int, p.y as int));
            }
            if r != q {
                assert(before.holds(r));
                assert(mask.marked(r.x as int, r.y as int));
            }
        }
    }
    assert(marked_accounted(marked, history, after)) by {
        assert forall|x: int, y: int| #[trigger] marked.marked(x, y) implies painted_at(
            history,
            x,
            y,
        ) || waits_at(after, x, y) by {
            if x == q.x && y == q.y {
                assert(after.holds(q) && lies_at(q, x, y));
            } else {
                assert(mask.marked(x, y));
                if !painted_at(history, x, y) {
                    let p = choose|p: Point| #[trigger] before.holds(p) && lies_at(p, x, y);
                    assert(after.holds(p) && lies_at(p, x, y));
                }
            }
        }
    }
    assert(touched_marked(marked, history, width, height, closed)) by {
        assert forall|i: int, x: int, y: int|
            0 <= i < closed && i < history.len() && in_grid(x, y, width, height)
                && #[trigger] adjacent(
                history[i].x as int,
                history[i].y as int,
                x,
                y,
            ) implies marked.marked(x, y) by {
            assert(mask.marked(x, y));
        }
    }
    assert(seeds_placed(seeds, history, after, claimed)) by {
        assert forall|k: int| 0 <= k < claimed && #[trigger] first_claim(seeds, k) implies after.holds(
            seeds[k],
        ) || history.contains(seeds[k]) by {
            if before.holds(seeds[k]) {
                assert(after.holds(seeds[k]));
            }
        }
    }
}

/// A consistent state with nothing pending, every seed placed and all
/// painted points closed in is a growth at its end.
pub proof fn lemma_finished(
    width: int,
    height: int,
    delta: int,
    seeds: Seq<Point>,
    mask: Mask,
    history: Seq<Point>,
    pending: PendingKind,
)
    requires
        consistent(
            width,
            height,
            delta,
            seeds,
            mask,
            history,
            pending,
            history.len() as int,
            seeds.len() as int,
        ),
        pending.count() == 0,
        seeds.len() > 0,
    ensures
        fully_grown(seeds, history, width, height, delta),
{
    lemma_count_holds(pending);
    assert(first_claim(seeds, 0));
    assert(history.contains(seeds[0]));
    assert(seeds_painted(seeds, history)) by {
        assert forall|k: int| #[trigger] first_claim(seeds, k) implies history.contains(
            seeds[k],
        ) by {
            assert(!pending.holds(seeds[k]));
        }
    }
    assert(closed_under_touch(history, width, height)) by {
        assert forall|i: int, x: int, y: int|
            0 <= i < history.len() && in_grid(x, y, width, height) && #[trigger] adjacent(
                history[i].x as int,
                history[i].y as int,
                x,
                y,
            ) implies painted_at(history, x, y) by {
            assert(mask.marked(x, y));
            if waits_at(pending, x, y) {
                let p = choose|p: Point| #[trigger] pending.holds(p) && lies_at(p, x, y);
                assert(false);
            }
        }
    }
    lemma_closed_covers(history, width, height);
    assert forall|x: int, y: int| in_grid(x, y, width, height) implies mask.marked(x, y) by {
        assert(painted_at(history, x, y));
        let i = choose|i: int| 0 <= i < history.len() && lies_at(#[trigger] history[i], x, y);
        assert(mask.marked(history[i].x as int, history[i].y as int));
    }
    mask.lemma_count_full();
}

} // verus!
