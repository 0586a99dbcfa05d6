//! The growth engine: it takes a point from the pending queue, paints it,
//! and queues the unmarked cells around it with colours diffused from the
//! point's, until the queue is empty.

use crate::color::{diffuses, offset};
use crate::consistency::{
    consistent, lemma_commit, lemma_enqueue, lemma_finished, lemma_room, touched_marked,
};
use crate::grid::{colour_left, Canvas, Mask, Rgb};
use crate::growth::{
    claims, derives, first_claim, fully_grown, is_seed, lies_at, painted_at, painted_once,
    rooted, same_cell,
};
use crate::neighbours::{
    adjacent, arranged, grid_neighbours, in_grid, lemma_arranged, lemma_neighbours_complete,
    lemma_neighbours_distinct, lemma_neighbours_sound, neighbours,
};
use crate::pending::{
    lemma_added, lemma_count_holds, lemma_extended_none, lemma_extended_push, lemma_popped,
    PendingKind,
};
use crate::point::Point;
use rand::rngs::StdRng;
use vstd::prelude::*;

verus! {

/// Why a growth cannot start.
#[derive(Debug, Clone, Copy, PartialEq, Eq, Structural)]
pub enum GrowthError {
    /// The colour step is bounded by zero, so no step could be taken.
    ZeroDelta,
    /// The grid has more cells than can be counted.
    GridTooLarge,
    /// The pending queue already holds points.
    QueueNotEmpty,
    /// There is no seed to grow from.
    NoSeeds,
    /// A seed lies outside the grid.
    OutOfBoundsSeed,
}

/// Whether every seed lies in the grid.
pub open spec fn seeds_within(seeds: Seq<Point>, width: int, height: int) -> bool {
    forall|k: int|
        0 <= k < seeds.len() ==> in_grid(
            (#[trigger] seeds[k]).x as int,
            seeds[k].y as int,
            width,
            height,
        )
}

/// The first reason, if any, why a growth with these inputs cannot start.
pub open spec fn rejection(
    width: usize,
    height: usize,
    seeds: Seq<Point>,
    pending: PendingKind,
    delta: u32,
) -> Option<GrowthError> {
    if delta == 0 {
        Some(GrowthError::ZeroDelta)
    } else if width * height > usize::MAX {
        Some(GrowthError::GridTooLarge)
    } else if pending.count() > 0 {
        Some(GrowthError::QueueNotEmpty)
    } else if seeds.len() == 0 {
        Some(GrowthError::NoSeeds)
    } else if !seeds_within(seeds, width as int, height as int) {
        Some(GrowthError::OutOfBoundsSeed)
    } else {
        None
    }
}

/// A growth in progress.
pub struct GrowthEngine {
    width: usize,
    height: usize,
    delta: u32,
    mask: Mask,
    canvas: Canvas,
    pending: PendingKind,
    done: usize,
    seeds: Ghost<Seq<Point>>,
}

impl GrowthEngine {
    /// The number of columns.
    pub closed spec fn cols(&self) -> usize {
        self.width
    }

    /// The number of rows.
    pub closed spec fn rows(&self) -> usize {
        self.height
    }

    /// The bound of a colour step.
    pub closed spec fn step_bound(&self) -> u32 {
        self.delta
    }

    /// The seeds that the growth started from.
    pub closed spec fn seeds(&self) -> Seq<Point> {
        self.seeds@
    }

    /// The points painted so far, in the order in which they were painted.
    pub closed spec fn history(&self) -> Seq<Point> {
        self.canvas.history()
    }

    /// The pending queue.
    pub closed spec fn pending(&self) -> PendingKind {
        self.pending
    }

    /// Whether the cell `(x, y)` was ever queued.
    pub closed spec fn visited(&self, x: int, y: int) -> bool {
        self.mask.marked(x, y)
    }

    /// The canvas as it is now.
    pub closed spec fn canvas(&self) -> Canvas {
        self.canvas
    }

    /// The engine's parts fit together: the canvas is as large as the grid,
    /// its record counts the painted points, and the state is consistent
    /// with all seeds placed and all painted points closed in.
    pub closed spec fn wf(&self) -> bool {
        &&& self.canvas.wf()
        &&& self.canvas.cols() == self.width
        &&& self.canvas.rows() == self.height
        &&& self.done == self.canvas.history().len()
        &&& self.seeds@.len() > 0
        &&& consistent(
            self.width as int,
            self.height as int,
            self.delta as int,
            self.seeds@,
            self.mask,
            self.canvas.history(),
            self.pending,
            self.canvas.history().len() as int,
            self.seeds@.len() as int,
        )
    }

    /// Sets up a growth: checks the inputs, then marks the cell of each seed
    /// and queues the seed. A seed on a cell that an earlier seed has taken
    /// is passed over.
    pub fn new(
        width: usize,
        height: usize,
        seeds: &Vec<Point>,
        pending: PendingKind,
        delta: u32,
    ) -> (started: Result<GrowthEngine, GrowthError>)
        ensures
            match started {
                Ok(engine) => {
                    &&& rejection(width, height, seeds@, pending, delta) is None
                    &&& set_up(engine, width, height, seeds@, pending, delta)
                },
                Err(error) => rejection(width, height, seeds@, pending, delta) == Some(error),
            },
    {
        if delta == 0 {
            return Err(GrowthError::ZeroDelta);
        }
        if width.checked_mul(height).is_none() {
            return Err(GrowthError::GridTooLarge);
        }
        if pending.has_any() {
            return Err(GrowthError::QueueNotEmpty);
        }
        if seeds.len() == 0 {
            return Err(GrowthError::NoSeeds);
        }
        let mut k: usize = 0;
        while k < seeds.len()
            invariant
                k <= seeds.len(),
                delta != 0,
                width * height <= usize::MAX,
                pending.count() == 0,
                seeds.len() > 0,
                forall|j: int|
                    0 <= j < k ==> in_grid(
                        (#[trigger] seeds@[j]).x as int,
                        seeds@[j].y as int,
                        width as int,
                        height as int,
                    ),
            decreases seeds.len() - k,
        {
            if seeds[k].x >= width || seeds[k].y >= height {
                proof {
                    let out = seeds@[k as int];
                    assert(!in_grid(out.x as int, out.y as int, width as int, height as int));
                }
                return Err(GrowthError::OutOfBoundsSeed);
            }
            k = k + 1;
        }
        let ghost empty = pending;
        let mut engine = GrowthEngine {
            width,
            height,
            delta,
            mask: Mask::new(width, height),
            canvas: Canvas::new(width, height),
            pending,
            done: 0,
            seeds: Ghost(seeds@),
        };
        proof {
            lemma_count_holds(engine.pending);
            lemma_extended_none(empty);
            assert(seeds@.subrange(0, 0) =~= Seq::<Point>::empty());
        }
        let mut i: usize = 0;
        while i < seeds.len()
            invariant
                i <= seeds.len(),
                seeds_within(seeds@, width as int, height as int),
                engine.width == width,
                engine.height == height,
                engine.delta == delta,
                engine.seeds@ == seeds@,
                engine.done == 0,
                engine.canvas.wf(),
                engine.canvas.cols() == width,
                engine.canvas.rows() == height,
                engine.canvas.history() == Seq::<Point>::empty(),
                empty.extended(claims(seeds@.subrange(0, i as int)), &engine.pending),
                consistent(
                    width as int,
                    height as int,
                    delta as int,
                    seeds@,
                    engine.mask,
                    Seq::<Point>::empty(),
                    engine.pending,
                    0,
                    i as int,
                ),
                forall|j: int|
                    0 <= j < i ==> engine.mask.marked(
                        (#[trigger] seeds@[j]).x as int,
                        seeds@[j].y as int,
                    ),
                forall|x: int, y: int| #[trigger]
                    engine.mask.marked(x, y) ==> exists|j: int|
                        0 <= j < i && lies_at(#[trigger] seeds@[j], x, y),
                forall|j: int|
                    0 <= j < i && #[trigger] first_claim(seeds@, j) ==> engine.pending.holds(
                        seeds@[j],
                    ),
            decreases seeds.len() - i,
        {
            let seed = seeds[i];
            let ghost mask = engine.mask;
            let ghost before = engine.pending;
            let ghost shorter = seeds@.subrange(0, i as int);
            let ghost longer = seeds@.subrange(0, i + 1);
            proof {
                assert(longer.drop_last() == shorter);
                assert(longer.last() == seed);
                assert(first_claim(longer, i as int) <==> first_claim(seeds@, i as int)) by {
                    if first_claim(longer, i as int) {
                        assert forall|j: int| 0 <= j < i implies !same_cell(
                            #[trigger] seeds@[j],
                            seeds@[i as int],
                        ) by {
                            assert(!same_cell(longer[j], longer[i as int]));
                        }
                    }
                    if first_claim(seeds@, i as int) {
                        assert forall|j: int| 0 <= j < i implies !same_cell(
                            #[trigger] longer[j],
                            longer[i as int],
                        ) by {
                            assert(!same_cell(seeds@[j], seeds@[i as int]));
                        }
                    }
                }
            }
            if !engine.mask.is_marked(seed.x, seed.y) {
                proof {
                    assert(first_claim(seeds@, i as int)) by {
                        assert forall|j: int| 0 <= j < i implies !same_cell(
                            #[trigger] seeds@[j],
                            seeds@[i as int],
                        ) by {
                            assert(mask.marked(seeds@[j].x as int, seeds@[j].y as int));
                        }
                    }
                    assert(is_seed(seeds@, seed));
                }
                engine.mask.mark(seed.x, seed.y);
                engine.pending.add(seed);
                proof {
                    lemma_enqueue(
                        width as int,
                        height as int,
                        delta as int,
                        seeds@,
                        mask,
                        engine.mask,
                        Seq::<Point>::empty(),
                        before,
                        seed,
                        engine.pending,
                        0,
                        i as int,
                    );
                    lemma_added(before, seed, engine.pending);
                    lemma_extended_push(empty, claims(shorter), before, seed, engine.pending);
                    assert(lies_at(seeds@[i as int], seed.x as int, seed.y as int));
                    assert forall|x: int, y: int| #[trigger]
                        engine.mask.marked(x, y) implies exists|j: int|
                        0 <= j < i + 1 && lies_at(#[trigger] seeds@[j], x, y) by {
                        if !(x == seed.x && y == seed.y) {
                            assert(mask.marked(x, y));
                            let j = choose|j: int| 0 <= j < i && lies_at(#[trigger] seeds@[j], x, y);
                            assert(0 <= j < i + 1 && lies_at(seeds@[j], x, y));
                        }
                    }
                }
            } else {
                proof {
                    if first_claim(seeds@, i as int) {
                        let j = choose|j: int|
                            0 <= j < i && lies_at(
                                #[trigger] seeds@[j],
                                seed.x as int,
                                seed.y as int,
                            );
                        assert(same_cell(seeds@[j], seeds@[i as int]));
                        assert(false);
                    }
                }
            }
            i = i + 1;
        }
        proof {
            assert(seeds@.subrange(0, i as int) == seeds@);
            assert forall|p: Point| engine.pending.holds(p) implies is_seed(seeds@, p) by {
                assert(rooted(seeds@, Seq::<Point>::empty(), 0, p, delta as int));
            }
            assert forall|p: Point| is_seed(seeds@, p) implies engine.pending.holds(p) by {
                let j = choose|j: int| #[trigger] first_claim(seeds@, j) && seeds@[j] == p;
                assert(engine.pending.holds(seeds@[j]));
            }
            assert forall|x: int, y: int|
                (exists|j: int|
                    0 <= j < seeds@.len() && lies_at(
                        #[trigger] seeds@[j],
                        x,
                        y,
                    )) implies engine.mask.marked(x, y) by {
                let j = choose|j: int| 0 <= j < seeds@.len() && lies_at(#[trigger] seeds@[j], x, y);
                assert(engine.mask.marked(seeds@[j].x as int, seeds@[j].y as int));
            }
        }
        Ok(engine)
    }

    /// Whether any point is pending.
    pub fn has_pending(&self) -> (b: bool)
        ensures
            b == (self.pending().count() > 0),
    {
        self.pending.has_any()
    }

    /// The pending queue.
    pub fn queue(&self) -> (queue: &PendingKind)
        ensures
            *queue == self.pending(),
    {
        &self.pending
    }

    /// Whether the cell `(x, y)` lies in the grid and was ever queued.
    pub fn is_visited(&self, x: usize, y: usize) -> (b: bool)
        requires
            self.wf(),
        ensures
            b == self.visited(x as int, y as int),
    {
        self.mask.is_marked(x, y)
    }

    /// The colour now at `(x, y)`: that of the point painted there, and
    /// black where none was.
    pub fn colour_at(&self, x: usize, y: usize) -> (colour: Rgb)
        requires
            self.wf(),
            in_grid(x as int, y as int, self.cols() as int, self.rows() as int),
        ensures
            colour == colour_left(self.history(), x as int, y as int),
    {
        self.canvas.get(x, y)
    }

    /// How many points have been painted.
    pub fn done(&self) -> (n: usize)
        requires
            self.wf(),
        ensures
            n == self.history().len(),
    {
        self.done
    }

    /// How many cells the grid has.
    pub fn total(&self) -> (n: usize)
        requires
            self.wf(),
        ensures
            n == self.cols() * self.rows(),
    {
        proof {
            self.canvas.lemma_colours_len();
        }
        self.width * self.height
    }

    /// One round of the growth. Where no point is pending, nothing happens.
    /// Otherwise a point leaves the queue as its policy says and is painted;
    /// then each cell around it that is not yet visited is marked and gets
    /// a pending point of its own, each channel of which is the painted
    /// point's after one diffusion step. The new points enter the queue in
    /// the order in which the neighbours are listed.
    #[verifier::spinoff_prover]
    pub fn step(&mut self, rng: &mut StdRng) -> (painted: Option<Point>)
        requires
            old(self).wf(),
        ensures
            match painted {
                None => old(self).pending().count() == 0 && *final(self) == *old(self),
                Some(point) => stepped(*old(self), point, *final(self)),
            },
    {
        if !self.pending.has_any() {
            return None;
        }
        let ghost start = *self;
        let ghost width = self.width as int;
        let ghost height = self.height as int;
        let ghost delta = self.delta as int;
        let ghost seeds = self.seeds@;
        let ghost start_history = self.canvas.history();
        proof {
            self.canvas.lemma_colours_len();
            lemma_room(
                width,
                height,
                delta,
                seeds,
                self.mask,
                start_history,
                self.pending,
                start_history.len() as int,
                seeds.len() as int,
            );
        }
        let point = self.pending.pop(rng);
        let ghost rest = self.pending;
        let ghost which = choose|which: int|
            0 <= which < start.pending.count() && #[trigger] start.pending.popped(
                which,
                point,
                &rest,
            );
        proof {
            lemma_popped(start.pending, which, point, rest);
            lemma_commit(
                width,
                height,
                delta,
                seeds,
                self.mask,
                start_history,
                start.pending,
                which,
                point,
                rest,
                seeds.len() as int,
            );
            lemma_extended_none(rest);
        }
        self.canvas.put(point.x, point.y, (point.r, point.g, point.b));
        self.done = self.done + 1;
        let ghost history = self.canvas.history();
        assert(history == start_history.push(point));
        assert(history[history.len() - 1] == point);
        let chance = self.pending.shuffle_chance();
        let cells = neighbours(rng, point.x, point.y, self.width, self.height, chance);
        let ghost canonical = grid_neighbours(point.x, point.y, self.width, self.height);
        proof {
            lemma_neighbours_distinct(point.x, point.y, self.width, self.height);
            lemma_arranged(cells@, canonical, chance);
            assert(cells@.subrange(0, 0) =~= Seq::<(usize, usize)>::empty());
        }
        let ghost mut fresh: Seq<Point> = Seq::empty();
        let mut i: usize = 0;
        while i < cells.len()
            invariant
                i <= cells.len(),
                self.width == width,
                self.height == height,
                self.delta == delta,
                self.seeds@ == seeds,
                self.delta >= 1,
                seeds.len() > 0,
                self.canvas.wf(),
                self.canvas.cols() == self.width,
                self.canvas.rows() == self.height,
                self.canvas.history() == history,
                self.done == history.len(),
                history.len() > 0,
                history[history.len() - 1] == point,
                cells@.no_duplicates(),
                forall|c: (usize, usize)|
                    cells@.contains(c) <==> grid_neighbours(
                        point.x,
                        point.y,
                        self.width,
                        self.height,
                    ).contains(c),
                consistent(
                    width,
                    height,
                    delta,
                    seeds,
                    self.mask,
                    history,
                    self.pending,
                    history.len() - 1,
                    seeds.len() as int,
                ),
                forall|x: int, y: int| #[trigger]
                    self.mask.marked(x, y) <==> start.mask.marked(x, y) || listed(
                        cells@,
                        i as int,
                        x,
                        y,
                    ),
                rest.extended(fresh, &self.pending),
                grown_onto(point, unvisited_cells(cells@.subrange(0, i as int), start), fresh, delta),
            decreases cells.len() - i,
        {
            let (nx, ny) = cells[i];
            let ghost mask = self.mask;
            let ghost before = self.pending;
            let ghost shorter = cells@.subrange(0, i as int);
            let ghost longer = cells@.subrange(0, i + 1);
            proof {
                assert(cells@.contains(cells@[i as int]));
                lemma_neighbours_sound(point.x, point.y, self.width, self.height, (nx, ny));
                assert(longer.drop_last() == shorter);
                assert(longer.last() == (nx, ny));
            }
            if !self.mask.is_marked(nx, ny) {
                let r = offset(rng, point.r, self.delta);
                let g = offset(rng, point.g, self.delta);
                let b = offset(rng, point.b, self.delta);
                let grown = Point { r, g, b, x: nx, y: ny };
                proof {
                    assert(derives(history[history.len() - 1], grown, delta));
                    assert(rooted(seeds, history, history.len() as int, grown, delta));
                }
                self.mask.mark(nx, ny);
                self.pending.add(grown);
                proof {
                    lemma_enqueue(
                        width,
                        height,
                        delta,
                        seeds,
                        mask,
                        self.mask,
                        history,
                        before,
                        grown,
                        self.pending,
                        history.len() - 1,
                        seeds.len() as int,
                    );
                    lemma_extended_push(rest, fresh, before, grown, self.pending);
                    assert(!start.mask.marked(nx as int, ny as int));
                    assert(unvisited_cells(longer, start) == unvisited_cells(shorter, start).push(
                        (nx, ny),
                    ));
                    fresh = fresh.push(grown);
                }
            } else {
                proof {
                    if !start.mask.marked(nx as int, ny as int) {
                        assert(listed(cells@, i as int, nx as int, ny as int));
                        let j = choose|j: int|
                            0 <= j < i && (#[trigger] cells@[j]).0 == nx && cells@[j].1 == ny;
                        assert(cells@[j] == cells@[i as int]);
                        assert(false);
                    }
                    assert(unvisited_cells(longer, start) == unvisited_cells(shorter, start));
                }
            }
            proof {
                assert forall|x: int, y: int| #[trigger]
                    self.mask.marked(x, y) <==> start.mask.marked(x, y) || listed(
                        cells@,
                        i + 1,
                        x,
                        y,
                    ) by {
                    if x == nx && y == ny {
                        assert(cells@[i as int].0 == x && cells@[i as int].1 == y);
                        assert(self.mask.marked(x, y));
                    } else {
                        assert(self.mask.marked(x, y) == mask.marked(x, y));
                        assert(mask.marked(x, y) <==> start.mask.marked(x, y) || listed(
                            cells@,
                            i as int,
                            x,
                            y,
                        ));
                        if listed(cells@, i as int, x, y) {
                            let j = choose|j: int|
                                0 <= j < i && (#[trigger] cells@[j]).0 == x && cells@[j].1 == y;
                            assert(0 <= j < i + 1 && cells@[j].0 == x && cells@[j].1 == y);
                        }
                        if listed(cells@, i + 1, x, y) {
                            let j = choose|j: int|
                                0 <= j < i + 1 && (#[trigger] cells@[j]).0 == x && cells@[j].1
                                    == y;
                            assert(0 <= j < i && cells@[j].0 == x && cells@[j].1 == y);
                        }
                    }
                }
            }
            i = i + 1;
        }
        proof {
            assert(cells@.subrange(0, i as int) == cells@);
            assert forall|x: int, y: int|
                self.mask.marked(x, y) <==> start.mask.marked(x, y) || (in_grid(
                    x,
                    y,
                    width,
                    height,
                ) && adjacent(point.x as int, point.y as int, x, y)) by {
                assert(self.mask.marked(x, y) <==> start.mask.marked(x, y) || listed(
                    cells@,
                    i as int,
                    x,
                    y,
                ));
                if in_grid(x, y, width, height) && adjacent(point.x as int, point.y as int, x, y) {
                    let c = (x as usize, y as usize);
                    lemma_neighbours_complete(point.x, point.y, self.width, self.height, c);
                    assert(cells@.contains(c));
                    let j = choose|j: int| 0 <= j < cells@.len() && cells@[j] == c;
                    assert(0 <= j < i && cells@[j].0 == x && cells@[j].1 == y);
                    assert(listed(cells@, i as int, x, y));
                }
                if listed(cells@, i as int, x, y) {
                    let j = choose|j: int|
                        0 <= j < i && (#[trigger] cells@[j]).0 == x && cells@[j].1 == y;
                    assert(cells@.contains(cells@[j]));
                    lemma_neighbours_sound(point.x, point.y, self.width, self.height, cells@[j]);
                }
            }
            assert(touched_marked(self.mask, history, width, height, history.len() as int)) by {
                assert forall|k: int, x: int, y: int|
                    0 <= k < history.len() && in_grid(x, y, width, height) && #[trigger] adjacent(
                        history[k].x as int,
                        history[k].y as int,
                        x,
                        y,
                    ) implies self.mask.marked(x, y) by {
                    if k == history.len() - 1 {
                        assert(self.mask.marked(x, y));
                    }
                }
            }
            assert(round(start, which, point, rest, cells@, fresh, self.pending));
            assert(self.wf());
            assert(self.canvas.history() == start.canvas.history().push(point));
        }
        Some(point)
    }

    /// The painted and the pending points together are no more than the
    /// grid has cells: while a point is pending, the growth is not at its
    /// end.
    pub proof fn lemma_room_left(&self)
        requires
            self.wf(),
        ensures
            self.pending().count() + self.history().len() <= self.cols() * self.rows(),
    {
        lemma_room(
            self.width as int,
            self.height as int,
            self.delta as int,
            self.seeds@,
            self.mask,
            self.canvas.history(),
            self.pending,
            self.canvas.history().len() as int,
            self.seeds@.len() as int,
        );
    }

    /// No cell is taken twice: no two pending points share a cell, no
    /// pending point lies on a painted cell, no two painted points share a
    /// cell, and all of them lie on visited cells of the grid.
    pub proof fn lemma_cells_apart(&self)
        requires
            self.wf(),
        ensures
            painted_once(self.history()),
            forall|p: Point, q: Point|
                #[trigger] self.pending().holds(p) && #[trigger] self.pending().holds(q)
                    && same_cell(p, q) ==> p == q,
            forall|p: Point| #[trigger]
                self.pending().holds(p) ==> {
                    &&& self.visited(p.x as int, p.y as int)
                    &&& !painted_at(self.history(), p.x as int, p.y as int)
                },
            forall|i: int|
                0 <= i < self.history().len() ==> self.visited(
                    (#[trigger] self.history()[i]).x as int,
                    self.history()[i].y as int,
                ),
            forall|x: int, y: int| #[trigger]
                self.visited(x, y) ==> in_grid(x, y, self.cols() as int, self.rows() as int),
    {
        assert forall|x: int, y: int| #[trigger] self.visited(x, y) implies in_grid(
            x,
            y,
            self.cols() as int,
            self.rows() as int,
        ) by {
            self.mask.lemma_marked_in_grid(x, y);
        }
    }

    /// Whether progress is due to be reported: after every ten thousand
    /// points.
    pub fn report_due(&self) -> (due: bool)
        requires
            self.wf(),
        ensures
            due == (self.history().len() % 10_000 == 0),
    {
        self.done % 10_000 == 0
    }

    /// Ends the growth and gives up the canvas.
    pub fn finish(self) -> (canvas: Canvas)
        requires
            self.wf(),
        ensures
            canvas == self.canvas(),
            canvas.wf(),
            canvas.cols() == self.cols(),
            canvas.rows() == self.rows(),
            canvas.history() == self.history(),
            self.pending().count() == 0 ==> fully_grown(
                self.seeds(),
                canvas.history(),
                self.cols() as int,
                self.rows() as int,
                self.step_bound() as int,
            ),
    {
        proof {
            if self.pending.count() == 0 {
                lemma_finished(
                    self.width as int,
                    self.height as int,
                    self.delta as int,
                    self.seeds@,
                    self.mask,
                    self.canvas.history(),
                    self.pending,
                );
            }
        }
        self.canvas
    }
}

/// Grows a canvas of `width` by `height` cells from `seeds`: sets up an
/// engine with the empty queue `pending`, lets it run until no point is
/// pending, and returns the canvas. Inputs from which no growth can start
/// are rejected before anything is painted.
pub fn run(
    width: usize,
    height: usize,
    seeds: &Vec<Point>,
    pending: PendingKind,
    delta: u32,
    rng: &mut StdRng,
) -> (grown: Result<Canvas, GrowthError>)
    ensures
        match grown {
            Ok(canvas) => {
                &&& rejection(width, height, seeds@, pending, delta) is None
                &&& canvas.wf()
                &&& canvas.cols() == width
                &&& canvas.rows() == height
                &&& fully_grown(
                    seeds@,
                    canvas.history(),
                    width as int,
                    height as int,
                    delta as int,
                )
                &&& exists|rounds: Seq<GrowthEngine>| #[trigger]
                    grown_by(rounds, width, height, seeds@, pending, delta, canvas)
            },
            Err(error) => rejection(width, height, seeds@, pending, delta) == Some(error),
        },
{
    let mut engine = match GrowthEngine::new(width, height, seeds, pending, delta) {
        Ok(engine) => engine,
        Err(error) => {
            return Err(error);
        },
    };
    let ghost mut rounds: Seq<GrowthEngine> = seq![engine];
    while engine.has_pending()
        invariant
            engine.wf(),
            engine.cols() == width,
            engine.rows() == height,
            engine.step_bound() == delta,
            engine.seeds() == seeds@,
            rounds.len() > 0,
            rounds.last() == engine,
            set_up(rounds[0], width, height, seeds@, pending, delta),
            chained(rounds),
        decreases width * height - engine.history().len(),
    {
        proof {
            engine.lemma_room_left();
        }
        let ghost before = engine;
        engine.step(rng);
        proof {
            let longer = rounds.push(engine);
            assert(engine.history().last() == engine.history()[before.history().len() as int]);
            assert forall|i: int| 0 <= i < longer.len() - 1 implies stepped(
                #[trigger] longer[i],
                longer[i + 1].history().last(),
                longer[i + 1],
            ) by {
                if i < rounds.len() - 1 {
                    assert(stepped(rounds[i], rounds[i + 1].history().last(), rounds[i + 1]));
                }
            }
            rounds = longer;
        }
    }
    let canvas = engine.finish();
    proof {
        assert(grown_by(rounds, width, height, seeds@, pending, delta, canvas));
    }
    Ok(canvas)
}

/// Whether `engine` is set up for a growth with these inputs: nothing is
/// painted, the seeds that are the first on their cell are pending, in
/// their order, and the cells of the seeds are the visited ones.
pub open spec fn set_up(
    engine: GrowthEngine,
    width: usize,
    height: usize,
    seeds: Seq<Point>,
    pending: PendingKind,
    delta: u32,
) -> bool {
    &&& engine.wf()
    &&& engine.cols() == width
    &&& engine.rows() == height
    &&& engine.step_bound() == delta
    &&& engine.seeds() == seeds
    &&& engine.history() == Seq::<Point>::empty()
    &&& pending.extended(claims(seeds), &engine.pending())
    &&& forall|p: Point| engine.pending().holds(p) <==> is_seed(seeds, p)
    &&& forall|x: int, y: int|
        engine.visited(x, y) <==> exists|k: int|
            0 <= k < seeds.len() && lies_at(#[trigger] seeds[k], x, y)
}

/// Whether one round that paints `point` takes the engine `before` to
/// `after`: `point` joins the record, the cells of the grid around it join
/// the visited ones, and the queue changes as `round` says.
pub open spec fn stepped(before: GrowthEngine, point: Point, after: GrowthEngine) -> bool {
    &&& after.wf()
    &&& after.cols() == before.cols()
    &&& after.rows() == before.rows()
    &&& after.step_bound() == before.step_bound()
    &&& after.seeds() == before.seeds()
    &&& before.pending().count() > 0
    &&& after.history() == before.history().push(point)
    &&& forall|x: int, y: int|
        after.visited(x, y) <==> before.visited(x, y) || (in_grid(
            x,
            y,
            before.cols() as int,
            before.rows() as int,
        ) && adjacent(point.x as int, point.y as int, x, y))
    &&& exists|which: int, rest: PendingKind, cells: Seq<(usize, usize)>, fresh: Seq<Point>|
        #[trigger] round(before, which, point, rest, cells, fresh, after.pending())
}

/// Whether each engine of `rounds` comes of the one before it by one round.
pub open spec fn chained(rounds: Seq<GrowthEngine>) -> bool {
    forall|i: int|
        0 <= i < rounds.len() - 1 ==> stepped(
            #[trigger] rounds[i],
            rounds[i + 1].history().last(),
            rounds[i + 1],
        )
}

/// Whether `canvas` is what a growth with these inputs leaves that went
/// through the engines of `rounds`: the first is set up with the inputs,
/// each comes of the one before it by one round, and the last, in which
/// nothing is pending, holds the canvas.
pub open spec fn grown_by(
    rounds: Seq<GrowthEngine>,
    width: usize,
    height: usize,
    seeds: Seq<Point>,
    pending: PendingKind,
    delta: u32,
    canvas: Canvas,
) -> bool {
    &&& rounds.len() > 0
    &&& set_up(rounds[0], width, height, seeds, pending, delta)
    &&& chained(rounds)
    &&& rounds.last().pending().count() == 0
    &&& canvas == rounds.last().canvas()
}

/// Whether `(x, y)` is one of the first `n` cells of `cells`.
spec fn listed(cells: Seq<(usize, usize)>, n: int, x: int, y: int) -> bool {
    exists|j: int| 0 <= j < n && (#[trigger] cells[j]).0 == x && cells[j].1 == y
}

/// The cells of `cells`, in their order, that `engine` has not visited.
pub open spec fn unvisited_cells(cells: Seq<(usize, usize)>, engine: GrowthEngine) -> Seq<
    (usize, usize),
>
    decreases cells.len(),
{
    if cells.len() == 0 {
        Seq::empty()
    } else {
        let rest = unvisited_cells(cells.drop_last(), engine);
        if engine.visited(cells.last().0 as int, cells.last().1 as int) {
            rest
        } else {
            rest.push(cells.last())
        }
    }
}

/// Whether `fresh` are points grown out of `point`, one on each cell of
/// `cells` in their order: each channel is the channel of `point` after one
/// diffusion step bounded by `delta`.
pub open spec fn grown_onto(
    point: Point,
    cells: Seq<(usize, usize)>,
    fresh: Seq<Point>,
    delta: int,
) -> bool {
    &&& fresh.len() == cells.len()
    &&& forall|k: int|
        0 <= k < fresh.len() ==> {
            &&& (#[trigger] fresh[k]).x == cells[k].0
            &&& fresh[k].y == cells[k].1
            &&& diffuses(point.r, fresh[k].r, delta)
            &&& diffuses(point.g, fresh[k].g, delta)
            &&& diffuses(point.b, fresh[k].b, delta)
        }
}

/// Whether one round may take the engine `before` to the queue `queue`:
/// with `which` drawn, `point` leaves the queue and `rest` stays; `cells` is
/// what the neighbours of `point` are listed as; and `fresh`, grown out of
/// `point` onto the cells among them that were not visited, is added.
pub open spec fn round(
    before: GrowthEngine,
    which: int,
    point: Point,
    rest: PendingKind,
    cells: Seq<(usize, usize)>,
    fresh: Seq<Point>,
    queue: PendingKind,
) -> bool {
    &&& 0 <= which < before.pending().count()
    &&& before.pending().popped(which, point, &rest)
    &&& arranged(
        cells,
        grid_neighbours(point.x, point.y, before.cols(), before.rows()),
        rest.chance(),
    )
    &&& grown_onto(point, unvisited_cells(cells, before), fresh, before.step_bound() as int)
    &&& rest.extended(fresh, &queue)
}

} // verus!
