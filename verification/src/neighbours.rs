//! The eight cells around a cell, as far as they lie inside the grid.

use crate::random::{draw_below, shuffle_cells};
use rand::rngs::StdRng;
use vstd::prelude::*;

verus! {

/// The `k`-th of the eight compass offsets `(dx, dy)`, row by row: the row
/// above from left to right, then the cell to the left and the cell to the
/// right, then the row below from left to right.
pub open spec fn offset_at(k: int) -> (int, int) {
    if k == 0 {
        (-1, -1)
    } else if k == 1 {
        (0, -1)
    } else if k == 2 {
        (1, -1)
    } else if k == 3 {
        (-1, 0)
    } else if k == 4 {
        (1, 0)
    } else if k == 5 {
        (-1, 1)
    } else if k == 6 {
        (0, 1)
    } else {
        (1, 1)
    }
}

/// Whether `(x, y)` is a cell of the grid of `w` columns and `h` rows.
pub open spec fn in_grid(x: int, y: int, w: int, h: int) -> bool {
    0 <= x < w && 0 <= y < h
}

/// Whether two cells touch: they differ, by at most one column and one row.
pub open spec fn adjacent(x1: int, y1: int, x2: int, y2: int) -> bool {
    &&& -1 <= x2 - x1 <= 1
    &&& -1 <= y2 - y1 <= 1
    &&& !(x1 == x2 && y1 == y2)
}

/// The neighbours of `(x, y)` that the first `n` offsets reach inside the
/// grid, in the order of the offsets.
pub open spec fn neighbours_upto(x: usize, y: usize, w: usize, h: usize, n: nat) -> Seq<
    (usize, usize),
>
    decreases n,
{
    if n == 0 {
        Seq::empty()
    } else {
        let rest = neighbours_upto(x, y, w, h, (n - 1) as nat);
        let (dx, dy) = offset_at(n - 1);
        if in_grid(x + dx, y + dy, w as int, h as int) {
            rest.push(((x + dx) as usize, (y + dy) as usize))
        } else {
            rest
        }
    }
}

/// The in-grid neighbours of `(x, y)` in canonical order: row by row, each
/// row from left to right.
pub open spec fn grid_neighbours(x: usize, y: usize, w: usize, h: usize) -> Seq<(usize, usize)> {
    neighbours_upto(x, y, w, h, 8)
}

/// The coordinate `c + d`, if it lies in `0..limit`.
pub open spec fn moved(c: int, d: int, limit: int) -> Option<usize> {
    if 0 <= c + d < limit {
        Some((c + d) as usize)
    } else {
        None
    }
}

/// Moves a coordinate by one step or none, staying below `limit`.
pub fn move_within(c: usize, d: i8, limit: usize) -> (r: Option<usize>)
    requires
        -1 <= d <= 1,
    ensures
        r == moved(c as int, d as int, limit as int),
{
    if d < 0 {
        if c >= 1 && c - 1 < limit {
            Some(c - 1)
        } else {
            None
        }
    } else if d == 0 {
        if c < limit {
            Some(c)
        } else {
            None
        }
    } else {
        if c < limit && c + 1 < limit {
            Some(c + 1)
        } else {
            None
        }
    }
}

/// Lists the in-grid neighbours of `(x, y)` in canonical order.
pub fn in_grid_neighbours(x: usize, y: usize, w: usize, h: usize) -> (cells: Vec<(usize, usize)>)
    ensures
        cells@ == grid_neighbours(x, y, w, h),
{
    let offsets: [(i8, i8); 8] = [
        (-1, -1),
        (0, -1),
        (1, -1),
        (-1, 0),
        (1, 0),
        (-1, 1),
        (0, 1),
        (1, 1),
    ];
    let mut cells: Vec<(usize, usize)> = Vec::new();
    let mut k: usize = 0;
    while k < 8
        invariant
            k <= 8,
            cells@ == neighbours_upto(x, y, w, h, k as nat),
            forall|i: int| 0 <= i < 8 ==> (#[trigger] offsets[i]).0 == offset_at(i).0,
            forall|i: int| 0 <= i < 8 ==> (#[trigger] offsets[i]).1 == offset_at(i).1,
        decreases 8 - k,
    {
        let (dx, dy) = offsets[k];
        let nx = move_within(x, dx, w);
        let ny = move_within(y, dy, h);
        match (nx, ny) {
            (Some(nx), Some(ny)) => {
                cells.push((nx, ny));
            },
            _ => {},
        }
        k = k + 1;
    }
    cells
}

/// Whether `cells` may be what becomes of the list `canonical` under the
/// chance `shuffle_chance`: the same cells, each as often, and in the same
/// order where there is no chance of a shuffle.
pub open spec fn arranged(
    cells: Seq<(usize, usize)>,
    canonical: Seq<(usize, usize)>,
    shuffle_chance: u8,
) -> bool {
    &&& cells.to_multiset() == canonical.to_multiset()
    &&& shuffle_chance == 0 ==> cells == canonical
}

/// Whether a draw below a hundred calls for a shuffle under the chance
/// `shuffle_chance`: it does where it is below the chance.
pub open spec fn shuffle_due(draw: int, shuffle_chance: u8) -> bool {
    draw < shuffle_chance
}

/// Lists the in-grid neighbours of `(x, y)` for a given draw: put into a
/// random order where the draw is below `shuffle_chance`, and in canonical
/// order otherwise.
pub fn neighbours_for(
    rng: &mut StdRng,
    x: usize,
    y: usize,
    w: usize,
    h: usize,
    shuffle_chance: u8,
    draw: u64,
) -> (cells: Vec<(usize, usize)>)
    ensures
        arranged(cells@, grid_neighbours(x, y, w, h), shuffle_chance),
        !shuffle_due(draw as int, shuffle_chance) ==> cells@ == grid_neighbours(x, y, w, h),
{
    let mut cells = in_grid_neighbours(x, y, w, h);
    if draw < shuffle_chance as u64 {
        shuffle_cells(rng, &mut cells);
    }
    cells
}

/// Lists the in-grid neighbours of `(x, y)`. With a `shuffle_chance` of
/// zero the list is in canonical order and nothing is drawn. Otherwise one
/// number below a hundred is drawn, and the list is put into a random order
/// where the number is below the chance: in `shuffle_chance` cases of a
/// hundred.
pub fn neighbours(
    rng: &mut StdRng,
    x: usize,
    y: usize,
    w: usize,
    h: usize,
    shuffle_chance: u8,
) -> (cells: Vec<(usize, usize)>)
    ensures
        arranged(cells@, grid_neighbours(x, y, w, h), shuffle_chance),
{
    if shuffle_chance == 0 {
        in_grid_neighbours(x, y, w, h)
    } else {
        let draw: u64 = draw_below(rng, 100);
        neighbours_for(rng, x, y, w, h, shuffle_chance, draw)
    }
}

/// Whether the `k`-th offset takes `(x, y)` to the in-grid cell `c`.
pub open spec fn reaches(x: usize, y: usize, w: usize, h: usize, k: int, c: (usize, usize)) -> bool {
    &&& in_grid(x + offset_at(k).0, y + offset_at(k).1, w as int, h as int)
    &&& c.0 == x + offset_at(k).0
    &&& c.1 == y + offset_at(k).1
}

proof fn lemma_upto_members(x: usize, y: usize, w: usize, h: usize, n: nat, c: (usize, usize))
    requires
        n <= 8,
    ensures
        neighbours_upto(x, y, w, h, n).contains(c) <==> exists|k: int|
            0 <= k < n && #[trigger] reaches(x, y, w, h, k, c),
    decreases n,
{
    if n == 0 {
        assert(!neighbours_upto(x, y, w, h, n).contains(c));
    } else {
        let m = (n - 1) as nat;
        let rest = neighbours_upto(x, y, w, h, m);
        lemma_upto_members(x, y, w, h, m, c);
        let (dx, dy) = offset_at(n - 1);
        if in_grid(x + dx, y + dy, w as int, h as int) {
            let cell = ((x + dx) as usize, (y + dy) as usize);
            let all = rest.push(cell);
            assert(all == neighbours_upto(x, y, w, h, n));
            if all.contains(c) {
                let i = choose|i: int| 0 <= i < all.len() && all[i] == c;
                if i < rest.len() {
                    assert(rest[i] == c);
                    assert(rest.contains(c));
                    let k = choose|k: int| 0 <= k < m && reaches(x, y, w, h, k, c);
                    assert(0 <= k < n && reaches(x, y, w, h, k, c));
                } else {
                    assert(reaches(x, y, w, h, n - 1, c));
                }
            }
            if exists|k: int| 0 <= k < n && #[trigger] reaches(x, y, w, h, k, c) {
                let k = choose|k: int| 0 <= k < n && #[trigger] reaches(x, y, w, h, k, c);
                if k < m {
                    assert(rest.contains(c));
                    let i = choose|i: int| 0 <= i < rest.len() && rest[i] == c;
                    assert(all[i] == c);
                } else {
                    assert(all[rest.len() as int] == c);
                }
            }
        } else {
            if exists|k: int| 0 <= k < n && #[trigger] reaches(x, y, w, h, k, c) {
                let k = choose|k: int| 0 <= k < n && #[trigger] reaches(x, y, w, h, k, c);
                assert(k < m);
            }
        }
    }
}

/// Every listed neighbour lies inside the grid and touches the cell.
pub proof fn lemma_neighbours_sound(x: usize, y: usize, w: usize, h: usize, c: (usize, usize))
    requires
        grid_neighbours(x, y, w, h).contains(c),
    ensures
        in_grid(c.0 as int, c.1 as int, w as int, h as int),
        adjacent(x as int, y as int, c.0 as int, c.1 as int),
{
    lemma_upto_members(x, y, w, h, 8, c);
}

/// Every cell of the grid that touches the cell is listed.
pub proof fn lemma_neighbours_complete(x: usize, y: usize, w: usize, h: usize, c: (usize, usize))
    requires
        in_grid(c.0 as int, c.1 as int, w as int, h as int),
        adjacent(x as int, y as int, c.0 as int, c.1 as int),
    ensures
        grid_neighbours(x, y, w, h).contains(c),
{
    lemma_upto_members(x, y, w, h, 8, c);
    let dx = c.0 - x;
    let dy = c.1 - y;
    let i = (dy + 1) * 3 + (dx + 1);
    let k = if i < 4 { i } else { i - 1 };
    assert(offset_at(k) == (dx, dy));
    assert(reaches(x, y, w, h, k, c));
}

proof fn lemma_upto_distinct(x: usize, y: usize, w: usize, h: usize, n: nat)
    requires
        n <= 8,
    ensures
        neighbours_upto(x, y, w, h, n).no_duplicates(),
    decreases n,
{
    if n > 0 {
        let m = (n - 1) as nat;
        let rest = neighbours_upto(x, y, w, h, m);
        lemma_upto_distinct(x, y, w, h, m);
        let (dx, dy) = offset_at(n - 1);
        if in_grid(x + dx, y + dy, w as int, h as int) {
            let cell = ((x + dx) as usize, (y + dy) as usize);
            lemma_upto_members(x, y, w, h, m, cell);
            if rest.contains(cell) {
                let k = choose|k: int| 0 <= k < m && #[trigger] reaches(x, y, w, h, k, cell);
                assert(offset_at(k) == offset_at(n - 1));
                assert(false);
            }
            assert forall|i: int, j: int|
                0 <= i < rest.len() + 1 && 0 <= j < rest.len() + 1 && i != j implies rest.push(
                cell,
            )[i] != rest.push(cell)[j] by {
                if i < rest.len() && j < rest.len() {
                    assert(rest[i] != rest[j]);
                } else if i < rest.len() {
                    assert(rest.contains(rest[i]));
                } else {
                    assert(rest.contains(rest[j]));
                }
            }
        }
    }
}

/// No neighbour is listed twice.
pub proof fn lemma_neighbours_distinct(x: usize, y: usize, w: usize, h: usize)
    ensures
        grid_neighbours(x, y, w, h).no_duplicates(),
{
    lemma_upto_distinct(x, y, w, h, 8);
}

/// A rearrangement of a list holds the same cells, and none twice where the
/// list holds none twice.
pub proof fn lemma_arranged(
    cells: Seq<(usize, usize)>,
    canonical: Seq<(usize, usize)>,
    shuffle_chance: u8,
)
    requires
        arranged(cells, canonical, shuffle_chance),
    ensures
        cells.len() == canonical.len(),
        forall|c: (usize, usize)| cells.contains(c) <==> canonical.contains(c),
        canonical.no_duplicates() ==> cells.no_duplicates(),
{
    broadcast use vstd::seq_lib::group_to_multiset_ensures;

    assert(cells.len() == cells.to_multiset().len());
    assert(canonical.len() == canonical.to_multiset().len());
    assert forall|c: (usize, usize)| cells.contains(c) <==> canonical.contains(c) by {
        assert(cells.to_multiset().count(c) == canonical.to_multiset().count(c));
    }
    if canonical.no_duplicates() {
        canonical.lemma_multiset_has_no_duplicates();
        cells.lemma_multiset_has_no_duplicates_conv();
    }
}

} // verus!
