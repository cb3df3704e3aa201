//! Collectible orb placement: orbs are spawned at the centers of
//! randomly chosen "safe" cells — traversable cells none of whose
//! in-bounds neighbours is a wall — so no orb sits half inside a wall.

use vstd::prelude::*;
use crate::grid::Cell;
use crate::grid::Grid;

verus! {

/// A collectible orb at a world position (milli-units).
pub struct Orb {
    pub x: i64,
    pub y: i64,
    pub active: bool,
}

/// A safe spawn cell: traversable, and no in-bounds neighbour is a
/// wall (neighbours beyond the grid edge are ignored).
pub open spec fn is_safe_cell(g: Grid, i: int, j: int) -> bool {
    &&& g.traversable(i, j)
    &&& (g.in_bounds(i + 1, j) ==> g.cell(i + 1, j) != Cell::Wall)
    &&& (g.in_bounds(i - 1, j) ==> g.cell(i - 1, j) != Cell::Wall)
    &&& (g.in_bounds(i, j + 1) ==> g.cell(i, j + 1) != Cell::Wall)
    &&& (g.in_bounds(i, j - 1) ==> g.cell(i, j - 1) != Cell::Wall)
}

/// Whether the cell (i, j) is a safe spawn cell.
pub fn safe_cell(g: &Grid, i: usize, j: usize) -> (r: bool)
    requires
        g.wf(),
    ensures
        r == is_safe_cell(*g, i as int, j as int),
{
    if !g.is_traversable(i, j) {
        return false;
    }
    if i + 1 < g.width && g.cell_at(i + 1, j) == Cell::Wall {
        return false;
    }
    if i > 0 && g.cell_at(i - 1, j) == Cell::Wall {
        return false;
    }
    if j + 1 < g.height && g.cell_at(i, j + 1) == Cell::Wall {
        return false;
    }
    if j > 0 && g.cell_at(i, j - 1) == Cell::Wall {
        return false;
    }
    true
}

/// All safe spawn cells of the grid, in row-major order, each once.
pub fn safe_cells(g: &Grid) -> (r: Vec<(usize, usize)>)
    requires
        g.wf(),
    ensures
        forall|k: int|
            0 <= k < r@.len() ==> (#[trigger] r@[k]).0 < g.width && r@[k].1 < g.height
                && is_safe_cell(*g, r@[k].0 as int, r@[k].1 as int),
        forall|i: int, j: int|
            0 <= i < g.width && 0 <= j < g.height && #[trigger] is_safe_cell(*g, i, j)
                ==> exists|k: int|
                0 <= k < r@.len() && ((#[trigger] r@[k]).0 as int == i && r@[k].1 as int == j),
        forall|k1: int, k2: int| 0 <= k1 < k2 < r@.len() ==> r@[k1] != r@[k2],
{
    let mut r: Vec<(usize, usize)> = Vec::new();
    let mut j: usize = 0;
    while j < g.height
        invariant
            g.wf(),
            j <= g.height,
            forall|k: int|
                0 <= k < r@.len() ==> (#[trigger] r@[k]).0 < g.width && r@[k].1 < g.height
                    && is_safe_cell(*g, r@[k].0 as int, r@[k].1 as int),
            forall|i2: int, j2: int|
                0 <= i2 < g.width && 0 <= j2 < j && #[trigger] is_safe_cell(*g, i2, j2)
                    ==> exists|k: int|
                    0 <= k < r@.len() && ((#[trigger] r@[k]).0 as int == i2 && r@[k].1 as int
                        == j2),
            forall|k: int| 0 <= k < r@.len() ==> ((#[trigger] r@[k]).1 as int) < j,
            forall|k1: int, k2: int| 0 <= k1 < k2 < r@.len() ==> r@[k1] != r@[k2],
        decreases g.height - j,
    {
        let mut i: usize = 0;
        while i < g.width
            invariant
                g.wf(),
                j < g.height,
                i <= g.width,
                forall|k: int|
                    0 <= k < r@.len() ==> (#[trigger] r@[k]).0 < g.width && r@[k].1 < g.height
                        && is_safe_cell(*g, r@[k].0 as int, r@[k].1 as int),
                forall|i2: int, j2: int|
                    0 <= i2 < g.width && 0 <= j2 < j && #[trigger] is_safe_cell(*g, i2, j2)
                        ==> exists|k: int|
                        0 <= k < r@.len() && ((#[trigger] r@[k]).0 as int == i2 && r@[k].1 as int
                            == j2),
                forall|i2: int|
                    0 <= i2 < i && #[trigger] is_safe_cell(*g, i2, j as int) ==> exists|k: int|
                        0 <= k < r@.len() && ((#[trigger] r@[k]).0 as int == i2 && r@[k].1 as int
                            == j as int),
                forall|k: int|
                    0 <= k < r@.len() ==> ((#[trigger] r@[k]).1 as int) < j || (r@[k].1 as int
                        == j as int && (r@[k].0 as int) < i),
                forall|k1: int, k2: int| 0 <= k1 < k2 < r@.len() ==> r@[k1] != r@[k2],
            decreases g.width - i,
        {
            if safe_cell(g, i, j) {
                let ghost r0 = r@;
                r.push((i, j));
                proof {
                    assert(r@[r@.len() - 1] == (i, j));
                    assert(forall|k: int| 0 <= k < r0.len() ==> r@[k] == r0[k]);
                }
            }
            i += 1;
        }
        j += 1;
    }
    r
}

/// Relies on rand's `SliceRandom::shuffle` (a Fisher-Yates pass built
/// from in-place swaps driven by the thread-local generator): the
/// elements afterwards are exactly the elements before, reordered.
#[verifier::external_body]
fn shuffle_cells(v: &mut Vec<(usize, usize)>)
    ensures
        final(v)@.len() == old(v)@.len(),
        final(v)@.to_multiset() == old(v)@.to_multiset(),
{
    rand::seq::SliceRandom::shuffle(v.as_mut_slice(), &mut rand::thread_rng());
}

/// An orb sitting exactly at the center of some safe spawn cell.
pub open spec fn orb_at_safe_center(g: Grid, o: Orb) -> bool {
    exists|i: int, j: int|
        #[trigger] is_safe_cell(g, i, j) && g.in_bounds(i, j) && o.x == g.center_x(i) && o.y
            == g.center_y(j)
}

proof fn lemma_center_injective(g: Grid, i1: int, j1: int, i2: int, j2: int)
    requires
        g.wf(),
        g.in_bounds(i1, j1),
        g.in_bounds(i2, j2),
        g.center_x(i1) == g.center_x(i2),
        g.center_y(j1) == g.center_y(j2),
    ensures
        i1 == i2 && j1 == j2,
{
    assert(i1 == i2 && j1 == j2) by (nonlinear_arith)
        requires
            i1 * (g.block * 1000) == i2 * (g.block * 1000),
            j1 * (g.block * 1000) == j2 * (g.block * 1000),
            g.block >= 1,
    ;
}

/// Spawn up to `count` orbs, one per safe spawn cell, at cell
/// centers, in an order decided by the random shuffle.  Every orb sits
/// on a distinct safe cell's center; fewer than `count` orbs are
/// returned only when every safe cell already holds one.
pub fn spawn_orbs_in_empty_cells(g: &Grid, count: usize) -> (r: Vec<Orb>)
    requires
        g.wf(),
    ensures
        r@.len() <= count,
        forall|k: int|
            0 <= k < r@.len() ==> (#[trigger] r@[k]).active && orb_at_safe_center(*g, r@[k]),
        r@.len() < count ==> forall|i: int, j: int|
            0 <= i < g.width && 0 <= j < g.height && #[trigger] is_safe_cell(*g, i, j)
                ==> exists|k: int|
                0 <= k < r@.len() && (#[trigger] r@[k]).x == g.center_x(i) && r@[k].y
                    == g.center_y(j),
        forall|k1: int, k2: int|
            0 <= k1 < k2 < r@.len() ==> ((#[trigger] r@[k1]).x, r@[k1].y) != ((
            #[trigger] r@[k2]).x, r@[k2].y),
{
    let mut cells = safe_cells(g);
    let ghost cells0 = cells@;
    shuffle_cells(&mut cells);
    proof {
        cells0.to_multiset_ensures();
        cells@.to_multiset_ensures();
        assert(cells0.no_duplicates());
        cells0.lemma_multiset_has_no_duplicates();
        cells@.lemma_multiset_has_no_duplicates_conv();
        assert forall|k: int| 0 <= k < cells@.len() implies (#[trigger] cells@[k]).0 < g.width
            && cells@[k].1 < g.height && is_safe_cell(
            *g,
            cells@[k].0 as int,
            cells@[k].1 as int,
        ) by {
            assert(cells@.contains(cells@[k]));
            assert(cells@.to_multiset().count(cells@[k]) > 0);
            assert(cells0.contains(cells@[k]));
            let t = choose|t: int| 0 <= t < cells0.len() && cells0[t] == cells@[k];
            assert(cells0[t].0 < g.width);
        }
        assert forall|i: int, j: int|
            0 <= i < g.width && 0 <= j < g.height && #[trigger] is_safe_cell(
                *g,
                i,
                j,
            ) implies exists|k: int|
            0 <= k < cells@.len() && ((#[trigger] cells@[k]).0 as int == i && cells@[k].1 as int
                == j) by {
            let t = choose|t: int|
                0 <= t < cells0.len() && ((#[trigger] cells0[t]).0 as int == i
                    && cells0[t].1 as int == j);
            assert(cells0.contains(cells0[t]));
            assert(cells0.to_multiset().count(cells0[t]) > 0);
            assert(cells@.contains(cells0[t]));
            let k = choose|k: int| 0 <= k < cells@.len() && cells@[k] == cells0[t];
            assert(cells@[k].0 as int == i && cells@[k].1 as int == j);
        }
    }
    let span: i64 = g.block * 1000;
    let mut r: Vec<Orb> = Vec::new();
    let mut k: usize = 0;
    while k < cells.len() && r.len() < count
        invariant
            g.wf(),
            span == g.block * 1000,
            k <= cells@.len(),
            r@.len() <= count,
            r@.len() == if k <= count {
                k as int
            } else {
                count as int
            },
            forall|t: int|
                0 <= t < cells@.len() ==> (#[trigger] cells@[t]).0 < g.width && cells@[t].1
                    < g.height && is_safe_cell(*g, cells@[t].0 as int, cells@[t].1 as int),
            forall|t1: int, t2: int| 0 <= t1 < t2 < cells@.len() ==> cells@[t1] != cells@[t2],
            forall|t: int|
                0 <= t < r@.len() ==> (#[trigger] r@[t]).active && r@[t].x == g.center_x(
                    cells@[t].0 as int,
                ) && r@[t].y == g.center_y(cells@[t].1 as int),
        decreases cells@.len() - k,
    {
        let (ci, cj) = cells[k];
        proof {
            assert((ci as int) * (span as int) <= 999_000_000 && (cj as int) * (span as int)
                <= 999_000_000 && (ci as int) * (span as int) >= 0 && (cj as int) * (
            span as int) >= 0) by (nonlinear_arith)
                requires
                    0 <= (ci as int) <= 999,
                    0 <= (cj as int) <= 999,
                    0 < (span as int) <= 1_000_000,
            ;
        }
        let ox: i64 = (ci as i64) * span + g.block * 500;
        let oy: i64 = (cj as i64) * span + g.block * 500;
        r.push(Orb { x: ox, y: oy, active: true });
        k += 1;
    }
    proof {
        assert forall|t: int| 0 <= t < r@.len() implies (#[trigger] r@[t]).active
            && orb_at_safe_center(*g, r@[t]) by {
            assert(is_safe_cell(*g, cells@[t].0 as int, cells@[t].1 as int));
            assert(r@[t].x == g.center_x(cells@[t].0 as int) && r@[t].y == g.center_y(
                cells@[t].1 as int,
            ));
        }
        if r@.len() < count {
            assert(k == cells@.len());
            assert forall|i: int, j: int|
                0 <= i < g.width && 0 <= j < g.height && #[trigger] is_safe_cell(
                    *g,
                    i,
                    j,
                ) implies exists|t: int|
                0 <= t < r@.len() && (#[trigger] r@[t]).x == g.center_x(i) && r@[t].y
                    == g.center_y(j) by {
                let t = choose|t: int|
                    0 <= t < cells@.len() && ((#[trigger] cells@[t]).0 as int == i
                        && cells@[t].1 as int == j);
                assert(r@[t].x == g.center_x(i) && r@[t].y == g.center_y(j));
            }
        }
        assert forall|k1: int, k2: int| 0 <= k1 < k2 < r@.len() implies ((
        #[trigger] r@[k1]).x, r@[k1].y) != ((#[trigger] r@[k2]).x, r@[k2].y) by {
            if (r@[k1].x, r@[k1].y) == (r@[k2].x, r@[k2].y) {
                lemma_center_injective(
                    *g,
                    cells@[k1].0 as int,
                    cells@[k1].1 as int,
                    cells@[k2].0 as int,
                    cells@[k2].1 as int,
                );
                assert(cells@[k1] == cells@[k2]);
                assert(false);
            }
        }
    }
    r
}

/// The number of traversable cells among the first `n` of the flat
/// cell array.
pub open spec fn free_cells_in_prefix(g: Grid, n: int) -> int
    decreases n,
{
    if n <= 0 {
        0
    } else {
        free_cells_in_prefix(g, n - 1) + if g.cells@[n - 1] != Cell::Wall {
            1int
        } else {
            0int
        }
    }
}

/// Count the traversable (open or exit) cells of the grid.
pub fn count_free_cells(g: &Grid) -> (r: usize)
    requires
        g.wf(),
    ensures
        r as int == free_cells_in_prefix(*g, g.cells@.len() as int),
{
    let mut r: usize = 0;
    let mut k: usize = 0;
    let end = g.cells.len();
    while k < end
        invariant
            g.wf(),
            k <= end,
            end == g.cells@.len(),
            r <= k,
            r as int == free_cells_in_prefix(*g, k as int),
        decreases end - k,
    {
        if g.cells[k] != Cell::Wall {
            r += 1;
        }
        k += 1;
    }
    r
}

/// How many orbs a level should hold: a fifth of the free cells,
/// clamped between 20 and 180.
pub fn desired_orb_count(free: usize) -> (r: usize)
    ensures
        r as int == if free as int / 5 < 20 {
            20int
        } else if free as int / 5 > 180 {
            180int
        } else {
            free as int / 5
        },
{
    let base = free / 5;
    if base < 20 {
        20
    } else if base > 180 {
        180
    } else {
        base
    }
}

} // verus!
