//! The static world: a rectangular grid of square cells, each open,
//! solid wall, or the level exit.  Built once from a line-oriented
//! character layout and read-only afterwards.

use vstd::prelude::*;

verus! {

/// One grid cell.
#[derive(Clone, Copy, Debug, PartialEq, Eq, Structural)]
pub enum Cell {
    Open,
    Wall,
    Exit,
}

/// How a layout character maps to a cell: space and tab are open
/// floor, `g` is the exit, anything else is solid wall.
pub open spec fn char_to_cell(c: char) -> Cell {
    if c == ' ' || c == '\t' {
        Cell::Open
    } else if c == 'g' {
        Cell::Exit
    } else {
        Cell::Wall
    }
}

/// The rectangular world grid.  `cells` is stored row-major with
/// `width * height` entries; `block` is the side of one cell in whole
/// world units (positions elsewhere are in milli-units).
pub struct Grid {
    pub cells: Vec<Cell>,
    pub width: usize,
    pub height: usize,
    pub block: i64,
}

impl Grid {
    /// Structural validity: the flat storage matches the dimensions
    /// and the dimensions are small enough that every world coordinate
    /// inside the grid stays below 10^9 milli-units.
    pub open spec fn wf(self) -> bool {
        &&& self.cells@.len() == self.width * self.height
        &&& 1 <= self.width <= 1000
        &&& 1 <= self.height <= 1000
        &&& 1 <= self.block <= 1000
    }

    pub open spec fn in_bounds(self, i: int, j: int) -> bool {
        0 <= i < self.width && 0 <= j < self.height
    }

    /// The cell in column `i`, row `j` (meaningful when in bounds).
    pub open spec fn cell(self, i: int, j: int) -> Cell {
        self.cells@[j * self.width + i]
    }

    /// A cell a mover may stand in: in bounds and not a wall (the
    /// exit counts as floor for every mover, as for the ray query).
    pub open spec fn traversable(self, i: int, j: int) -> bool {
        self.in_bounds(i, j) && self.cell(i, j) != Cell::Wall
    }

    /// The side of one cell in milli-units.
    pub open spec fn cell_span(self) -> int {
        self.block * 1000
    }

    /// Column of the world x-coordinate `x` (in milli-units, x >= 0).
    pub open spec fn col_of(self, x: int) -> int {
        x / self.cell_span()
    }

    /// Row of the world y-coordinate `y` (in milli-units, y >= 0).
    pub open spec fn row_of(self, y: int) -> int {
        y / self.cell_span()
    }

    /// The world point (x, y) lies in a traversable cell.  Points with
    /// a negative coordinate or beyond the grid are not traversable.
    pub open spec fn point_traversable(self, x: int, y: int) -> bool {
        0 <= x && 0 <= y && self.traversable(self.col_of(x), self.row_of(y))
    }

    /// The world point (x, y) lies in the exit cell.
    pub open spec fn point_exit(self, x: int, y: int) -> bool {
        0 <= x && 0 <= y && self.in_bounds(self.col_of(x), self.row_of(y))
            && self.cell(self.col_of(x), self.row_of(y)) == Cell::Exit
    }

    /// Center of the cell in column `i`, x-coordinate in milli-units.
    pub open spec fn center_x(self, i: int) -> int {
        i * self.cell_span() + self.block * 500
    }

    /// Center of the cell in row `j`, y-coordinate in milli-units.
    pub open spec fn center_y(self, j: int) -> int {
        j * self.cell_span() + self.block * 500
    }

    pub open spec fn has_exit(self) -> bool {
        exists|i: int, j: int|
            self.in_bounds(i, j) && #[trigger] self.cell(i, j) == Cell::Exit
    }

    /// Read one cell.
    pub fn cell_at(&self, i: usize, j: usize) -> (c: Cell)
        requires
            self.wf(),
            i < self.width,
            j < self.height,
        ensures
            c == self.cell(i as int, j as int),
    {
        proof {
            assert((j as int) * (self.width as int) + (i as int) < (self.width as int) * (
            self.height as int) && (j as int) * (self.width as int) + (i as int) < 1_000_000)
                by (nonlinear_arith)
                requires
                    0 <= (i as int) < (self.width as int) <= 1000,
                    0 <= (j as int) < (self.height as int) <= 1000,
            ;
        }
        self.cells[j * self.width + i]
    }

    /// Whether the cell in column `i`, row `j` is traversable;
    /// out-of-range indices are not.
    pub fn is_traversable(&self, i: usize, j: usize) -> (r: bool)
        requires
            self.wf(),
        ensures
            r == self.traversable(i as int, j as int),
    {
        if i >= self.width || j >= self.height {
            return false;
        }
        self.cell_at(i, j) != Cell::Wall
    }

    /// Whether the world point (x, y), in milli-units, lies in a
    /// traversable cell.
    pub fn point_free(&self, x: i64, y: i64) -> (r: bool)
        requires
            self.wf(),
        ensures
            r == self.point_traversable(x as int, y as int),
    {
        if x < 0 || y < 0 {
            return false;
        }
        let span: i64 = self.block * 1000;
        let i: i64 = x / span;
        let j: i64 = y / span;
        if i >= self.width as i64 || j >= self.height as i64 {
            proof {
                vstd::arithmetic::div_mod::lemma_div_pos_is_pos(x as int, span as int);
                vstd::arithmetic::div_mod::lemma_div_pos_is_pos(y as int, span as int);
            }
            return false;
        }
        proof {
            vstd::arithmetic::div_mod::lemma_div_pos_is_pos(x as int, span as int);
            vstd::arithmetic::div_mod::lemma_div_pos_is_pos(y as int, span as int);
        }
        self.cell_at(i as usize, j as usize) != Cell::Wall
    }

    /// Whether the world point (x, y), in milli-units, lies in the
    /// exit cell.
    pub fn point_is_exit(&self, x: i64, y: i64) -> (r: bool)
        requires
            self.wf(),
        ensures
            r == self.point_exit(x as int, y as int),
    {
        if x < 0 || y < 0 {
            return false;
        }
        let span: i64 = self.block * 1000;
        let i: i64 = x / span;
        let j: i64 = y / span;
        proof {
            vstd::arithmetic::div_mod::lemma_div_pos_is_pos(x as int, span as int);
            vstd::arithmetic::div_mod::lemma_div_pos_is_pos(y as int, span as int);
        }
        if i >= self.width as i64 || j >= self.height as i64 {
            return false;
        }
        self.cell_at(i as usize, j as usize) == Cell::Exit
    }
}

/// The non-empty rows of a character layout, in order.
pub open spec fn kept_rows(rows: Seq<Seq<char>>) -> Seq<Seq<char>>
    decreases rows.len(),
{
    if rows.len() == 0 {
        Seq::empty()
    } else if rows.last().len() > 0 {
        kept_rows(rows.drop_last()).push(rows.last())
    } else {
        kept_rows(rows.drop_last())
    }
}

/// The longest row length in a layout.
pub open spec fn max_row_len(rows: Seq<Seq<char>>) -> int
    decreases rows.len(),
{
    if rows.len() == 0 {
        0
    } else if rows.last().len() > max_row_len(rows.drop_last()) {
        rows.last().len() as int
    } else {
        max_row_len(rows.drop_last())
    }
}

/// The cell a layout yields at column `i` of kept row `j`: the mapped
/// character, or wall padding past the end of a short row.
pub open spec fn loaded_cell(kept: Seq<Seq<char>>, i: int, j: int) -> Cell {
    if i < kept[j].len() {
        char_to_cell(kept[j][i])
    } else {
        Cell::Wall
    }
}

/// View of a list of rows as a sequence of character sequences.
pub open spec fn lines_view(rows: Seq<Vec<char>>) -> Seq<Seq<char>> {
    rows.map_values(|r: Vec<char>| r@)
}

/// Some in-range position of the loaded layout maps to `what`.
pub open spec fn loaded_has(kept: Seq<Seq<char>>, w: int, h: int, what: Cell) -> bool {
    exists|i: int, j: int|
        0 <= i < w && 0 <= j < h && #[trigger] loaded_cell(kept, i, j) == what
}

pub proof fn lemma_kept_rows_len(rows: Seq<Seq<char>>)
    ensures
        kept_rows(rows).len() <= rows.len(),
    decreases rows.len(),
{
    if rows.len() > 0 {
        lemma_kept_rows_len(rows.drop_last());
    }
}

pub proof fn lemma_max_row_len_bound(rows: Seq<Seq<char>>, cap: int)
    requires
        forall|k: int| 0 <= k < rows.len() ==> #[trigger] rows[k].len() <= cap,
        0 <= cap,
    ensures
        0 <= max_row_len(rows) <= cap,
    decreases rows.len(),
{
    if rows.len() > 0 {
        assert(forall|k: int|
            0 <= k < rows.drop_last().len() ==> #[trigger] rows.drop_last()[k].len() <= cap);
        lemma_max_row_len_bound(rows.drop_last(), cap);
    }
}

pub proof fn lemma_max_row_len_ge(rows: Seq<Seq<char>>, k: int)
    requires
        0 <= k < rows.len(),
    ensures
        max_row_len(rows) >= rows[k].len(),
    decreases rows.len(),
{
    if k < rows.len() - 1 {
        lemma_max_row_len_ge(rows.drop_last(), k);
    }
}

pub proof fn lemma_kept_rows_nonempty(rows: Seq<Seq<char>>)
    ensures
        forall|k: int|
            0 <= k < kept_rows(rows).len() ==> #[trigger] kept_rows(rows)[k].len() > 0,
    decreases rows.len(),
{
    if rows.len() > 0 {
        lemma_kept_rows_nonempty(rows.drop_last());
        let kr = kept_rows(rows);
        let pre = kept_rows(rows.drop_last());
        assert forall|k: int| 0 <= k < kr.len() implies #[trigger] kr[k].len() > 0 by {
            if rows.last().len() > 0 {
                if k < pre.len() {
                    assert(kr[k] == pre[k]);
                } else {
                    assert(kr[k] == rows.last());
                }
            } else {
                assert(kr[k] == pre[k]);
            }
        }
    }
}

pub proof fn lemma_kept_rows_bound(rows: Seq<Seq<char>>, cap: int)
    requires
        forall|k: int| 0 <= k < rows.len() ==> #[trigger] rows[k].len() <= cap,
    ensures
        forall|k: int|
            0 <= k < kept_rows(rows).len() ==> #[trigger] kept_rows(rows)[k].len() <= cap,
    decreases rows.len(),
{
    if rows.len() > 0 {
        assert(forall|k: int|
            0 <= k < rows.drop_last().len() ==> #[trigger] rows.drop_last()[k].len() <= cap);
        lemma_kept_rows_bound(rows.drop_last(), cap);
        let kr = kept_rows(rows);
        let pre = kept_rows(rows.drop_last());
        assert forall|k: int| 0 <= k < kr.len() implies #[trigger] kr[k].len() <= cap by {
            if rows.last().len() > 0 {
                if k < pre.len() {
                    assert(kr[k] == pre[k]);
                } else {
                    assert(kr[k] == rows.last());
                    assert(rows.last().len() <= cap);
                }
            } else {
                assert(kr[k] == pre[k]);
            }
        }
    }
}

/// Map one layout character to its cell.
pub fn map_char(c: char) -> (r: Cell)
    ensures
        r == char_to_cell(c),
{
    if c == ' ' || c == '\t' {
        Cell::Open
    } else if c == 'g' {
        Cell::Exit
    } else {
        Cell::Wall
    }
}

/// First pass of loading: keep the non-empty rows and find the widest.
fn collect_rows(rows: &Vec<Vec<char>>) -> (out: (Vec<Vec<char>>, usize))
    requires
        rows@.len() <= 1000,
        forall|k: int| 0 <= k < rows@.len() ==> #[trigger] rows@[k].len() <= 1000,
    ensures
        lines_view(out.0@) == kept_rows(lines_view(rows@)),
        out.0@.len() <= rows@.len(),
        out.1 as int == max_row_len(kept_rows(lines_view(rows@))),
        out.1 <= 1000,
{
    let mut kept: Vec<Vec<char>> = Vec::new();
    let mut maxw: usize = 0;
    let mut k: usize = 0;
    proof {
        assert(lines_view(rows@.take(0)) =~~= Seq::<Seq<char>>::empty());
        assert(lines_view(kept@) =~~= kept_rows(lines_view(rows@.take(0))));
    }
    while k < rows.len()
        invariant
            k <= rows@.len(),
            rows@.len() <= 1000,
            forall|t: int| 0 <= t < rows@.len() ==> #[trigger] rows@[t].len() <= 1000,
            lines_view(kept@) == kept_rows(lines_view(rows@.take(k as int))),
            maxw as int == max_row_len(lines_view(kept@)),
            kept@.len() <= k,
            maxw <= 1000,
        decreases rows@.len() - k,
    {
        let ghost pre = lines_view(rows@.take(k as int));
        let ghost post = lines_view(rows@.take(k as int + 1));
        proof {
            assert(post.drop_last() =~~= pre);
            assert(post.last() == rows@[k as int]@);
        }
        let row = &rows[k];
        if row.len() > 0 {
            let mut copy: Vec<char> = Vec::new();
            let mut t: usize = 0;
            while t < row.len()
                invariant
                    t <= row@.len(),
                    copy@ == row@.take(t as int),
                    row == &rows[k as int],
                    k < rows@.len(),
                decreases row@.len() - t,
            {
                copy.push(row[t]);
                proof {
                    assert(copy@ =~= row@.take(t as int + 1));
                }
                t += 1;
            }
            proof {
                assert(copy@ =~= row@);
            }
            let ghost oldkept = kept@;
            if copy.len() > maxw {
                maxw = copy.len();
            }
            kept.push(copy);
            proof {
                assert(lines_view(kept@) =~~= lines_view(oldkept).push(rows@[k as int]@));
                assert(kept_rows(post) == kept_rows(post.drop_last()).push(post.last()));
                assert(lines_view(kept@) =~~= kept_rows(post));
                assert(lines_view(kept@).drop_last() =~~= lines_view(oldkept));
            }
        } else {
            proof {
                assert(kept_rows(post) == kept_rows(post.drop_last()));
                assert(lines_view(kept@) =~~= kept_rows(post));
            }
        }
        k += 1;
    }
    proof {
        assert(rows@.take(rows@.len() as int) =~~= rows@);
        assert(lines_view(rows@.take(rows@.len() as int)) =~~= lines_view(rows@));
    }
    (kept, maxw)
}

/// The cell at column `i`, row `j` of a row-major array of width `w`.
pub open spec fn flat_cell(cells: Seq<Cell>, w: int, i: int, j: int) -> Cell {
    cells[j * w + i]
}

/// Second pass of loading: the padded row-major cell array.
fn fill_cells(kept: &Vec<Vec<char>>, w: usize) -> (cells: Vec<Cell>)
    requires
        1 <= w <= 1000,
        kept@.len() <= 1000,
        forall|j: int| 0 <= j < kept@.len() ==> #[trigger] kept@[j].len() <= w,
    ensures
        cells@.len() == kept@.len() * w,
        forall|i: int, j: int|
            0 <= i < w && 0 <= j < kept@.len() ==> #[trigger] flat_cell(cells@, w as int, i, j)
                == loaded_cell(lines_view(kept@), i, j),
{
    let h = kept.len();
    let mut cells: Vec<Cell> = Vec::new();
    let mut j: usize = 0;
    proof {
        assert(kept@.len() * w <= 1_000_000) by (nonlinear_arith)
            requires
                kept@.len() <= 1000,
                w <= 1000,
        ;
    }
    while j < h
        invariant
            j <= h,
            h == kept@.len(),
            1 <= w <= 1000,
            kept@.len() <= 1000,
            forall|t: int| 0 <= t < kept@.len() ==> #[trigger] kept@[t].len() <= w,
            cells@.len() == j * w,
            kept@.len() * w <= 1_000_000,
            forall|i2: int, j2: int|
                0 <= i2 < w && 0 <= j2 < j ==> #[trigger] flat_cell(cells@, w as int, i2, j2)
                    == loaded_cell(lines_view(kept@), i2, j2),
        decreases h - j,
    {
        proof {
            assert((j as int) * (w as int) + (w as int) == ((j as int) + 1) * (w as int))
                by (nonlinear_arith);
            assert(((j as int) + 1) * (w as int) <= kept@.len() * w) by (nonlinear_arith)
                requires
                    (j as int) + 1 <= kept@.len(),
                    1 <= (w as int),
            ;
        }
        let row = &kept[j];
        let mut i: usize = 0;
        while i < w
            invariant
                i <= w,
                j < h,
                h == kept@.len(),
                1 <= w <= 1000,
                kept@.len() <= 1000,
                row == &kept@[j as int],
                forall|t: int| 0 <= t < kept@.len() ==> #[trigger] kept@[t].len() <= w,
                cells@.len() == j * w + i,
                (j as int) * (w as int) + (w as int) <= 1_000_000,
                forall|i2: int, j2: int|
                    0 <= i2 < w && 0 <= j2 < j ==> #[trigger] flat_cell(cells@, w as int, i2, j2)
                        == loaded_cell(lines_view(kept@), i2, j2),
                forall|i2: int|
                    0 <= i2 < i ==> #[trigger] flat_cell(cells@, w as int, i2, j as int)
                        == loaded_cell(lines_view(kept@), i2, j as int),
            decreases w - i,
        {
            let ghost oldc = cells@;
            let c = if i < row.len() {
                map_char(row[i])
            } else {
                Cell::Wall
            };
            proof {
                assert(c == loaded_cell(lines_view(kept@), i as int, j as int));
            }
            cells.push(c);
            proof {
                assert forall|i2: int, j2: int|
                    0 <= i2 < w && 0 <= j2 < j implies #[trigger] flat_cell(
                    cells@,
                    w as int,
                    i2,
                    j2,
                ) == loaded_cell(lines_view(kept@), i2, j2) by {
                    assert(0 <= j2 * (w as int) + i2 < (j as int) * (w as int))
                        by (nonlinear_arith)
                        requires
                            0 <= i2 < (w as int),
                            0 <= j2,
                            j2 + 1 <= (j as int),
                            1 <= (w as int),
                    ;
                    assert(flat_cell(cells@, w as int, i2, j2) == flat_cell(
                        oldc,
                        w as int,
                        i2,
                        j2,
                    ));
                }
                assert forall|i2: int| 0 <= i2 < i + 1 implies #[trigger] flat_cell(
                    cells@,
                    w as int,
                    i2,
                    j as int,
                ) == loaded_cell(lines_view(kept@), i2, j as int) by {
                    if i2 < i {
                        assert(0 <= (j as int) * (w as int) + i2 < oldc.len());
                        assert(flat_cell(cells@, w as int, i2, j as int) == flat_cell(
                            oldc,
                            w as int,
                            i2,
                            j as int,
                        ));
                    } else {
                        assert((j as int) * (w as int) + i2 == oldc.len());
                        assert(flat_cell(cells@, w as int, i2, j as int) == c);
                    }
                }
            }
            i += 1;
        }
        j += 1;
    }
    cells
}

/// Third pass of loading: if no exit is present but an open cell is,
/// turn the open cell farthest from the origin (by squared index
/// distance) into the exit and report its position.
fn synthesize_exit(cells: &mut Vec<Cell>, w: usize, h: usize) -> (r: Option<(usize, usize)>)
    requires
        1 <= w <= 1000,
        1 <= h <= 1000,
        old(cells)@.len() == h * w,
    ensures
        final(cells)@.len() == old(cells)@.len(),
        r is None ==> final(cells)@ == old(cells)@,
        r is None ==> ((exists|i: int, j: int|
            0 <= i < w && 0 <= j < h && #[trigger] flat_cell(old(cells)@, w as int, i, j)
                == Cell::Exit) || !(exists|i: int, j: int|
            0 <= i < w && 0 <= j < h && #[trigger] flat_cell(old(cells)@, w as int, i, j)
                == Cell::Open)),
        r matches Some(b) ==> {
            &&& (b.0 as int) < w
            &&& (b.1 as int) < h
            &&& flat_cell(old(cells)@, w as int, b.0 as int, b.1 as int) == Cell::Open
            &&& final(cells)@ == old(cells)@.update((b.1 as int) * w + (b.0 as int), Cell::Exit)
            &&& !(exists|i: int, j: int|
                0 <= i < w && 0 <= j < h && #[trigger] flat_cell(old(cells)@, w as int, i, j)
                    == Cell::Exit)
            &&& forall|i: int, j: int|
                0 <= i < w && 0 <= j < h && #[trigger] flat_cell(old(cells)@, w as int, i, j)
                    == Cell::Open ==> i * i + j * j <= (b.0 as int) * (b.0 as int) + (b.1 as int)
                    * (b.1 as int)
        },
{
    let mut found_exit = false;
    let mut has_best = false;
    let mut bi: usize = 0;
    let mut bj: usize = 0;
    let mut bd: usize = 0;
    let mut j: usize = 0;
    proof {
        assert(h * w <= 1_000_000) by (nonlinear_arith)
            requires
                h <= 1000,
                w <= 1000,
        ;
    }
    while j < h
        invariant
            j <= h,
            1 <= w <= 1000,
            1 <= h <= 1000,
            cells@.len() == h * w,
            cells@ == old(cells)@,
            h * w <= 1_000_000,
            found_exit == exists|i2: int, j2: int|
                0 <= i2 < w && 0 <= j2 < j && #[trigger] flat_cell(cells@, w as int, i2, j2)
                    == Cell::Exit,
            has_best == exists|i2: int, j2: int|
                0 <= i2 < w && 0 <= j2 < j && #[trigger] flat_cell(cells@, w as int, i2, j2)
                    == Cell::Open,
            has_best ==> {
                &&& bi < w
                &&& bj < j
                &&& flat_cell(cells@, w as int, bi as int, bj as int) == Cell::Open
                &&& bd == bi * bi + bj * bj
                &&& forall|i2: int, j2: int|
                    0 <= i2 < w && 0 <= j2 < j && #[trigger] flat_cell(cells@, w as int, i2, j2)
                        == Cell::Open ==> i2 * i2 + j2 * j2 <= bd
            },
        decreases h - j,
    {
        let mut i: usize = 0;
        proof {
            assert((j as int) * (w as int) + (w as int) <= (h as int) * (w as int))
                by (nonlinear_arith)
                requires
                    (j as int) + 1 <= (h as int),
                    1 <= (w as int),
            ;
        }
        while i < w
            invariant
                i <= w,
                j < h,
                1 <= w <= 1000,
                1 <= h <= 1000,
                cells@.len() == h * w,
                cells@ == old(cells)@,
                (j as int) * (w as int) + (w as int) <= (h as int) * (w as int),
                h * w <= 1_000_000,
                found_exit == exists|i2: int, j2: int|
                    0 <= i2 < w && ((0 <= j2 < j) || (j2 == j && 0 <= i2 < i))
                        && #[trigger] flat_cell(cells@, w as int, i2, j2) == Cell::Exit,
                has_best == exists|i2: int, j2: int|
                    0 <= i2 < w && ((0 <= j2 < j) || (j2 == j && 0 <= i2 < i))
                        && #[trigger] flat_cell(cells@, w as int, i2, j2) == Cell::Open,
                has_best ==> {
                    &&& bi < w
                    &&& (bj < j || (bj == j && bi < i))
                    &&& flat_cell(cells@, w as int, bi as int, bj as int) == Cell::Open
                    &&& bd == bi * bi + bj * bj
                    &&& forall|i2: int, j2: int|
                        0 <= i2 < w && ((0 <= j2 < j) || (j2 == j && 0 <= i2 < i))
                            && #[trigger] flat_cell(cells@, w as int, i2, j2) == Cell::Open ==> i2
                            * i2 + j2 * j2 <= bd
                },
            decreases w - i,
        {
            proof {
                assert(0 <= (j as int) * (w as int) + (i as int) < (h as int) * (w as int))
                    by (nonlinear_arith)
                    requires
                        0 <= (i as int) < (w as int),
                        0 <= (j as int) < (h as int),
                ;
            }
            let c = cells[j * w + i];
            proof {
                assert(c == flat_cell(cells@, w as int, i as int, j as int));
            }
            if c == Cell::Exit {
                found_exit = true;
            }
            if c == Cell::Open {
                proof {
                    assert((i as int) * (i as int) + (j as int) * (j as int) < 2_000_000)
                        by (nonlinear_arith)
                        requires
                            0 <= (i as int) < 1000,
                            0 <= (j as int) < 1000,
                    ;
                }
                let d: usize = i * i + j * j;
                if !has_best || d > bd {
                    has_best = true;
                    bi = i;
                    bj = j;
                    bd = d;
                }
            }
            i += 1;
        }
        j += 1;
    }
    if !found_exit && has_best {
        proof {
            assert(0 <= (bj as int) * (w as int) + (bi as int) < (h as int) * (w as int))
                by (nonlinear_arith)
                requires
                    0 <= (bi as int) < (w as int),
                    0 <= (bj as int) < (h as int),
            ;
        }
        cells.set(bj * w + bi, Cell::Exit);
        Some((bi, bj))
    } else {
        None
    }
}

pub proof fn lemma_kept_rows_pos(rows: Seq<Seq<char>>)
    ensures
        (kept_rows(rows).len() > 0) == (exists|k: int|
            0 <= k < rows.len() && #[trigger] rows[k].len() > 0),
    decreases rows.len(),
{
    if rows.len() > 0 {
        lemma_kept_rows_pos(rows.drop_last());
        if rows.last().len() > 0 {
            assert(rows[rows.len() - 1].len() > 0);
        } else {
            if exists|k: int| 0 <= k < rows.len() && #[trigger] rows[k].len() > 0 {
                let k = choose|k: int| 0 <= k < rows.len() && #[trigger] rows[k].len() > 0;
                assert(rows.drop_last()[k].len() > 0);
            }
        }
    }
}

proof fn lemma_flat_index_injective(w: int, i1: int, j1: int, i2: int, j2: int)
    requires
        0 <= i1 < w,
        0 <= i2 < w,
        0 <= j1,
        0 <= j2,
        j1 * w + i1 == j2 * w + i2,
    ensures
        i1 == i2 && j1 == j2,
{
    assert(i1 == i2 && j1 == j2) by (nonlinear_arith)
        requires
            0 <= i1 < w,
            0 <= i2 < w,
            0 <= j1,
            0 <= j2,
            j1 * w + i1 == j2 * w + i2,
    ;
}

/// How one cell of the built grid may relate to the layout: either it
/// is the loaded cell itself, or it is the exit synthesized in place
/// of the open cell farthest from the origin of an exit-less layout.
pub open spec fn cell_as_loaded(g: Grid, kept: Seq<Seq<char>>, i: int, j: int) -> bool {
    ||| g.cell(i, j) == loaded_cell(kept, i, j)
    ||| {
        &&& loaded_cell(kept, i, j) == Cell::Open
        &&& g.cell(i, j) == Cell::Exit
        &&& !loaded_has(kept, g.width as int, g.height as int, Cell::Exit)
        &&& forall|i2: int, j2: int|
            0 <= i2 < g.width as int && 0 <= j2 < g.height as int && #[trigger] loaded_cell(
                kept,
                i2,
                j2,
            ) == Cell::Open ==> i2 * i2 + j2 * j2 <= i * i + j * j
    }
}

/// After loading with no synthesis, the grid is the layout itself.
proof fn lemma_load_unchanged(kept: Seq<Seq<char>>, g: Grid)
    requires
        g.wf(),
        forall|i: int, j: int|
            0 <= i < g.width as int && 0 <= j < g.height as int ==> #[trigger] flat_cell(
                g.cells@,
                g.width as int,
                i,
                j,
            ) == loaded_cell(kept, i, j),
    ensures
        forall|i: int, j: int|
            0 <= i < g.width as int && 0 <= j < g.height as int ==> #[trigger] g.cell(i, j)
                == loaded_cell(kept, i, j),
        loaded_has(kept, g.width as int, g.height as int, Cell::Exit) ==> g.has_exit(),
{
    let wi = g.width as int;
    let hi = g.height as int;
    assert forall|i: int, j: int| 0 <= i < wi && 0 <= j < hi implies #[trigger] g.cell(i, j)
        == loaded_cell(kept, i, j) by {
        assert(flat_cell(g.cells@, wi, i, j) == loaded_cell(kept, i, j));
    }
    if loaded_has(kept, wi, hi, Cell::Exit) {
        let (i, j) = choose|i: int, j: int|
            0 <= i < wi && 0 <= j < hi && #[trigger] loaded_cell(kept, i, j) == Cell::Exit;
        assert(g.cell(i, j) == Cell::Exit);
        assert(g.has_exit());
    }
}

/// After loading with a synthesized exit at (b0, b1), every cell of
/// the grid relates to the layout as `cell_as_loaded` says.
proof fn lemma_load_synth(kept: Seq<Seq<char>>, cells0: Seq<Cell>, g: Grid, b0: int, b1: int)
    requires
        g.wf(),
        cells0.len() == (g.height as int) * (g.width as int),
        forall|i: int, j: int|
            0 <= i < g.width as int && 0 <= j < g.height as int ==> #[trigger] flat_cell(
                cells0,
                g.width as int,
                i,
                j,
            ) == loaded_cell(kept, i, j),
        0 <= b0 < g.width as int,
        0 <= b1 < g.height as int,
        flat_cell(cells0, g.width as int, b0, b1) == Cell::Open,
        g.cells@ == cells0.update(b1 * (g.width as int) + b0, Cell::Exit),
        !(exists|i: int, j: int|
            0 <= i < g.width as int && 0 <= j < g.height as int && #[trigger] flat_cell(
                cells0,
                g.width as int,
                i,
                j,
            ) == Cell::Exit),
        forall|i: int, j: int|
            0 <= i < g.width as int && 0 <= j < g.height as int && #[trigger] flat_cell(
                cells0,
                g.width as int,
                i,
                j,
            ) == Cell::Open ==> i * i + j * j <= b0 * b0 + b1 * b1,
    ensures
        !loaded_has(kept, g.width as int, g.height as int, Cell::Exit),
        forall|i: int, j: int|
            0 <= i < g.width as int && 0 <= j < g.height as int ==> #[trigger] cell_as_loaded(
                g,
                kept,
                i,
                j,
            ),
        g.has_exit(),
        forall|i: int, j: int, i2: int, j2: int|
            0 <= i < g.width as int && 0 <= j < g.height as int && 0 <= i2 < g.width as int && 0
                <= j2 < g.height as int && #[trigger] g.cell(i, j) != loaded_cell(kept, i, j)
                && #[trigger] g.cell(i2, j2) != loaded_cell(kept, i2, j2) ==> i == i2 && j == j2,
{
    let wi = g.width as int;
    let hi = g.height as int;
    if loaded_has(kept, wi, hi, Cell::Exit) {
        let (i, j) = choose|i: int, j: int|
            0 <= i < wi && 0 <= j < hi && #[trigger] loaded_cell(kept, i, j) == Cell::Exit;
        assert(flat_cell(cells0, wi, i, j) == Cell::Exit);
        assert(false);
    }
    assert(0 <= b1 * wi + b0 < cells0.len()) by (nonlinear_arith)
        requires
            0 <= b0 < wi,
            0 <= b1 < hi,
            cells0.len() == hi * wi,
    ;
    assert(g.cell(b0, b1) == Cell::Exit);
    assert(g.has_exit());
    assert forall|i: int, j: int|
        0 <= i < wi && 0 <= j < hi implies #[trigger] cell_as_loaded(g, kept, i, j) by {
        assert(0 <= j * wi + i < cells0.len()) by (nonlinear_arith)
            requires
                0 <= i < wi,
                0 <= j < hi,
                cells0.len() == hi * wi,
        ;
        if i == b0 && j == b1 {
            assert(loaded_cell(kept, b0, b1) == Cell::Open);
            assert forall|i2: int, j2: int|
                0 <= i2 < wi && 0 <= j2 < hi && #[trigger] loaded_cell(kept, i2, j2)
                    == Cell::Open implies i2 * i2 + j2 * j2 <= b0 * b0 + b1 * b1 by {
                assert(flat_cell(cells0, wi, i2, j2) == Cell::Open);
            }
        } else {
            if j * wi + i == b1 * wi + b0 {
                lemma_flat_index_injective(wi, i, j, b0, b1);
                assert(false);
            }
            assert(g.cells@[j * wi + i] == cells0[j * wi + i]);
            assert(g.cell(i, j) == flat_cell(cells0, wi, i, j));
            assert(flat_cell(cells0, wi, i, j) == loaded_cell(kept, i, j));
        }
    }
    assert forall|i: int, j: int, i2: int, j2: int|
        0 <= i < wi && 0 <= j < hi && 0 <= i2 < wi && 0 <= j2 < hi && #[trigger] g.cell(i, j)
            != loaded_cell(kept, i, j) && #[trigger] g.cell(i2, j2) != loaded_cell(
        kept,
        i2,
        j2,
    ) implies i == i2 && j == j2 by {
        assert(0 <= j * wi + i < cells0.len()) by (nonlinear_arith)
            requires
                0 <= i < wi,
                0 <= j < hi,
                cells0.len() == hi * wi,
        ;
        assert(0 <= j2 * wi + i2 < cells0.len()) by (nonlinear_arith)
            requires
                0 <= i2 < wi,
                0 <= j2 < hi,
                cells0.len() == hi * wi,
        ;
        if j * wi + i != b1 * wi + b0 {
            assert(g.cells@[j * wi + i] == cells0[j * wi + i]);
            assert(g.cell(i, j) == flat_cell(cells0, wi, i, j));
            assert(false);
        }
        lemma_flat_index_injective(wi, i, j, b0, b1);
        if j2 * wi + i2 != b1 * wi + b0 {
            assert(g.cells@[j2 * wi + i2] == cells0[j2 * wi + i2]);
            assert(g.cell(i2, j2) == flat_cell(cells0, wi, i2, j2));
            assert(false);
        }
        lemma_flat_index_injective(wi, i2, j2, b0, b1);
    }
}

/// Build the grid from a character layout: empty rows are dropped,
/// characters map as `char_to_cell` says, short rows are padded with
/// wall, and if the layout holds no exit one is synthesized at the
/// open cell farthest from the origin by squared index distance.
///
/// Returns nothing when the layout has no non-empty row, more than
/// 1000 rows, a row of more than 1000 characters, or a cell size
/// outside 1..=1000 world units.
pub fn load_maze(rows: &Vec<Vec<char>>, block: i64) -> (r: Option<Grid>)
    ensures
        r is Some <==> {
            &&& 1 <= block <= 1000
            &&& rows@.len() <= 1000
            &&& (forall|k: int| 0 <= k < rows@.len() ==> #[trigger] rows@[k].len() <= 1000)
            &&& kept_rows(lines_view(rows@)).len() >= 1
        },
        r matches Some(g) ==> {
            let kept = kept_rows(lines_view(rows@));
            &&& g.wf()
            &&& g.block == block
            &&& g.height as int == kept.len()
            &&& g.width as int == max_row_len(kept)
            &&& (loaded_has(kept, g.width as int, g.height as int, Cell::Exit) ==> forall|
                i: int,
                j: int,
            |
                0 <= i < g.width as int && 0 <= j < g.height as int ==> #[trigger] g.cell(i, j)
                    == loaded_cell(kept, i, j))
            &&& (forall|i: int, j: int|
                0 <= i < g.width as int && 0 <= j < g.height as int
                    ==> #[trigger] cell_as_loaded(g, kept, i, j))
            &&& ((loaded_has(kept, g.width as int, g.height as int, Cell::Exit) || loaded_has(
                kept,
                g.width as int,
                g.height as int,
                Cell::Open,
            )) ==> g.has_exit())
        },
{
    if block < 1 || block > 1000 {
        return None;
    }
    if rows.len() > 1000 {
        return None;
    }
    let mut any_nonempty = false;
    let mut k: usize = 0;
    while k < rows.len()
        invariant
            k <= rows@.len(),
            forall|t: int| 0 <= t < k ==> #[trigger] rows@[t].len() <= 1000,
            any_nonempty == exists|t: int| 0 <= t < k && #[trigger] rows@[t].len() > 0,
        decreases rows@.len() - k,
    {
        if rows[k].len() > 1000 {
            proof {
                assert(rows@[k as int].len() > 1000);
            }
            return None;
        }
        if rows[k].len() > 0 {
            any_nonempty = true;
        }
        k += 1;
    }
    proof {
        lemma_kept_rows_pos(lines_view(rows@));
        assert(forall|t: int|
            0 <= t < rows@.len() ==> #[trigger] lines_view(rows@)[t].len() == rows@[t].len());
    }
    if !any_nonempty {
        proof {
            if kept_rows(lines_view(rows@)).len() > 0 {
                let t = choose|t: int|
                    0 <= t < lines_view(rows@).len() && #[trigger] lines_view(rows@)[t].len()
                        > 0;
                assert(rows@[t].len() > 0);
            }
        }
        return None;
    }
    proof {
        let t = choose|t: int| 0 <= t < rows@.len() && #[trigger] rows@[t].len() > 0;
        assert(lines_view(rows@)[t].len() > 0);
        assert(forall|t2: int|
            0 <= t2 < lines_view(rows@).len() ==> #[trigger] lines_view(rows@)[t2].len()
                <= 1000);
    }
    let ghost kept_s = kept_rows(lines_view(rows@));
    let (kept, maxw) = collect_rows(rows);
    proof {
        lemma_kept_rows_nonempty(lines_view(rows@));
        lemma_kept_rows_bound(lines_view(rows@), 1000);
        lemma_kept_rows_len(lines_view(rows@));
        assert(kept_s[0].len() > 0);
        lemma_max_row_len_ge(kept_s, 0);
        lemma_max_row_len_bound(kept_s, 1000);
        assert(lines_view(kept@).len() == kept_s.len());
        assert(kept@.len() == kept_s.len());
        assert(forall|j: int|
            0 <= j < kept@.len() ==> #[trigger] kept@[j]@ == lines_view(kept@)[j]);
    }
    let h = kept.len();
    let w = maxw;
    proof {
        assert forall|j: int| 0 <= j < kept@.len() implies #[trigger] kept@[j].len() <= w by {
            lemma_max_row_len_ge(kept_s, j);
            assert(kept@[j]@ == kept_s[j]);
        }
    }
    let mut cells = fill_cells(&kept, w);
    let ghost cells0 = cells@;
    proof {
        assert(lines_view(kept@) == kept_s);
        assert(cells0.len() == (h as int) * (w as int)) by (nonlinear_arith)
            requires
                cells0.len() == kept@.len() * w,
                h as int == kept@.len(),
        ;
        assert(forall|i: int, j: int|
            0 <= i < w && 0 <= j < h ==> #[trigger] flat_cell(cells0, w as int, i, j)
                == loaded_cell(kept_s, i, j));
    }
    let synth = synthesize_exit(&mut cells, w, h);
    let g = (Grid { cells, width: w, height: h, block });
    match synth {
        None => {
            proof {
                assert(g.cells@ == cells0);
                lemma_load_unchanged(kept_s, g);
                if loaded_has(kept_s, w as int, h as int, Cell::Open) {
                    let (i, j) = choose|i: int, j: int|
                        0 <= i < w as int && 0 <= j < h as int && #[trigger] loaded_cell(
                            kept_s,
                            i,
                            j,
                        ) == Cell::Open;
                    assert(flat_cell(cells0, w as int, i, j) == Cell::Open);
                    // so an exit must have been present already
                    let (i2, j2) = choose|i2: int, j2: int|
                        0 <= i2 < w as int && 0 <= j2 < h as int && #[trigger] flat_cell(
                            cells0,
                            w as int,
                            i2,
                            j2,
                        ) == Cell::Exit;
                    assert(loaded_cell(kept_s, i2, j2) == Cell::Exit);
                    assert(loaded_has(kept_s, w as int, h as int, Cell::Exit));
                }
            }
        },
        Some(b) => {
            proof {
                lemma_load_synth(kept_s, cells0, g, b.0 as int, b.1 as int);
            }
        },
    }
    Some(g)
}

/// A traversable world point lies inside the grid, whose coordinates
/// never exceed 10^9 milli-units under `wf`.
pub proof fn lemma_point_in_bounds(g: Grid, x: int, y: int)
    requires
        g.wf(),
        g.point_traversable(x, y),
    ensures
        0 <= x <= 1_000_000_000,
        0 <= y <= 1_000_000_000,
{
    let span = g.cell_span();
    assert(1000 <= span <= 1_000_000) by (nonlinear_arith)
        requires
            1 <= g.block <= 1000,
            span == g.block * 1000,
    ;
    assert((g.width as int) * span <= 1_000_000_000) by (nonlinear_arith)
        requires
            1 <= g.width <= 1000,
            1000 <= span <= 1_000_000,
    ;
    assert((g.height as int) * span <= 1_000_000_000) by (nonlinear_arith)
        requires
            1 <= g.height <= 1000,
            1000 <= span <= 1_000_000,
    ;
    if x >= (g.width as int) * span {
        vstd::arithmetic::div_mod::lemma_div_is_ordered((g.width as int) * span, x, span);
        vstd::arithmetic::div_mod::lemma_div_multiples_vanish(g.width as int, span);
        assert(g.col_of(x) >= g.width as int);
    }
    if y >= (g.height as int) * span {
        vstd::arithmetic::div_mod::lemma_div_is_ordered((g.height as int) * span, y, span);
        vstd::arithmetic::div_mod::lemma_div_multiples_vanish(g.height as int, span);
        assert(g.row_of(y) >= g.height as int);
    }
}

} // verus!
