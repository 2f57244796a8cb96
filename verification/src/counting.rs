//! Counting cells of a grid that satisfy a predicate, and the lemmas that
//! track such counts across single-cell updates.

use vstd::prelude::*;

use crate::Cell;

verus! {

/// How many cells of one row satisfy `f`.
pub open spec fn count_row(row: Seq<Cell>, f: spec_fn(Cell) -> bool) -> int
    decreases row.len(),
{
    if row.len() <= 0 {
        0
    } else {
        count_row(row.drop_last(), f) + if f(row.last()) {
            1int
        } else {
            0int
        }
    }
}

/// How many cells of the whole grid satisfy `f`.
pub open spec fn count_grid(cells: Seq<Vec<Cell>>, f: spec_fn(Cell) -> bool) -> int
    decreases cells.len(),
{
    if cells.len() <= 0 {
        0
    } else {
        count_grid(cells.drop_last(), f) + count_row(cells.last()@, f)
    }
}

/// The cells that carry a mine.
pub open spec fn mine_pred() -> spec_fn(Cell) -> bool {
    |c: Cell| c.is_mine
}

/// The cells that carry a flag.
pub open spec fn flag_pred() -> spec_fn(Cell) -> bool {
    |c: Cell| c.is_flagged
}

/// The cells that are still hidden.
pub open spec fn hidden_pred() -> spec_fn(Cell) -> bool {
    |c: Cell| !c.is_revealed
}

pub proof fn lemma_count_row_bounds(row: Seq<Cell>, f: spec_fn(Cell) -> bool)
    ensures
        0 <= count_row(row, f) <= row.len(),
    decreases row.len(),
{
    if row.len() > 0 {
        lemma_count_row_bounds(row.drop_last(), f);
    }
}

pub proof fn lemma_count_grid_bounds(cells: Seq<Vec<Cell>>, side: int, f: spec_fn(Cell) -> bool)
    requires
        forall|i: int| 0 <= i < cells.len() ==> (#[trigger] cells[i])@.len() == side,
    ensures
        0 <= count_grid(cells, f) <= cells.len() * side,
    decreases cells.len(),
{
    if cells.len() > 0 {
        lemma_count_grid_bounds(cells.drop_last(), side, f);
        lemma_count_row_bounds(cells.last()@, f);
        assert((cells.len() - 1) * side + side == cells.len() * side) by (nonlinear_arith);
    }
}

pub proof fn lemma_count_row_zero(row: Seq<Cell>, f: spec_fn(Cell) -> bool)
    requires
        forall|k: int| 0 <= k < row.len() ==> !f(#[trigger] row[k]),
    ensures
        count_row(row, f) == 0,
    decreases row.len(),
{
    if row.len() > 0 {
        lemma_count_row_zero(row.drop_last(), f);
    }
}

pub proof fn lemma_count_grid_zero(cells: Seq<Vec<Cell>>, f: spec_fn(Cell) -> bool)
    requires
        forall|i: int, k: int|
            0 <= i < cells.len() && 0 <= k < cells[i]@.len() ==> !f(#[trigger] cells[i]@[k]),
    ensures
        count_grid(cells, f) == 0,
    decreases cells.len(),
{
    if cells.len() > 0 {
        lemma_count_grid_zero(cells.drop_last(), f);
        lemma_count_row_zero(cells.last()@, f);
    }
}

/// Rows whose cells agree under `f` have the same count.
pub proof fn lemma_count_row_congruence(r1: Seq<Cell>, r2: Seq<Cell>, f: spec_fn(Cell) -> bool)
    requires
        r1.len() == r2.len(),
        forall|k: int| 0 <= k < r1.len() ==> f(#[trigger] r1[k]) == f(r2[k]),
    ensures
        count_row(r1, f) == count_row(r2, f),
    decreases r1.len(),
{
    if r1.len() > 0 {
        lemma_count_row_congruence(r1.drop_last(), r2.drop_last(), f);
    }
}

/// Grids of the same shape whose cells agree under `f` have the same count.
pub proof fn lemma_count_grid_congruence(
    c1: Seq<Vec<Cell>>,
    c2: Seq<Vec<Cell>>,
    f: spec_fn(Cell) -> bool,
)
    requires
        c1.len() == c2.len(),
        forall|i: int| 0 <= i < c1.len() ==> (#[trigger] c1[i])@.len() == c2[i]@.len(),
        forall|i: int, k: int|
            0 <= i < c1.len() && 0 <= k < c1[i]@.len() ==> f(#[trigger] c1[i]@[k]) == f(c2[i]@[k]),
    ensures
        count_grid(c1, f) == count_grid(c2, f),
    decreases c1.len(),
{
    if c1.len() > 0 {
        lemma_count_row_congruence(c1.last()@, c2.last()@, f);
        lemma_count_grid_congruence(c1.drop_last(), c2.drop_last(), f);
    }
}

/// Replacing the cell at `j` changes the row count by the difference of `f`
/// on the new and the old cell.
pub proof fn lemma_count_row_update(row: Seq<Cell>, j: int, c2: Cell, f: spec_fn(Cell) -> bool)
    requires
        0 <= j < row.len(),
    ensures
        count_row(row.update(j, c2), f) == count_row(row, f) + (if f(c2) {
            1int
        } else {
            0int
        }) - (if f(row[j]) {
            1int
        } else {
            0int
        }),
    decreases row.len(),
{
    let row2 = row.update(j, c2);
    if j == row.len() - 1 {
        assert(row2.drop_last() =~= row.drop_last());
    } else {
        assert(row2.drop_last() =~= row.drop_last().update(j, c2));
        assert(row2.last() == row.last());
        lemma_count_row_update(row.drop_last(), j, c2, f);
    }
}

/// Replacing the row at `i` changes the grid count by the difference of the
/// new and the old row count.
pub proof fn lemma_count_grid_update(
    cells: Seq<Vec<Cell>>,
    i: int,
    row2: Vec<Cell>,
    f: spec_fn(Cell) -> bool,
)
    requires
        0 <= i < cells.len(),
    ensures
        count_grid(cells.update(i, row2), f) == count_grid(cells, f) - count_row(cells[i]@, f)
            + count_row(row2@, f),
    decreases cells.len(),
{
    let cells2 = cells.update(i, row2);
    if i == cells.len() - 1 {
        assert(cells2.drop_last() =~= cells.drop_last());
    } else {
        assert(cells2.drop_last() =~= cells.drop_last().update(i, row2));
        assert(cells2.last() == cells.last());
        lemma_count_grid_update(cells.drop_last(), i, row2, f);
    }
}

/// Replacing the single cell at `(i, j)` changes the grid count by the
/// difference of `f` on the new and the old cell.
pub proof fn lemma_count_grid_cell_update(
    cells: Seq<Vec<Cell>>,
    i: int,
    j: int,
    row2: Vec<Cell>,
    c2: Cell,
    f: spec_fn(Cell) -> bool,
)
    requires
        0 <= i < cells.len(),
        0 <= j < cells[i]@.len(),
        row2@ == cells[i]@.update(j, c2),
    ensures
        count_grid(cells.update(i, row2), f) == count_grid(cells, f) + (if f(c2) {
            1int
        } else {
            0int
        }) - (if f(cells[i]@[j]) {
            1int
        } else {
            0int
        }),
{
    lemma_count_grid_update(cells, i, row2, f);
    lemma_count_row_update(cells[i]@, j, c2, f);
}

} // verus!
