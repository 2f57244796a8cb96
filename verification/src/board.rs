//! The board: a square grid of cells, deferred random mine placement, and the
//! static adjacency-count pass.

use vstd::prelude::*;

use rand::Rng;

use crate::Cell;
use crate::blank_cell;
use crate::counting::count_grid;
use crate::counting::flag_pred;
use crate::counting::hidden_pred;
use crate::counting::lemma_count_grid_cell_update;
use crate::counting::lemma_count_grid_congruence;
use crate::counting::lemma_count_grid_zero;
use crate::counting::mine_pred;

verus! {

/// A square minesweeper grid together with its target mine count.
#[derive(Clone, Debug)]
pub struct Board {
    pub cells: Vec<Vec<Cell>>,
    pub mines: i32,
    pub side: usize,
}

/// The largest grid side this library accepts: it keeps `side * side`, and
/// with it every per-cell tally, strictly below `i32::MAX`.
pub const MAX_SIDE: usize = 46340;

impl Board {
    /// The grid is a `side` x `side` square, the side is positive and small
    /// enough for the 32-bit tallies, and the mine target leaves at least one
    /// safe cell.
    pub open spec fn wf(self) -> bool {
        &&& self.cells@.len() == self.side
        &&& forall|r: int|
            0 <= r < self.side ==> (#[trigger] self.cells@[r])@.len() == self.side
        &&& 1 <= self.side <= MAX_SIDE
        &&& 0 <= self.mines <= self.side * self.side - 1
    }

    /// The cell at row `r`, column `c`.
    pub open spec fn cell(self, r: int, c: int) -> Cell {
        self.cells@[r]@[c]
    }

    /// Whether `(r, c)` lies on the grid.
    pub open spec fn in_bounds(self, r: int, c: int) -> bool {
        0 <= r < self.side && 0 <= c < self.side
    }

    /// How many cells of the grid carry a mine.
    pub open spec fn total_mines(self) -> int {
        count_grid(self.cells@, mine_pred())
    }

    /// How many cells of the grid carry a flag.
    pub open spec fn total_flags(self) -> int {
        count_grid(self.cells@, flag_pred())
    }

    /// How many cells of the grid are still hidden.
    pub open spec fn total_hidden(self) -> int {
        count_grid(self.cells@, hidden_pred())
    }
}

/// Whether `(r2, c2)` is one of the up-to-eight Moore neighbors of `(r1, c1)`.
pub open spec fn is_neighbor(r1: int, c1: int, r2: int, c2: int) -> bool {
    &&& !(r1 == r2 && c1 == c2)
    &&& -1 <= r1 - r2 <= 1
    &&& -1 <= c1 - c2 <= 1
}

/// 1 if `(r, c)` lies on the grid and carries a mine, else 0.
pub open spec fn mine_at(b: Board, r: int, c: int) -> int {
    if b.in_bounds(r, c) && b.cell(r, c).is_mine {
        1
    } else {
        0
    }
}

/// How many mines the Moore neighborhood of `(r, c)` holds, clamped at the
/// grid edges.
pub open spec fn adj_mine_count(b: Board, r: int, c: int) -> int {
    mine_at(b, r - 1, c - 1) + mine_at(b, r - 1, c) + mine_at(b, r - 1, c + 1) + mine_at(
        b,
        r,
        c - 1,
    ) + mine_at(b, r, c + 1) + mine_at(b, r + 1, c - 1) + mine_at(b, r + 1, c) + mine_at(
        b,
        r + 1,
        c + 1,
    )
}

/// 1 if `(r, c)` lies on the grid and carries a flag, else 0.
pub open spec fn flag_at(b: Board, r: int, c: int) -> int {
    if b.in_bounds(r, c) && b.cell(r, c).is_flagged {
        1
    } else {
        0
    }
}

/// How many flags the Moore neighborhood of `(r, c)` holds, clamped at the
/// grid edges.
pub open spec fn adj_flag_count(b: Board, r: int, c: int) -> int {
    flag_at(b, r - 1, c - 1) + flag_at(b, r - 1, c) + flag_at(b, r - 1, c + 1) + flag_at(
        b,
        r,
        c - 1,
    ) + flag_at(b, r, c + 1) + flag_at(b, r + 1, c - 1) + flag_at(b, r + 1, c) + flag_at(
        b,
        r + 1,
        c + 1,
    )
}

/// Every non-mine cell's stored `adjacent_mines` equals the true count of
/// mines in its Moore neighborhood.
pub open spec fn counts_consistent(b: Board) -> bool {
    forall|r: int, c: int|
        b.in_bounds(r, c) && !(#[trigger] b.cell(r, c)).is_mine ==> b.cell(r, c).adjacent_mines
            == adj_mine_count(b, r, c)
}

/// The two boards agree on everything except possibly which cells are
/// revealed: same shape, same mine target, and cell by cell the same mine,
/// flag and adjacency data.
pub open spec fn same_but_revealed(b1: Board, b2: Board) -> bool {
    &&& b2.side == b1.side
    &&& b2.mines == b1.mines
    &&& b2.cells@.len() == b1.cells@.len()
    &&& forall|r: int|
        0 <= r < b1.cells@.len() ==> (#[trigger] b2.cells@[r])@.len() == b1.cells@[r]@.len()
    &&& forall|r: int, c: int|
        b1.in_bounds(r, c) ==> {
            &&& (#[trigger] b2.cell(r, c)).is_mine == b1.cell(r, c).is_mine
            &&& b2.cell(r, c).is_flagged == b1.cell(r, c).is_flagged
            &&& b2.cell(r, c).adjacent_mines == b1.cell(r, c).adjacent_mines
        }
}

/// Boards that agree on their mine and adjacency data have the same true
/// neighborhood counts, so consistency carries over between them.
pub proof fn lemma_consistency_carries(b1: Board, b2: Board)
    requires
        same_but_revealed(b1, b2),
        counts_consistent(b1),
    ensures
        counts_consistent(b2),
{
    assert forall|r: int, c: int|
        b2.in_bounds(r, c) && !(#[trigger] b2.cell(r, c)).is_mine implies b2.cell(
        r,
        c,
    ).adjacent_mines == adj_mine_count(b2, r, c) by {
        assert(adj_mine_count(b2, r, c) == adj_mine_count(b1, r, c));
    }
}

/// Relies on `rand::Rng::gen_range` on a `rand::thread_rng()` generator:
/// `gen_range(0..n)` returns a value of the (non-empty) range, so the result
/// is below `n`. Nothing more is promised of a random draw.
#[verifier::external_body]
fn random_below(n: usize) -> (r: usize)
    requires
        n >= 1,
    ensures
        r < n,
{
    rand::thread_rng().gen_range(0..n)
}

impl Board {
    /// A blank `side` x `side` board with the given mine target: no cell
    /// carries a mine, a flag or a reveal yet.
    pub fn new(side: usize, mines: i32) -> (b: Board)
        requires
            1 <= side <= MAX_SIDE,
            0 <= mines <= side * side - 1,
        ensures
            b.wf(),
            b.side == side,
            b.mines == mines,
            forall|r: int, c: int| b.in_bounds(r, c) ==> b.cell(r, c) == blank_cell(),
    {
        let mut cells: Vec<Vec<Cell>> = Vec::new();
        for _i in 0..side
            invariant
                cells@.len() == _i,
                forall|r: int| 0 <= r < _i ==> (#[trigger] cells@[r])@.len() == side,
                forall|r: int, c: int|
                    0 <= r < _i && 0 <= c < side ==> #[trigger] cells@[r]@[c] == blank_cell(),
        {
            let mut row: Vec<Cell> = Vec::new();
            for _j in 0..side
                invariant
                    row@.len() == _j,
                    forall|c: int| 0 <= c < _j ==> #[trigger] row@[c] == blank_cell(),
            {
                row.push(
                    Cell { is_mine: false, is_revealed: false, is_flagged: false, adjacent_mines: 0 },
                );
            }
            cells.push(row);
        }
        Board { cells, mines, side }
    }

    /// Randomly place exactly `self.mines` mines on distinct cells, never on
    /// the safe cell `(safe_r, safe_c)`: each mine goes to a cell drawn at
    /// random from the positions still free, so the placement is a uniform
    /// selection of distinct cells. All other cell data is untouched.
    pub fn place_mines(&mut self, safe_r: usize, safe_c: usize)
        requires
            old(self).wf(),
            safe_r < old(self).side,
            safe_c < old(self).side,
            forall|r: int, c: int|
                old(self).in_bounds(r, c) ==> !(#[trigger] old(self).cell(r, c)).is_mine,
        ensures
            final(self).wf(),
            final(self).side == old(self).side,
            final(self).mines == old(self).mines,
            final(self).total_mines() == final(self).mines,
            !final(self).cell(safe_r as int, safe_c as int).is_mine,
            forall|r: int, c: int|
                final(self).in_bounds(r, c) ==> {
                    &&& (#[trigger] final(self).cell(r, c)).is_revealed == old(self).cell(
                        r,
                        c,
                    ).is_revealed
                    &&& final(self).cell(r, c).is_flagged == old(self).cell(r, c).is_flagged
                    &&& final(self).cell(r, c).adjacent_mines == old(self).cell(
                        r,
                        c,
                    ).adjacent_mines
                },
    {
        proof {
            assert forall|r: int, k: int|
                0 <= r < self.cells@.len() && 0 <= k < self.cells@[r]@.len() implies !(mine_pred()(
                #[trigger] self.cells@[r]@[k],
            )) by {
                assert(!self.cell(r, k).is_mine);
            }
            lemma_count_grid_zero(self.cells@, mine_pred());
        }
        let mut free = free_positions(self.side, safe_r, safe_c);
        let mut left: i32 = self.mines;
        while left > 0
            invariant
                self.wf(),
                self.side == old(self).side,
                self.mines == old(self).mines,
                safe_r < self.side,
                safe_c < self.side,
                0 <= left <= self.mines,
                self.total_mines() == self.mines - left,
                free@.len() == self.side * self.side - 1 - (self.mines - left),
                forall|k: int|
                    0 <= k < free@.len() ==> {
                        let p = #[trigger] free@[k];
                        &&& p.0 < self.side
                        &&& p.1 < self.side
                        &&& !(p.0 == safe_r && p.1 == safe_c)
                        &&& !self.cell(p.0 as int, p.1 as int).is_mine
                    },
                forall|k1: int, k2: int| 0 <= k1 < k2 < free@.len() ==> free@[k1] != free@[k2],
                !self.cell(safe_r as int, safe_c as int).is_mine,
                forall|r: int, c: int|
                    self.in_bounds(r, c) ==> {
                        &&& (#[trigger] self.cell(r, c)).is_revealed == old(self).cell(
                            r,
                            c,
                        ).is_revealed
                        &&& self.cell(r, c).is_flagged == old(self).cell(r, c).is_flagged
                        &&& self.cell(r, c).adjacent_mines == old(self).cell(r, c).adjacent_mines
                    },
            decreases left,
        {
            let k = random_below(free.len());
            let ghost free0 = free@;
            let (i, j) = free.swap_remove(k);
            proof {
                assert forall|k2: int| 0 <= k2 < free@.len() implies free@[k2] != (i, j) by {
                    if k2 == k {
                        assert(free@[k2] == free0[free0.len() - 1]);
                    } else {
                        assert(free@[k2] == free0[k2]);
                    }
                }
            }
            let ghost b_pre = *self;
            let ghost cells0 = self.cells@;
            let ghost cell0 = self.cells@[i as int]@[j as int];
            let ghost cell1 = (Cell { is_mine: true, ..cell0 });
            self.cells[i][j].is_mine = true;
            proof {
                lemma_count_grid_cell_update(
                    cells0,
                    i as int,
                    j as int,
                    self.cells@[i as int],
                    cell1,
                    mine_pred(),
                );
                assert forall|r: int, c: int| self.in_bounds(r, c) implies {
                    &&& (#[trigger] self.cell(r, c)).is_revealed == b_pre.cell(r, c).is_revealed
                    &&& self.cell(r, c).is_flagged == b_pre.cell(r, c).is_flagged
                    &&& self.cell(r, c).adjacent_mines == b_pre.cell(r, c).adjacent_mines
                    &&& (!(r == i as int && c == j as int) ==> self.cell(r, c) == b_pre.cell(r, c))
                } by {
                    if r == i as int && c == j as int {
                        assert(self.cell(r, c) == cell1);
                    } else {
                        assert(self.cell(r, c) == b_pre.cell(r, c));
                    }
                }
            }
            left = left - 1;
        }
    }
}

/// Every position of a `side` x `side` grid except the safe cell, each
/// exactly once.
fn free_positions(side: usize, safe_r: usize, safe_c: usize) -> (free: Vec<(usize, usize)>)
    requires
        1 <= side <= MAX_SIDE,
        safe_r < side,
        safe_c < side,
    ensures
        free@.len() == side * side - 1,
        forall|k: int|
            0 <= k < free@.len() ==> {
                let p = #[trigger] free@[k];
                &&& p.0 < side
                &&& p.1 < side
                &&& !(p.0 == safe_r && p.1 == safe_c)
            },
        forall|k1: int, k2: int| 0 <= k1 < k2 < free@.len() ==> free@[k1] != free@[k2],
{
    let mut free: Vec<(usize, usize)> = Vec::new();
    proof {
        assert(0 * side == 0) by (nonlinear_arith);
    }
    let mut i: usize = 0;
    while i < side
        invariant
            i <= side,
            side <= MAX_SIDE,
            safe_r < side,
            safe_c < side,
            free@.len() == i * side - (if safe_r < i {
                1int
            } else {
                0int
            }),
            forall|k: int|
                0 <= k < free@.len() ==> {
                    let p = #[trigger] free@[k];
                    &&& p.0 < i
                    &&& p.1 < side
                    &&& !(p.0 == safe_r && p.1 == safe_c)
                },
            forall|k1: int, k2: int| 0 <= k1 < k2 < free@.len() ==> free@[k1] != free@[k2],
        decreases side - i,
    {
        let mut j: usize = 0;
        while j < side
            invariant
                i < side,
                j <= side,
                side <= MAX_SIDE,
                safe_r < side,
                safe_c < side,
                free@.len() == i * side + j - (if safe_r < i || (safe_r == i && safe_c < j) {
                    1int
                } else {
                    0int
                }),
                forall|k: int|
                    0 <= k < free@.len() ==> {
                        let p = #[trigger] free@[k];
                        &&& (p.0 < i || (p.0 == i && p.1 < j))
                        &&& p.1 < side
                        &&& !(p.0 == safe_r && p.1 == safe_c)
                    },
                forall|k1: int, k2: int| 0 <= k1 < k2 < free@.len() ==> free@[k1] != free@[k2],
            decreases side - j,
        {
            if i != safe_r || j != safe_c {
                free.push((i, j));
            }
            j = j + 1;
        }
        proof {
            assert((i + 1) * side == i * side + side) by (nonlinear_arith);
        }
        i = i + 1;
    }
    free
}

impl Board {
    /// How many of the up-to-eight neighbors of `(r, c)` carry a mine,
    /// clamped at the grid edges.
    fn count_adjacent_mines(&self, r: usize, c: usize) -> (n: u8)
        requires
            self.wf(),
            r < self.side,
            c < self.side,
        ensures
            n as int == adj_mine_count(*self, r as int, c as int),
            n <= 8,
    {
        let mut n: u8 = 0;
        if r > 0 {
            if c > 0 && self.cells[r - 1][c - 1].is_mine {
                n = n + 1;
            }
            if self.cells[r - 1][c].is_mine {
                n = n + 1;
            }
            if c + 1 < self.side && self.cells[r - 1][c + 1].is_mine {
                n = n + 1;
            }
        }
        if c > 0 && self.cells[r][c - 1].is_mine {
            n = n + 1;
        }
        if c + 1 < self.side && self.cells[r][c + 1].is_mine {
            n = n + 1;
        }
        if r + 1 < self.side {
            if c > 0 && self.cells[r + 1][c - 1].is_mine {
                n = n + 1;
            }
            if self.cells[r + 1][c].is_mine {
                n = n + 1;
            }
            if c + 1 < self.side && self.cells[r + 1][c + 1].is_mine {
                n = n + 1;
            }
        }
        n
    }

    /// How many of the up-to-eight neighbors of `(r, c)` carry a flag,
    /// clamped at the grid edges.
    pub(crate) fn count_adjacent_flags(&self, r: usize, c: usize) -> (n: u8)
        requires
            self.wf(),
            r < self.side,
            c < self.side,
        ensures
            n as int == adj_flag_count(*self, r as int, c as int),
            n <= 8,
    {
        let mut n: u8 = 0;
        if r > 0 {
            if c > 0 && self.cells[r - 1][c - 1].is_flagged {
                n = n + 1;
            }
            if self.cells[r - 1][c].is_flagged {
                n = n + 1;
            }
            if c + 1 < self.side && self.cells[r - 1][c + 1].is_flagged {
                n = n + 1;
            }
        }
        if c > 0 && self.cells[r][c - 1].is_flagged {
            n = n + 1;
        }
        if c + 1 < self.side && self.cells[r][c + 1].is_flagged {
            n = n + 1;
        }
        if r + 1 < self.side {
            if c > 0 && self.cells[r + 1][c - 1].is_flagged {
                n = n + 1;
            }
            if self.cells[r + 1][c].is_flagged {
                n = n + 1;
            }
            if c + 1 < self.side && self.cells[r + 1][c + 1].is_flagged {
                n = n + 1;
            }
        }
        n
    }

    /// Store in every non-mine cell the exact count of mines among its
    /// Moore neighbors. Mine cells and all other cell data are untouched.
    pub fn update_adjacent_mines(&mut self)
        requires
            old(self).wf(),
        ensures
            final(self).wf(),
            final(self).side == old(self).side,
            final(self).mines == old(self).mines,
            counts_consistent(*final(self)),
            forall|r: int, c: int|
                final(self).in_bounds(r, c) ==> {
                    &&& (#[trigger] final(self).cell(r, c)).is_mine == old(self).cell(r, c).is_mine
                    &&& final(self).cell(r, c).is_revealed == old(self).cell(r, c).is_revealed
                    &&& final(self).cell(r, c).is_flagged == old(self).cell(r, c).is_flagged
                    &&& (old(self).cell(r, c).is_mine ==> final(self).cell(r, c) == old(self).cell(
                        r,
                        c,
                    ))
                },
    {
        let side = self.side;
        let mut i: usize = 0;
        while i < side
            invariant
                self.wf(),
                side == self.side,
                self.side == old(self).side,
                self.mines == old(self).mines,
                i <= side,
                forall|r: int, c: int|
                    self.in_bounds(r, c) ==> {
                        &&& (#[trigger] self.cell(r, c)).is_mine == old(self).cell(r, c).is_mine
                        &&& self.cell(r, c).is_revealed == old(self).cell(r, c).is_revealed
                        &&& self.cell(r, c).is_flagged == old(self).cell(r, c).is_flagged
                        &&& (old(self).cell(r, c).is_mine || r >= i ==> self.cell(r, c) == old(
                            self,
                        ).cell(r, c))
                        &&& (r < i && !old(self).cell(r, c).is_mine ==> self.cell(
                            r,
                            c,
                        ).adjacent_mines == adj_mine_count(*self, r, c))
                    },
            decreases side - i,
        {
            let mut j: usize = 0;
            while j < side
                invariant
                    self.wf(),
                    side == self.side,
                    self.side == old(self).side,
                    self.mines == old(self).mines,
                    i < side,
                    j <= side,
                    forall|r: int, c: int|
                        self.in_bounds(r, c) ==> {
                            &&& (#[trigger] self.cell(r, c)).is_mine == old(self).cell(
                                r,
                                c,
                            ).is_mine
                            &&& self.cell(r, c).is_revealed == old(self).cell(r, c).is_revealed
                            &&& self.cell(r, c).is_flagged == old(self).cell(r, c).is_flagged
                            &&& (old(self).cell(r, c).is_mine || r > i || (r == i && c >= j)
                                ==> self.cell(r, c) == old(self).cell(r, c))
                            &&& ((r < i || (r == i && c < j)) && !old(self).cell(r, c).is_mine
                                ==> self.cell(r, c).adjacent_mines == adj_mine_count(*self, r, c))
                        },
                decreases side - j,
            {
                if !self.cells[i][j].is_mine {
                    let n = self.count_adjacent_mines(i, j);
                    let ghost b_pre = *self;
                    let ghost cell1 = (Cell {
                        adjacent_mines: n,
                        ..self.cells@[i as int]@[j as int]
                    });
                    self.cells[i][j].adjacent_mines = n;
                    proof {
                        assert forall|r: int, c: int| self.in_bounds(r, c) implies {
                            &&& (#[trigger] self.cell(r, c)).is_mine == b_pre.cell(r, c).is_mine
                            &&& self.cell(r, c).is_revealed == b_pre.cell(r, c).is_revealed
                            &&& self.cell(r, c).is_flagged == b_pre.cell(r, c).is_flagged
                            &&& (!(r == i as int && c == j as int) ==> self.cell(r, c) == b_pre.cell(
                                r,
                                c,
                            ))
                        } by {
                            if r == i as int && c == j as int {
                                assert(self.cell(r, c) == cell1);
                            } else {
                                assert(self.cell(r, c) == b_pre.cell(r, c));
                            }
                        }
                        lemma_adj_counts_carry(b_pre, *self);
                    }
                }
                j = j + 1;
            }
            i = i + 1;
        }
    }
}

/// Boards of the same shape whose cells agree on where the mines lie have
/// the same true neighborhood mine counts everywhere.
pub proof fn lemma_adj_counts_carry(b1: Board, b2: Board)
    requires
        b2.side == b1.side,
        b2.cells@.len() == b1.cells@.len(),
        forall|r: int|
            0 <= r < b1.cells@.len() ==> (#[trigger] b2.cells@[r])@.len() == b1.cells@[r]@.len(),
        forall|r: int, c: int|
            b1.in_bounds(r, c) ==> (#[trigger] b2.cell(r, c)).is_mine == b1.cell(r, c).is_mine,
    ensures
        forall|r: int, c: int| #[trigger] adj_mine_count(b2, r, c) == adj_mine_count(b1, r, c),
{
    assert forall|r: int, c: int| #[trigger] mine_at(b2, r, c) == mine_at(b1, r, c) by {
        if b1.in_bounds(r, c) {
            assert(b2.cell(r, c).is_mine == b1.cell(r, c).is_mine);
        }
    }
}

/// Boards of the same shape whose cells agree on their flags have the same
/// flag total.
pub proof fn lemma_flag_total_carries(b1: Board, b2: Board)
    requires
        b1.wf(),
        b2.wf(),
        b2.side == b1.side,
        forall|r: int, c: int|
            b1.in_bounds(r, c) ==> (#[trigger] b2.cell(r, c)).is_flagged == b1.cell(
                r,
                c,
            ).is_flagged,
    ensures
        b2.total_flags() == b1.total_flags(),
{
    assert forall|i: int, k: int|
        0 <= i < b1.cells@.len() && 0 <= k < b1.cells@[i]@.len() implies flag_pred()(
        #[trigger] b1.cells@[i]@[k],
    ) == flag_pred()(b2.cells@[i]@[k]) by {
        assert(b2.cell(i, k).is_flagged == b1.cell(i, k).is_flagged);
    }
    lemma_count_grid_congruence(b1.cells@, b2.cells@, flag_pred());
}

/// Boards of the same shape whose cells agree on where the mines lie have
/// the same mine total.
pub proof fn lemma_mine_total_carries(b1: Board, b2: Board)
    requires
        b1.wf(),
        b2.wf(),
        b2.side == b1.side,
        forall|r: int, c: int|
            b1.in_bounds(r, c) ==> (#[trigger] b2.cell(r, c)).is_mine == b1.cell(r, c).is_mine,
    ensures
        b2.total_mines() == b1.total_mines(),
{
    assert forall|i: int, k: int|
        0 <= i < b1.cells@.len() && 0 <= k < b1.cells@[i]@.len() implies mine_pred()(
        #[trigger] b1.cells@[i]@[k],
    ) == mine_pred()(b2.cells@[i]@[k]) by {
        assert(b2.cell(i, k).is_mine == b1.cell(i, k).is_mine);
    }
    lemma_count_grid_congruence(b1.cells@, b2.cells@, mine_pred());
}

/// The default board of a fresh session: nine by nine with ten mines, unless
/// a prepared board is handed in.
pub fn logic(boardopt: Option<Board>) -> (b: Board)
    ensures
        boardopt matches Some(b0) ==> b == b0,
        boardopt is None ==> {
            &&& b.wf()
            &&& b.side == 9
            &&& b.mines == 10
            &&& forall|r: int, c: int| b.in_bounds(r, c) ==> b.cell(r, c) == blank_cell()
        },
{
    match boardopt {
        Some(b) => b,
        None => Board::new(9, 10),
    }
}

/// A cell next to a neighborhood with a zero mine count is itself no mine.
pub proof fn lemma_zero_count_neighbors_safe(b: Board, zr: int, zc: int, r: int, c: int)
    requires
        b.in_bounds(zr, zc),
        b.in_bounds(r, c),
        is_neighbor(zr, zc, r, c),
        adj_mine_count(b, zr, zc) == 0,
    ensures
        !b.cell(r, c).is_mine,
{
    assert(mine_at(b, r, c) == 0);
}

} // verus!
