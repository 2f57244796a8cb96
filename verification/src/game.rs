//! The session: a board plus cursor, tally and outcome flags, and the
//! interactive operations that drive them.

use vstd::prelude::*;

use crate::Cell;
use crate::blank_cell;
use crate::board::Board;
use crate::board::adj_flag_count;
use crate::board::adj_mine_count;
use crate::board::counts_consistent;
use crate::board::is_neighbor;
use crate::board::lemma_consistency_carries;
use crate::board::lemma_flag_total_carries;
use crate::board::lemma_mine_total_carries;
use crate::board::lemma_zero_count_neighbors_safe;
use crate::board::logic;
use crate::board::same_but_revealed;
use crate::counting::flag_pred;
use crate::counting::hidden_pred;
use crate::counting::lemma_count_grid_bounds;
use crate::counting::lemma_count_grid_cell_update;
use crate::counting::lemma_count_grid_zero;

verus! {

/// One discrete input of the session, already freed from raw key codes.
pub enum Command {
    MoveUp,
    MoveDown,
    MoveLeft,
    MoveRight,
    ToggleFlag,
    Reveal,
    Quit,
}

/// A minesweeper session: the board, the cursor, the flag tally, the outcome
/// flags, and the marker that defers mine placement to the first reveal.
#[derive(Debug)]
pub struct Game {
    pub board: Board,
    pub is_over: bool,
    pub is_won: bool,
    pub selected_cell: (usize, usize),
    pub flagged: i32,
    pub first_reveal: bool,
}

impl Game {
    /// The board is well formed, the cursor is on the grid, the flag tally
    /// counts exactly the flagged cells, no revealed cell carries a flag, and
    /// while the first reveal is still pending no cell carries a mine.
    pub open spec fn wf(self) -> bool {
        &&& self.board.wf()
        &&& (self.selected_cell.0 as int) < self.board.side as int
        &&& (self.selected_cell.1 as int) < self.board.side as int
        &&& self.flagged == self.board.total_flags()
        &&& forall|r: int, c: int|
            self.board.in_bounds(r, c) ==> !((#[trigger] self.board.cell(r, c)).is_revealed
                && self.board.cell(r, c).is_flagged)
        &&& (self.first_reveal ==> forall|r: int, c: int|
            self.board.in_bounds(r, c) ==> !(#[trigger] self.board.cell(r, c)).is_mine)
    }

    /// A fresh session: the default blank board, cursor at the origin, no
    /// flags, nothing revealed, the first reveal still pending.
    pub fn new() -> (g: Game)
        ensures
            g.wf(),
            g.board.side == 9,
            g.board.mines == 10,
            forall|r: int, c: int|
                g.board.in_bounds(r, c) ==> #[trigger] g.board.cell(r, c) == blank_cell(),
            !g.is_over,
            !g.is_won,
            g.selected_cell == (0usize, 0usize),
            g.flagged == 0,
            g.first_reveal,
    {
        let board = logic(None);
        proof {
            assert forall|r: int, k: int|
                0 <= r < board.cells@.len() && 0 <= k < board.cells@[r]@.len() implies !(flag_pred()(
                #[trigger] board.cells@[r]@[k],
            )) by {
                assert(board.cell(r, k) == blank_cell());
            }
            lemma_count_grid_zero(board.cells@, flag_pred());
        }
        Game {
            board,
            is_over: false,
            is_won: false,
            selected_cell: (0, 0),
            flagged: 0,
            first_reveal: true,
        }
    }
}

/// How one flag toggle rewrites the session. On a revealed selected cell it
/// is a no-op; otherwise the selected cell's flag flips, the tally follows,
/// and the game is won as soon as the tally meets the mine target — whether
/// or not the flags sit on actual mines.
pub open spec fn toggle_rel(g1: Game, g2: Game) -> bool {
    let r = g1.selected_cell.0 as int;
    let c = g1.selected_cell.1 as int;
    let cell = g1.board.cell(r, c);
    if cell.is_revealed {
        g2 == g1
    } else {
        &&& g2.board.side == g1.board.side
        &&& g2.board.mines == g1.board.mines
        &&& g2.board.cells@.len() == g1.board.cells@.len()
        &&& forall|k: int|
            0 <= k < g1.board.cells@.len() ==> (#[trigger] g2.board.cells@[k])@.len()
                == g1.board.cells@[k]@.len()
        &&& g2.board.cell(r, c) == (Cell { is_flagged: !cell.is_flagged, ..cell })
        &&& forall|a: int, b: int|
            g1.board.in_bounds(a, b) && !(a == r && b == c) ==> #[trigger] g2.board.cell(a, b)
                == g1.board.cell(a, b)
        &&& g2.flagged == g1.flagged + (if !cell.is_flagged {
            1int
        } else {
            -1int
        })
        &&& g2.is_won == (g1.is_won || g2.flagged == g1.board.mines)
        &&& g2.is_over == g1.is_over
        &&& g2.selected_cell == g1.selected_cell
        &&& g2.first_reveal == g1.first_reveal
    }
}

impl Game {
    /// Flip the flag on the selected cell and adjust the tally; a revealed
    /// cell cannot be flagged, so there this is a no-op. Reaching a tally
    /// equal to the mine target wins the game.
    pub fn toggle_flag(&mut self)
        requires
            old(self).wf(),
        ensures
            final(self).wf(),
            toggle_rel(*old(self), *final(self)),
    {
        let (r, c) = self.selected_cell;
        if self.board.cells[r][c].is_revealed {
            return ;
        }
        let ghost g_pre = *self;
        let will_flag = !self.board.cells[r][c].is_flagged;
        let ghost cell0 = self.board.cells@[r as int]@[c as int];
        let ghost cell1 = (Cell { is_flagged: will_flag, ..cell0 });
        self.board.cells[r][c].is_flagged = will_flag;
        proof {
            lemma_count_grid_cell_update(
                g_pre.board.cells@,
                r as int,
                c as int,
                self.board.cells@[r as int],
                cell1,
                flag_pred(),
            );
            lemma_count_grid_bounds(
                g_pre.board.cells@,
                g_pre.board.side as int,
                flag_pred(),
            );
            assert(g_pre.board.side * g_pre.board.side <= 46340 * 46340) by (nonlinear_arith)
                requires
                    g_pre.board.side <= 46340,
            ;
            assert forall|a: int, b: int| self.board.in_bounds(a, b) implies {
                &&& (!(a == r as int && b == c as int) ==> #[trigger] self.board.cell(a, b)
                    == g_pre.board.cell(a, b))
                &&& (a == r as int && b == c as int ==> self.board.cell(a, b) == cell1)
            } by {
                if !(a == r as int && b == c as int) {
                    assert(self.board.cell(a, b) == g_pre.board.cell(a, b));
                }
            }
        }
        if will_flag {
            self.flagged = self.flagged + 1;
        } else {
            self.flagged = self.flagged - 1;
        }
        if self.flagged == self.board.mines {
            self.is_won = true;
        }
        proof {
            assert forall|a: int, b: int| self.board.in_bounds(a, b) implies (
            #[trigger] self.board.cell(a, b)).is_mine == old(self).board.cell(a, b).is_mine by {
                if a == r as int && b == c as int {
                    assert(self.board.cell(a, b) == cell1);
                } else {
                    assert(self.board.cell(a, b) == g_pre.board.cell(a, b));
                }
            }
        }
    }
}

/// Cell `(r, c)` became revealed between the two sessions.
pub open spec fn newly_revealed(g1: Game, g2: Game, r: int, c: int) -> bool {
    g2.board.cell(r, c).is_revealed && !g1.board.cell(r, c).is_revealed
}

/// A non-mine cell whose stored neighbor count is zero: revealing it
/// cascades to all its neighbors.
pub open spec fn zero_cell(b: Board, r: int, c: int) -> bool {
    &&& !b.cell(r, c).is_mine
    &&& b.cell(r, c).adjacent_mines == 0
}

/// How any reveal action rewrites the session: only hidden, unflagged cells
/// become revealed; flags, counts, mines, the tally, the cursor, the win
/// flag and the first-reveal marker are untouched; and the game is over
/// afterwards exactly if it was before or the action revealed a mine.
pub open spec fn reveal_rel(g1: Game, g2: Game) -> bool {
    &&& same_but_revealed(g1.board, g2.board)
    &&& g2.is_won == g1.is_won
    &&& g2.selected_cell == g1.selected_cell
    &&& g2.flagged == g1.flagged
    &&& g2.first_reveal == g1.first_reveal
    &&& forall|r: int, c: int|
        g1.board.in_bounds(r, c) && (#[trigger] g1.board.cell(r, c)).is_revealed ==> g2.board.cell(
            r,
            c,
        ).is_revealed
    &&& forall|r: int, c: int|
        g1.board.in_bounds(r, c) && #[trigger] newly_revealed(g1, g2, r, c) ==> !g2.board.cell(
            r,
            c,
        ).is_flagged
    &&& (g2.is_over <==> (g1.is_over || exists|r: int, c: int|
        g1.board.in_bounds(r, c) && #[trigger] newly_revealed(g1, g2, r, c) && g2.board.cell(
            r,
            c,
        ).is_mine))
}

/// Doing nothing is a reveal action.
pub proof fn lemma_reveal_rel_refl(g: Game)
    ensures
        reveal_rel(g, g),
{
}

/// Two reveal actions one after the other make one reveal action.
pub proof fn lemma_reveal_rel_trans(g0: Game, g1: Game, g2: Game)
    requires
        reveal_rel(g0, g1),
        reveal_rel(g1, g2),
    ensures
        reveal_rel(g0, g2),
{
    assert forall|r: int, c: int| g0.board.in_bounds(r, c) implies {
        &&& ((#[trigger] g0.board.cell(r, c)).is_revealed ==> g2.board.cell(r, c).is_revealed)
        &&& g2.board.cell(r, c).is_mine == g0.board.cell(r, c).is_mine
        &&& g2.board.cell(r, c).is_flagged == g0.board.cell(r, c).is_flagged
        &&& g2.board.cell(r, c).adjacent_mines == g0.board.cell(r, c).adjacent_mines
    } by {
        assert(g1.board.cell(r, c).is_flagged == g0.board.cell(r, c).is_flagged);
    }
    assert forall|r: int, c: int|
        g0.board.in_bounds(r, c) && #[trigger] newly_revealed(g0, g2, r, c) implies !g2.board.cell(
        r,
        c,
    ).is_flagged by {
        if g1.board.cell(r, c).is_revealed {
            assert(newly_revealed(g0, g1, r, c));
            assert(!g1.board.cell(r, c).is_flagged);
        } else {
            assert(newly_revealed(g1, g2, r, c));
        }
    }
    if g2.is_over {
        if g1.is_over {
            if !g0.is_over {
                let (r0, c0) = choose|r: int, c: int|
                    g0.board.in_bounds(r, c) && newly_revealed(g0, g1, r, c) && g1.board.cell(
                        r,
                        c,
                    ).is_mine;
                assert(newly_revealed(g0, g2, r0, c0) && g2.board.cell(r0, c0).is_mine);
            }
        } else {
            let (r0, c0) = choose|r: int, c: int|
                g1.board.in_bounds(r, c) && newly_revealed(g1, g2, r, c) && g2.board.cell(
                    r,
                    c,
                ).is_mine;
            assert(newly_revealed(g0, g2, r0, c0) && g2.board.cell(r0, c0).is_mine);
        }
    } else {
        assert forall|r: int, c: int|
            g0.board.in_bounds(r, c) && #[trigger] newly_revealed(g0, g2, r, c) implies !g2.board.cell(
            r,
            c,
        ).is_mine by {
            if g1.board.cell(r, c).is_revealed {
                assert(newly_revealed(g0, g1, r, c));
            } else {
                assert(newly_revealed(g1, g2, r, c));
            }
        }
    }
}

/// A path witnessing that the cascade from `(x, y)` reached its last cell:
/// it starts at `(x, y)`, every step moves to a neighbor, every cell on it
/// was freshly revealed, and every cell before the last is a zero cell.
pub open spec fn is_fill_path(g0: Game, g: Game, x: int, y: int, p: Seq<(int, int)>) -> bool {
    &&& p.len() >= 1
    &&& p[0] == (x, y)
    &&& forall|i: int|
        0 <= i < p.len() ==> g0.board.in_bounds((#[trigger] p[i]).0, p[i].1) && newly_revealed(
            g0,
            g,
            p[i].0,
            p[i].1,
        )
    &&& forall|i: int| 0 <= i < p.len() - 1 ==> zero_cell(g.board, (#[trigger] p[i]).0, p[i].1)
    &&& forall|i: int|
        0 <= i < p.len() - 1 ==> is_neighbor(
            (#[trigger] p[i]).0,
            p[i].1,
            p[i + 1].0,
            p[i + 1].1,
        )
}

/// A fill path stays a fill path when further cells are revealed and
/// nothing else changes.
pub proof fn lemma_fill_path_carries(
    g0: Game,
    g1: Game,
    g2: Game,
    x: int,
    y: int,
    p: Seq<(int, int)>,
)
    requires
        is_fill_path(g0, g1, x, y, p),
        g1.board.side == g0.board.side,
        g2.board.side == g1.board.side,
        forall|r: int, c: int|
            g1.board.in_bounds(r, c) ==> {
                &&& (#[trigger] g2.board.cell(r, c)).is_mine == g1.board.cell(r, c).is_mine
                &&& g2.board.cell(r, c).adjacent_mines == g1.board.cell(r, c).adjacent_mines
                &&& (g1.board.cell(r, c).is_revealed ==> g2.board.cell(r, c).is_revealed)
            },
    ensures
        is_fill_path(g0, g2, x, y, p),
{
    assert forall|i: int|
        0 <= i < p.len() implies g0.board.in_bounds((#[trigger] p[i]).0, p[i].1)
        && newly_revealed(g0, g2, p[i].0, p[i].1) by {
        let r = p[i].0;
        let c = p[i].1;
        assert(g0.board.in_bounds(r, c) && newly_revealed(g0, g1, r, c));
        assert(g1.board.in_bounds(r, c));
        assert(g2.board.cell(r, c).is_revealed);
    }
    assert forall|i: int| 0 <= i < p.len() - 1 implies zero_cell(
        g2.board,
        (#[trigger] p[i]).0,
        p[i].1,
    ) by {
        let r = p[i].0;
        let c = p[i].1;
        assert(g0.board.in_bounds(r, c) && zero_cell(g1.board, r, c));
        assert(g1.board.in_bounds(r, c));
        assert(g2.board.cell(r, c).is_mine == g1.board.cell(r, c).is_mine);
        assert(g2.board.cell(r, c).adjacent_mines == g1.board.cell(r, c).adjacent_mines);
    }
}

/// What holds throughout a cascading reveal that started at `(x, y)` in
/// session `g0` and has reached session `g`, with `stack` the zero cells
/// whose neighbors still wait to be visited:
/// - only reveals happen: flags, counts, mines, tally and cursor stay;
/// - reveals are monotone, and never hit a flagged cell;
/// - every pending cell is a freshly revealed, unflagged zero cell;
/// - the game is over exactly if it was, or a fresh reveal hit a mine;
/// - every fresh reveal beside `(x, y)` has a freshly revealed zero cell
///   among its neighbors (the cascade only spreads out of zero cells);
/// - every fresh reveal is connected to `(x, y)` by a fill path;
/// - every freshly revealed zero cell that is not pending has all its
///   unflagged neighbors revealed already.
pub open spec fn flood_inv(g0: Game, g: Game, x: int, y: int, stack: Seq<(usize, usize)>) -> bool {
    &&& g.wf()
    &&& g.board.side == g0.board.side
    &&& g.board.mines == g0.board.mines
    &&& g.is_won == g0.is_won
    &&& g.selected_cell == g0.selected_cell
    &&& g.flagged == g0.flagged
    &&& g.first_reveal == g0.first_reveal
    &&& same_but_revealed(g0.board, g.board)
    &&& forall|r: int, c: int|
        g0.board.in_bounds(r, c) && (#[trigger] g0.board.cell(r, c)).is_revealed ==> g.board.cell(
            r,
            c,
        ).is_revealed
    &&& forall|r: int, c: int|
        g0.board.in_bounds(r, c) && #[trigger] newly_revealed(g0, g, r, c) ==> !g.board.cell(
            r,
            c,
        ).is_flagged
    &&& forall|k: int|
        0 <= k < stack.len() ==> {
            let p = #[trigger] stack[k];
            &&& (p.0 as int) < g0.board.side
            &&& (p.1 as int) < g0.board.side
            &&& newly_revealed(g0, g, p.0 as int, p.1 as int)
            &&& zero_cell(g.board, p.0 as int, p.1 as int)
            &&& !g.board.cell(p.0 as int, p.1 as int).is_flagged
        }
    &&& (g.is_over <==> (g0.is_over || exists|r: int, c: int|
        g0.board.in_bounds(r, c) && #[trigger] newly_revealed(g0, g, r, c) && g.board.cell(
            r,
            c,
        ).is_mine))
    &&& forall|r: int, c: int|
        g0.board.in_bounds(r, c) && #[trigger] newly_revealed(g0, g, r, c) && !(r == x && c == y)
            ==> exists|a: int, b: int|
            g0.board.in_bounds(a, b) && #[trigger] newly_revealed(g0, g, a, b) && is_neighbor(
                r,
                c,
                a,
                b,
            ) && zero_cell(g.board, a, b)
    &&& forall|r: int, c: int|
        g0.board.in_bounds(r, c) && #[trigger] newly_revealed(g0, g, r, c)
            ==> exists|p: Seq<(int, int)>|
            #[trigger] is_fill_path(g0, g, x, y, p) && p.last() == (r, c)
    &&& forall|r: int, c: int|
        g0.board.in_bounds(r, c) && #[trigger] newly_revealed(g0, g, r, c) && zero_cell(
            g.board,
            r,
            c,
        ) && !stack.contains((r as usize, c as usize)) ==> (forall|a: int, b: int|
            g0.board.in_bounds(a, b) && is_neighbor(r, c, a, b) && !(#[trigger] g.board.cell(
                a,
                b,
            )).is_flagged ==> g.board.cell(a, b).is_revealed)
}

impl Game {
    /// One visit of the cascade: reveal the neighbor `(nx, ny)` of the
    /// pending zero cell `(px, py)` unless it is already revealed or carries
    /// a flag; a mine there ends the game, a fresh zero cell becomes pending.
    fn flood_visit(
        &mut self,
        stack: &mut Vec<(usize, usize)>,
        px: usize,
        py: usize,
        nx: usize,
        ny: usize,
        Ghost(g0): Ghost<Game>,
        Ghost(x): Ghost<int>,
        Ghost(y): Ghost<int>,
    )
        requires
            flood_inv(g0, *old(self), x, y, old(stack)@.push((px, py))),
            nx < old(self).board.side,
            ny < old(self).board.side,
            is_neighbor(px as int, py as int, nx as int, ny as int),
        ensures
            flood_inv(g0, *final(self), x, y, final(stack)@.push((px, py))),
            final(stack)@ == old(stack)@ || final(stack)@ == old(stack)@.push((nx, ny)),
            final(self).board.cell(nx as int, ny as int).is_revealed || final(self).board.cell(
                nx as int,
                ny as int,
            ).is_flagged,
            forall|r: int, c: int|
                g0.board.in_bounds(r, c) && (#[trigger] old(self).board.cell(r, c)).is_revealed
                    ==> final(self).board.cell(r, c).is_revealed,
            old(self).is_over ==> final(self).is_over,
            0 <= final(self).board.total_hidden(),
            final(self).board.total_hidden() + final(stack)@.len() <= old(self).board.total_hidden() + old(stack)@.len(),
    {
        let ghost s1 = old(stack)@.push((px, py));
        proof {
            assert(s1[s1.len() - 1] == (px, py));
        }
        let do_reveal = !self.board.cells[nx][ny].is_revealed && !self.board.cells[nx][ny].is_flagged;
        if do_reveal {
            let ghost cell0 = self.board.cells@[nx as int]@[ny as int];
            let ghost cell1 = (Cell { is_revealed: true, ..cell0 });
            self.board.cells[nx][ny].is_revealed = true;
            proof {
                lemma_count_grid_cell_update(
                    old(self).board.cells@,
                    nx as int,
                    ny as int,
                    self.board.cells@[nx as int],
                    cell1,
                    flag_pred(),
                );
                lemma_count_grid_cell_update(
                    old(self).board.cells@,
                    nx as int,
                    ny as int,
                    self.board.cells@[nx as int],
                    cell1,
                    hidden_pred(),
                );
            }
            if self.board.cells[nx][ny].is_mine {
                self.is_over = true;
            } else if self.board.cells[nx][ny].adjacent_mines == 0 {
                stack.push((nx, ny));
            }
        }
        proof {
            let g1 = *old(self);
            let nxi = nx as int;
            let nyi = ny as int;
            lemma_count_grid_bounds(self.board.cells@, self.board.side as int, hidden_pred());
            assert forall|r: int, c: int| g0.board.in_bounds(r, c) implies {
                &&& (!(r == nxi && c == nyi) ==> #[trigger] self.board.cell(r, c) == g1.board.cell(
                    r,
                    c,
                ))
                &&& self.board.cell(r, c).is_mine == g1.board.cell(r, c).is_mine
                &&& self.board.cell(r, c).is_flagged == g1.board.cell(r, c).is_flagged
                &&& self.board.cell(r, c).adjacent_mines == g1.board.cell(r, c).adjacent_mines
                &&& (g1.board.cell(r, c).is_revealed ==> self.board.cell(r, c).is_revealed)
            } by {
                if r == nxi && c == nyi {
                    if do_reveal {
                        assert(self.board.cell(r, c) == (Cell {
                            is_revealed: true,
                            ..g1.board.cell(r, c)
                        }));
                    } else {
                        assert(self.board.cell(r, c) == g1.board.cell(r, c));
                    }
                } else {
                    assert(self.board.cell(r, c) == g1.board.cell(r, c));
                }
            }
            let s2 = stack@.push((px, py));
            // elements of the old pending set are still pending elements
            assert forall|p: (usize, usize)| s1.contains(p) implies s2.contains(p) by {
                let i = choose|i: int| 0 <= i < s1.len() && s1[i] == p;
                if i < old(stack)@.len() {
                    assert(s2[i] == p);
                } else {
                    assert(s2[s2.len() - 1] == p);
                }
            }
            // every pending element is a freshly revealed, unflagged zero cell
            assert forall|k: int| 0 <= k < s2.len() implies {
                let p = #[trigger] s2[k];
                &&& (p.0 as int) < g0.board.side
                &&& (p.1 as int) < g0.board.side
                &&& newly_revealed(g0, *self, p.0 as int, p.1 as int)
                &&& zero_cell(self.board, p.0 as int, p.1 as int)
                &&& !self.board.cell(p.0 as int, p.1 as int).is_flagged
            } by {
                if k < old(stack)@.len() {
                    assert(s2[k] == s1[k]);
                } else if k == s2.len() - 1 {
                    assert(s2[k] == (px, py));
                    assert(s1[s1.len() - 1] == (px, py));
                } else {
                    assert(s2[k] == (nx, ny));
                }
            }
            // the game is over exactly if it was, or a fresh reveal hit a mine
            if self.is_over {
                if g1.is_over {
                    if !g0.is_over {
                        let (r0, c0) = choose|r: int, c: int|
                            g0.board.in_bounds(r, c) && newly_revealed(g0, g1, r, c)
                                && g1.board.cell(r, c).is_mine;
                        assert(newly_revealed(g0, *self, r0, c0) && self.board.cell(
                            r0,
                            c0,
                        ).is_mine);
                    }
                } else {
                    assert(newly_revealed(g0, *self, nxi, nyi) && self.board.cell(
                        nxi,
                        nyi,
                    ).is_mine);
                }
            } else {
                assert forall|r: int, c: int|
                    g0.board.in_bounds(r, c) && #[trigger] newly_revealed(g0, *self, r, c) implies !self.board.cell(
                    r,
                    c,
                ).is_mine by {
                    if r == nxi && c == nyi {
                    } else {
                        assert(newly_revealed(g0, g1, r, c));
                    }
                }
            }
            // every fresh reveal keeps a fill path from the start
            assert forall|r: int, c: int|
                g0.board.in_bounds(r, c) && #[trigger] newly_revealed(g0, *self, r, c) implies exists|
                p: Seq<(int, int)>,
            |
                #[trigger] is_fill_path(g0, *self, x, y, p) && p.last() == (r, c) by {
                if do_reveal && r == nxi && c == nyi {
                    assert(newly_revealed(g0, g1, px as int, py as int));
                    let p0 = choose|p: Seq<(int, int)>|
                        #[trigger] is_fill_path(g0, g1, x, y, p) && p.last() == (
                        px as int,
                        py as int,
                        );
                    lemma_fill_path_carries(g0, g1, *self, x, y, p0);
                    let p1 = p0.push((nxi, nyi));
                    assert(forall|i: int| 0 <= i < p0.len() ==> p1[i] == p0[i]);
                    assert(p1.last() == (nxi, nyi));
                    assert(zero_cell(self.board, px as int, py as int));
                    assert(is_fill_path(g0, *self, x, y, p1));
                } else {
                    assert(newly_revealed(g0, g1, r, c));
                    let p0 = choose|p: Seq<(int, int)>|
                        #[trigger] is_fill_path(g0, g1, x, y, p) && p.last() == (r, c);
                    lemma_fill_path_carries(g0, g1, *self, x, y, p0);
                }
            }
            // the cascade only spreads out of freshly revealed zero cells
            assert forall|r: int, c: int|
                g0.board.in_bounds(r, c) && #[trigger] newly_revealed(g0, *self, r, c) && !(r == x
                    && c == y) implies exists|a: int, b: int|
                g0.board.in_bounds(a, b) && #[trigger] newly_revealed(g0, *self, a, b)
                    && is_neighbor(r, c, a, b) && zero_cell(self.board, a, b) by {
                if do_reveal && r == nxi && c == nyi {
                    assert(g0.board.in_bounds(px as int, py as int) && newly_revealed(
                        g0,
                        *self,
                        px as int,
                        py as int,
                    ) && is_neighbor(nxi, nyi, px as int, py as int) && zero_cell(
                        self.board,
                        px as int,
                        py as int,
                    ));
                } else {
                    assert(newly_revealed(g0, g1, r, c));
                    let (a0, b0) = choose|a: int, b: int|
                        g0.board.in_bounds(a, b) && newly_revealed(g0, g1, a, b) && is_neighbor(
                            r,
                            c,
                            a,
                            b,
                        ) && zero_cell(g1.board, a, b);
                    assert(g0.board.in_bounds(a0, b0) && newly_revealed(g0, *self, a0, b0)
                        && is_neighbor(r, c, a0, b0) && zero_cell(self.board, a0, b0));
                }
            }
            // zero cells done with their visits keep all unflagged neighbors revealed
            assert forall|r: int, c: int|
                g0.board.in_bounds(r, c) && #[trigger] newly_revealed(g0, *self, r, c) && zero_cell(
                    self.board,
                    r,
                    c,
                ) && !s2.contains((r as usize, c as usize)) implies (forall|a: int, b: int|
                g0.board.in_bounds(a, b) && is_neighbor(r, c, a, b) && !(
                #[trigger] self.board.cell(a, b)).is_flagged ==> self.board.cell(
                    a,
                    b,
                ).is_revealed) by {
                if do_reveal && r == nxi && c == nyi {
                    assert(stack@[stack@.len() - 1] == (nx, ny));
                    assert(s2[stack@.len() - 1] == (nx, ny));
                    assert(s2.contains((r as usize, c as usize)));
                } else {
                    assert(newly_revealed(g0, g1, r, c) && zero_cell(g1.board, r, c));
                    assert(!s1.contains((r as usize, c as usize)));
                    assert forall|a: int, b: int|
                        g0.board.in_bounds(a, b) && is_neighbor(r, c, a, b) && !(
                        #[trigger] self.board.cell(a, b)).is_flagged implies self.board.cell(
                        a,
                        b,
                    ).is_revealed by {
                        assert(!g1.board.cell(a, b).is_flagged);
                        assert(g1.board.cell(a, b).is_revealed);
                    }
                }
            }
        }
    }
}

impl Game {
    /// Reveal the cell at `(x, y)`. A revealed or flagged target is left
    /// alone. A mine ends the game on the spot. A zero-count cell cascades:
    /// the reveal spreads through zero cells to all their unflagged
    /// neighbors, and stops at cells with a positive count or the edge.
    #[verifier::rlimit(100)]
    pub fn reveal_cell(&mut self, x: usize, y: usize)
        requires
            old(self).wf(),
            x < old(self).board.side,
            y < old(self).board.side,
        ensures
            final(self).wf(),
            // only hidden unflagged cells become revealed; everything else
            // is untouched; over exactly if it was or a mine came up
            reveal_rel(*old(self), *final(self)),
            old(self).is_over ==> final(self).is_over,
            // a revealed or flagged target makes the whole call a no-op
            old(self).board.cell(x as int, y as int).is_revealed || old(self).board.cell(
                x as int,
                y as int,
            ).is_flagged ==> *final(self) == *old(self),
            // otherwise the target comes out revealed
            !old(self).board.cell(x as int, y as int).is_revealed && !old(self).board.cell(
                x as int,
                y as int,
            ).is_flagged ==> final(self).board.cell(x as int, y as int).is_revealed,
            // a hidden mine target ends the game, and nothing else is revealed
            !old(self).board.cell(x as int, y as int).is_revealed && !old(self).board.cell(
                x as int,
                y as int,
            ).is_flagged && old(self).board.cell(x as int, y as int).is_mine ==> final(self).is_over && (forall|r: int, c: int|
                old(self).board.in_bounds(r, c) && !(r == x as int && c == y as int)
                    ==> (#[trigger] final(self).board.cell(r, c)).is_revealed == old(self).board.cell(r, c).is_revealed),
            // a hidden positive-count target is revealed alone
            !old(self).board.cell(x as int, y as int).is_revealed && !old(self).board.cell(
                x as int,
                y as int,
            ).is_flagged && !old(self).board.cell(x as int, y as int).is_mine && old(self).board.cell(x as int, y as int).adjacent_mines != 0 ==> (forall|r: int, c: int|
                old(self).board.in_bounds(r, c) && !(r == x as int && c == y as int)
                    ==> (#[trigger] final(self).board.cell(r, c)).is_revealed == old(self).board.cell(r, c).is_revealed),
            // every fresh reveal is connected to the target through zero cells
            forall|r: int, c: int|
                old(self).board.in_bounds(r, c) && #[trigger] newly_revealed(
                    *old(self),
                    *final(self),
                    r,
                    c,
                ) ==> exists|p: Seq<(int, int)>|
                    #[trigger] is_fill_path(*old(self), *final(self), x as int, y as int, p)
                        && p.last() == (r, c),
            // the revealed region spreads only out of zero cells
            forall|r: int, c: int|
                old(self).board.in_bounds(r, c) && #[trigger] newly_revealed(
                    *old(self),
                    *final(self),
                    r,
                    c,
                ) && !(r == x as int && c == y as int) ==> exists|a: int, b: int|
                    old(self).board.in_bounds(a, b) && #[trigger] newly_revealed(
                        *old(self),
                        *final(self),
                        a,
                        b,
                    ) && is_neighbor(r, c, a, b) && zero_cell(final(self).board, a, b),
            // every freshly revealed zero cell has all unflagged neighbors revealed
            forall|r: int, c: int|
                old(self).board.in_bounds(r, c) && #[trigger] newly_revealed(
                    *old(self),
                    *final(self),
                    r,
                    c,
                ) && zero_cell(final(self).board, r, c) ==> (forall|a: int, b: int|
                    old(self).board.in_bounds(a, b) && is_neighbor(r, c, a, b) && !(
                    #[trigger] final(self).board.cell(a, b)).is_flagged ==> final(
                        self
                    ).board.cell(a, b).is_revealed),
            // with consistent counts, revealing a non-mine never ends the game
            counts_consistent(old(self).board) && !old(self).board.cell(
                x as int,
                y as int,
            ).is_mine ==> final(self).is_over == old(self).is_over,
    {
        if self.board.cells[x][y].is_revealed || self.board.cells[x][y].is_flagged {
            return ;
        }
        let ghost g0 = *old(self);
        let ghost cell0 = self.board.cells@[x as int]@[y as int];
        let ghost cell1 = (Cell { is_revealed: true, ..cell0 });
        self.board.cells[x][y].is_revealed = true;
        proof {
            lemma_count_grid_cell_update(
                g0.board.cells@,
                x as int,
                y as int,
                self.board.cells@[x as int],
                cell1,
                flag_pred(),
            );
            lemma_count_grid_cell_update(
                g0.board.cells@,
                x as int,
                y as int,
                self.board.cells@[x as int],
                cell1,
                hidden_pred(),
            );
            lemma_count_grid_bounds(self.board.cells@, self.board.side as int, hidden_pred());
            assert forall|r: int, c: int| g0.board.in_bounds(r, c) implies {
                &&& (!(r == x as int && c == y as int) ==> #[trigger] self.board.cell(r, c)
                    == g0.board.cell(r, c))
                &&& (r == x as int && c == y as int ==> self.board.cell(r, c) == cell1)
            } by {
                if !(r == x as int && c == y as int) {
                    assert(self.board.cell(r, c) == g0.board.cell(r, c));
                }
            }
            assert forall|r: int, c: int|
                g0.board.in_bounds(r, c) && #[trigger] newly_revealed(g0, *self, r, c) implies (r
                == x as int && c == y as int) by {
                if !(r == x as int && c == y as int) {
                    assert(self.board.cell(r, c) == g0.board.cell(r, c));
                }
            }
        }
        if self.board.cells[x][y].is_mine {
            self.is_over = true;
            proof {
                assert(newly_revealed(g0, *self, x as int, y as int) && self.board.cell(
                    x as int,
                    y as int,
                ).is_mine);
                assert(is_fill_path(g0, *self, x as int, y as int, seq![(x as int, y as int)]));
            }
            return ;
        }
        if self.board.cells[x][y].adjacent_mines > 0 {
            proof {
                assert(is_fill_path(g0, *self, x as int, y as int, seq![(x as int, y as int)]));
            }
            return ;
        }
        let mut stack: Vec<(usize, usize)> = Vec::new();
        stack.push((x, y));
        proof {
            assert(stack@[0] == (x, y));
            assert(stack@.contains((x, y)));
            assert(newly_revealed(g0, *self, x as int, y as int));
            assert(is_fill_path(g0, *self, x as int, y as int, seq![(x as int, y as int)]));
        }
        let side = self.board.side;
        while stack.len() > 0
            invariant
                flood_inv(g0, *self, x as int, y as int, stack@),
                g0 == *old(self),
                side == g0.board.side,
                x < side,
                y < side,
                !g0.board.cell(x as int, y as int).is_revealed,
                !g0.board.cell(x as int, y as int).is_flagged,
                !g0.board.cell(x as int, y as int).is_mine,
                g0.board.cell(x as int, y as int).adjacent_mines == 0,
                self.board.cell(x as int, y as int).is_revealed,
                0 <= self.board.total_hidden(),
            decreases self.board.total_hidden() + stack@.len(),
        {
            let ghost s_before = stack@;
            let top = stack.pop().unwrap();
            let px = top.0;
            let py = top.1;
            proof {
                assert(s_before =~= stack@.push((px, py)));
                assert(s_before[s_before.len() - 1] == (px, py));
            }
            if px > 0 && py > 0 {
                self.flood_visit(&mut stack, px, py, px - 1, py - 1, Ghost(g0), Ghost(x as int), Ghost(y as int));
            }
            if px > 0 {
                self.flood_visit(&mut stack, px, py, px - 1, py, Ghost(g0), Ghost(x as int), Ghost(y as int));
            }
            if px > 0 && py + 1 < side {
                self.flood_visit(&mut stack, px, py, px - 1, py + 1, Ghost(g0), Ghost(x as int), Ghost(y as int));
            }
            if py > 0 {
                self.flood_visit(&mut stack, px, py, px, py - 1, Ghost(g0), Ghost(x as int), Ghost(y as int));
            }
            if py + 1 < side {
                self.flood_visit(&mut stack, px, py, px, py + 1, Ghost(g0), Ghost(x as int), Ghost(y as int));
            }
            if px + 1 < side && py > 0 {
                self.flood_visit(&mut stack, px, py, px + 1, py - 1, Ghost(g0), Ghost(x as int), Ghost(y as int));
            }
            if px + 1 < side {
                self.flood_visit(&mut stack, px, py, px + 1, py, Ghost(g0), Ghost(x as int), Ghost(y as int));
            }
            if px + 1 < side && py + 1 < side {
                self.flood_visit(&mut stack, px, py, px + 1, py + 1, Ghost(g0), Ghost(x as int), Ghost(y as int));
            }
            proof {
                let s2 = stack@.push((px, py));
                let pxi = px as int;
                let pyi = py as int;
                assert forall|k: int| 0 <= k < stack@.len() implies #[trigger] stack@[k]
                    == s2[k] by {}
                // every in-bounds unflagged neighbor of the popped cell is now revealed
                assert forall|a: int, b: int|
                    g0.board.in_bounds(a, b) && is_neighbor(pxi, pyi, a, b) && !(
                    #[trigger] self.board.cell(a, b)).is_flagged implies self.board.cell(
                    a,
                    b,
                ).is_revealed by {
                    assert(a == pxi - 1 || a == pxi || a == pxi + 1);
                    assert(b == pyi - 1 || b == pyi || b == pyi + 1);
                }
                // the pending clauses hold for the popped sequence as well
                assert forall|r: int, c: int|
                    g0.board.in_bounds(r, c) && #[trigger] newly_revealed(g0, *self, r, c)
                        && zero_cell(self.board, r, c) && !stack@.contains(
                        (r as usize, c as usize),
                    ) implies (forall|a: int, b: int|
                    g0.board.in_bounds(a, b) && is_neighbor(r, c, a, b) && !(
                    #[trigger] self.board.cell(a, b)).is_flagged ==> self.board.cell(
                        a,
                        b,
                    ).is_revealed) by {
                    if r == pxi && c == pyi {
                    } else {
                        assert(!s2.contains((r as usize, c as usize))) by {
                            if s2.contains((r as usize, c as usize)) {
                                let i = choose|i: int|
                                    0 <= i < s2.len() && s2[i] == (r as usize, c as usize);
                                if i < stack@.len() {
                                    assert(stack@[i] == (r as usize, c as usize));
                                }
                            }
                        }
                    }
                }
            }
        }
        proof {
            assert forall|p: (usize, usize)| !stack@.contains(p) by {}
            if counts_consistent(g0.board) && !g0.board.cell(x as int, y as int).is_mine {
                assert forall|r: int, c: int|
                    g0.board.in_bounds(r, c) && #[trigger] newly_revealed(g0, *self, r, c) implies !self.board.cell(
                    r,
                    c,
                ).is_mine by {
                    if !(r == x as int && c == y as int) {
                        let (a0, b0) = choose|a: int, b: int|
                            g0.board.in_bounds(a, b) && newly_revealed(g0, *self, a, b)
                                && is_neighbor(r, c, a, b) && zero_cell(self.board, a, b);
                        assert(g0.board.cell(a0, b0).adjacent_mines == 0 && !g0.board.cell(
                            a0,
                            b0,
                        ).is_mine);
                        assert(adj_mine_count(g0.board, a0, b0) == 0);
                        lemma_zero_count_neighbors_safe(g0.board, a0, b0, r, c);
                        assert(self.board.cell(r, c).is_mine == g0.board.cell(r, c).is_mine);
                    }
                }
            }
        }
    }
}

impl Game {
    /// Chord-reveal around `(x, y)`: meaningful only on a revealed cell with
    /// a positive stored count. When the flags among its neighbors match
    /// that count exactly, every unflagged neighbor is revealed in one
    /// action. The flags are trusted, not checked: a mis-flagged board can
    /// put a mine among those neighbors, and revealing it ends the game
    /// exactly like a direct reveal.
    pub fn reveal_adjacent_cells(&mut self, x: usize, y: usize)
        requires
            old(self).wf(),
            x < old(self).board.side,
            y < old(self).board.side,
        ensures
            final(self).wf(),
            reveal_rel(*old(self), *final(self)),
            old(self).is_over ==> final(self).is_over,
            // a hidden target or a zero stored count is a no-op
            !old(self).board.cell(x as int, y as int).is_revealed || old(self).board.cell(
                x as int,
                y as int,
            ).adjacent_mines == 0 ==> *final(self) == *old(self),
            // a flag count beside the stored count reveals nothing
            old(self).board.cell(x as int, y as int).is_revealed && old(self).board.cell(
                x as int,
                y as int,
            ).adjacent_mines != 0 && adj_flag_count(old(self).board, x as int, y as int) != old(
                self,
            ).board.cell(x as int, y as int).adjacent_mines ==> *final(self) == *old(self),
            // matching flags reveal every unflagged in-bounds neighbor
            old(self).board.cell(x as int, y as int).is_revealed && old(self).board.cell(
                x as int,
                y as int,
            ).adjacent_mines != 0 && adj_flag_count(old(self).board, x as int, y as int) == old(
                self,
            ).board.cell(x as int, y as int).adjacent_mines ==> (forall|a: int, b: int|
                old(self).board.in_bounds(a, b) && is_neighbor(x as int, y as int, a, b) && !(
                #[trigger] old(self).board.cell(a, b)).is_flagged ==> final(self).board.cell(
                    a,
                    b,
                ).is_revealed),
            // ... and end the game if a hidden unflagged neighbor is a mine
            old(self).board.cell(x as int, y as int).is_revealed && old(self).board.cell(
                x as int,
                y as int,
            ).adjacent_mines != 0 && adj_flag_count(old(self).board, x as int, y as int) == old(
                self,
            ).board.cell(x as int, y as int).adjacent_mines && (exists|a: int, b: int|
                old(self).board.in_bounds(a, b) && is_neighbor(x as int, y as int, a, b) && !(
                #[trigger] old(self).board.cell(a, b)).is_flagged && !old(self).board.cell(
                    a,
                    b,
                ).is_revealed && old(self).board.cell(a, b).is_mine) ==> final(self).is_over,
    {
        if !self.board.cells[x][y].is_revealed || self.board.cells[x][y].adjacent_mines == 0 {
            return ;
        }
        let flags = self.board.count_adjacent_flags(x, y);
        if flags != self.board.cells[x][y].adjacent_mines {
            return ;
        }
        let ghost g0 = *old(self);
        proof {
            lemma_reveal_rel_refl(g0);
        }
        let side = self.board.side;
        if x > 0 && y > 0 {
            let ghost gp = *self;
            self.reveal_cell(x - 1, y - 1);
            proof {
                lemma_reveal_rel_trans(g0, gp, *self);
            }
        }
        if x > 0 {
            let ghost gp = *self;
            self.reveal_cell(x - 1, y);
            proof {
                lemma_reveal_rel_trans(g0, gp, *self);
            }
        }
        if x > 0 && y + 1 < side {
            let ghost gp = *self;
            self.reveal_cell(x - 1, y + 1);
            proof {
                lemma_reveal_rel_trans(g0, gp, *self);
            }
        }
        if y > 0 {
            let ghost gp = *self;
            self.reveal_cell(x, y - 1);
            proof {
                lemma_reveal_rel_trans(g0, gp, *self);
            }
        }
        if y + 1 < side {
            let ghost gp = *self;
            self.reveal_cell(x, y + 1);
            proof {
                lemma_reveal_rel_trans(g0, gp, *self);
            }
        }
        if x + 1 < side && y > 0 {
            let ghost gp = *self;
            self.reveal_cell(x + 1, y - 1);
            proof {
                lemma_reveal_rel_trans(g0, gp, *self);
            }
        }
        if x + 1 < side {
            let ghost gp = *self;
            self.reveal_cell(x + 1, y);
            proof {
                lemma_reveal_rel_trans(g0, gp, *self);
            }
        }
        if x + 1 < side && y + 1 < side {
            let ghost gp = *self;
            self.reveal_cell(x + 1, y + 1);
            proof {
                lemma_reveal_rel_trans(g0, gp, *self);
            }
        }
        proof {
            let xi = x as int;
            let yi = y as int;
            assert forall|a: int, b: int|
                g0.board.in_bounds(a, b) && is_neighbor(xi, yi, a, b) && !(
                #[trigger] g0.board.cell(a, b)).is_flagged implies self.board.cell(
                a,
                b,
            ).is_revealed by {
                assert(a == xi - 1 || a == xi || a == xi + 1);
                assert(b == yi - 1 || b == yi || b == yi + 1);
            }
            if exists|a: int, b: int|
                g0.board.in_bounds(a, b) && is_neighbor(xi, yi, a, b) && !(
                #[trigger] g0.board.cell(a, b)).is_flagged && !g0.board.cell(a, b).is_revealed
                    && g0.board.cell(a, b).is_mine {
                let (a0, b0) = choose|a: int, b: int|
                    g0.board.in_bounds(a, b) && is_neighbor(xi, yi, a, b) && !(
                    #[trigger] g0.board.cell(a, b)).is_flagged && !g0.board.cell(a, b).is_revealed
                        && g0.board.cell(a, b).is_mine;
                assert(newly_revealed(g0, *self, a0, b0) && self.board.cell(a0, b0).is_mine);
            }
        }
    }
}

impl Game {
    /// Drive the session by one command and say whether it asks to quit.
    /// Cursor moves clamp at the edges; a flag toggle follows `toggle_rel`;
    /// the first reveal command places the mines away from the cursor and
    /// fills in the neighbor counts before any cell is opened, so the first
    /// reveal can never hit a mine; every reveal command then either chords
    /// (cursor on a revealed cell) or reveals directly.
    pub fn step(&mut self, cmd: Command) -> (quit: bool)
        requires
            old(self).wf(),
        ensures
            final(self).wf(),
            quit == (cmd is Quit),
            cmd is Quit ==> *final(self) == *old(self),
            cmd is MoveUp ==> *final(self) == (Game {
                selected_cell: (
                    if old(self).selected_cell.0 > 0 {
                        (old(self).selected_cell.0 - 1) as usize
                    } else {
                        old(self).selected_cell.0
                    },
                    old(self).selected_cell.1,
                ),
                ..*old(self)
            }),
            cmd is MoveDown ==> *final(self) == (Game {
                selected_cell: (
                    if old(self).selected_cell.0 < old(self).board.side - 1 {
                        (old(self).selected_cell.0 + 1) as usize
                    } else {
                        old(self).selected_cell.0
                    },
                    old(self).selected_cell.1,
                ),
                ..*old(self)
            }),
            cmd is MoveLeft ==> *final(self) == (Game {
                selected_cell: (
                    old(self).selected_cell.0,
                    if old(self).selected_cell.1 > 0 {
                        (old(self).selected_cell.1 - 1) as usize
                    } else {
                        old(self).selected_cell.1
                    },
                ),
                ..*old(self)
            }),
            cmd is MoveRight ==> *final(self) == (Game {
                selected_cell: (
                    old(self).selected_cell.0,
                    if old(self).selected_cell.1 < old(self).board.side - 1 {
                        (old(self).selected_cell.1 + 1) as usize
                    } else {
                        old(self).selected_cell.1
                    },
                ),
                ..*old(self)
            }),
            cmd is ToggleFlag ==> toggle_rel(*old(self), *final(self)),
            cmd is Reveal ==> {
                let sel_r = old(self).selected_cell.0 as int;
                let sel_c = old(self).selected_cell.1 as int;
                &&& final(self).first_reveal == false
                &&& final(self).board.side == old(self).board.side
                &&& final(self).board.mines == old(self).board.mines
                &&& final(self).selected_cell == old(self).selected_cell
                &&& final(self).is_won == old(self).is_won
                &&& final(self).flagged == old(self).flagged
                &&& (forall|r: int, c: int|
                    old(self).board.in_bounds(r, c) ==> (#[trigger] final(self).board.cell(
                        r,
                        c,
                    )).is_flagged == old(self).board.cell(r, c).is_flagged)
                &&& (old(self).is_over ==> final(self).is_over)
                &&& (old(self).first_reveal ==> {
                    &&& final(self).board.total_mines() == final(self).board.mines
                    &&& !final(self).board.cell(sel_r, sel_c).is_mine
                    &&& counts_consistent(final(self).board)
                    &&& (!old(self).board.cell(sel_r, sel_c).is_revealed ==> final(self).is_over
                        == old(self).is_over)
                    &&& (!old(self).board.cell(sel_r, sel_c).is_revealed && !old(self).board.cell(
                        sel_r,
                        sel_c,
                    ).is_flagged ==> final(self).board.cell(sel_r, sel_c).is_revealed)
                })
                &&& (!old(self).first_reveal ==> {
                    &&& reveal_rel(*old(self), *final(self))
                    &&& (!old(self).board.cell(sel_r, sel_c).is_revealed && !old(self).board.cell(
                        sel_r,
                        sel_c,
                    ).is_flagged ==> final(self).board.cell(sel_r, sel_c).is_revealed)
                })
            },
    {
        match cmd {
            Command::MoveUp => {
                if self.selected_cell.0 > 0 {
                    self.selected_cell = (self.selected_cell.0 - 1, self.selected_cell.1);
                }
                false
            },
            Command::MoveDown => {
                if self.selected_cell.0 < self.board.side - 1 {
                    self.selected_cell = (self.selected_cell.0 + 1, self.selected_cell.1);
                }
                false
            },
            Command::MoveLeft => {
                if self.selected_cell.1 > 0 {
                    self.selected_cell = (self.selected_cell.0, self.selected_cell.1 - 1);
                }
                false
            },
            Command::MoveRight => {
                if self.selected_cell.1 < self.board.side - 1 {
                    self.selected_cell = (self.selected_cell.0, self.selected_cell.1 + 1);
                }
                false
            },
            Command::ToggleFlag => {
                self.toggle_flag();
                false
            },
            Command::Reveal => {
                let (x, y) = self.selected_cell;
                if self.first_reveal {
                    let ghost g_start = *self;
                    self.first_reveal = false;
                    self.board.place_mines(x, y);
                    proof {
                        lemma_flag_total_carries(g_start.board, self.board);
                    }
                    let ghost g_placed = *self;
                    self.board.update_adjacent_mines();
                    proof {
                        lemma_flag_total_carries(g_placed.board, self.board);
                        lemma_mine_total_carries(g_placed.board, self.board);
                    }
                }
                let ghost g_mid = *self;
                if self.board.cells[x][y].is_revealed {
                    self.reveal_adjacent_cells(x, y);
                } else {
                    self.reveal_cell(x, y);
                }
                proof {
                    lemma_flag_total_carries(g_mid.board, self.board);
                    lemma_mine_total_carries(g_mid.board, self.board);
                    if counts_consistent(g_mid.board) {
                        lemma_consistency_carries(g_mid.board, self.board);
                    }
                }
                false
            },
            Command::Quit => true,
        }
    }
}

/// Law: a flag toggle that acts (the selected cell is hidden) and brings the
/// tally to the mine target always marks the game as won, no matter which
/// cells carry the flags.
pub proof fn lemma_flag_count_win(g1: Game, g2: Game)
    requires
        g1.wf(),
        !g1.board.cell(g1.selected_cell.0 as int, g1.selected_cell.1 as int).is_revealed,
        toggle_rel(g1, g2),
        g2.flagged == g2.board.mines,
    ensures
        g2.is_won,
{
}

} // verus!
