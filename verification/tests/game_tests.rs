use minesweeper::board::Board;
use minesweeper::game::Command;
use minesweeper::game::Game;

fn board_with_mines(side: usize, mines_at: &[(usize, usize)]) -> Board {
    let mut b = Board::new(side, mines_at.len() as i32);
    for &(r, c) in mines_at {
        b.cells[r][c].is_mine = true;
    }
    b.update_adjacent_mines();
    b
}

/// A session whose mines are already placed, ready for reveals.
fn game_on(board: Board) -> Game {
    Game {
        board,
        is_over: false,
        is_won: false,
        selected_cell: (0, 0),
        flagged: 0,
        first_reveal: false,
    }
}

fn count_revealed(g: &Game) -> usize {
    let mut n = 0;
    for row in &g.board.cells {
        for cell in row {
            if cell.is_revealed {
                n += 1;
            }
        }
    }
    n
}

fn count_mines(g: &Game) -> usize {
    let mut n = 0;
    for row in &g.board.cells {
        for cell in row {
            if cell.is_mine {
                n += 1;
            }
        }
    }
    n
}

#[test]
fn new_game_starts_fresh() {
    let g = Game::new();
    assert_eq!(g.board.side, 9);
    assert_eq!(g.board.mines, 10);
    assert!(!g.is_over);
    assert!(!g.is_won);
    assert_eq!(g.selected_cell, (0, 0));
    assert_eq!(g.flagged, 0);
    assert!(g.first_reveal);
    assert_eq!(count_mines(&g), 0);
}

#[test]
fn flood_fill_opens_the_zero_region_up_to_its_border() {
    // one corner mine: every other cell is connected through zero cells
    let mut g = game_on(board_with_mines(5, &[(0, 0)]));
    g.reveal_cell(4, 4);
    assert!(!g.is_over);
    assert!(!g.board.cells[0][0].is_revealed);
    for r in 0..5 {
        for c in 0..5 {
            if (r, c) != (0, 0) {
                assert!(g.board.cells[r][c].is_revealed);
            }
        }
    }
}

#[test]
fn flood_fill_stops_at_positive_counts() {
    // a wall of mines on column 2 splits the board in two
    let mut g = game_on(board_with_mines(5, &[(0, 2), (1, 2), (2, 2), (3, 2), (4, 2)]));
    g.reveal_cell(0, 0);
    assert!(!g.is_over);
    // the left side is open: its zero column and the bordering count column
    for r in 0..5 {
        assert!(g.board.cells[r][0].is_revealed);
        assert!(g.board.cells[r][1].is_revealed);
    }
    // the wall and everything beyond it stay hidden
    for r in 0..5 {
        for c in 2..5 {
            assert!(!g.board.cells[r][c].is_revealed);
        }
    }
}

#[test]
fn revealing_a_positive_count_cell_opens_it_alone() {
    let mut g = game_on(board_with_mines(3, &[(0, 0)]));
    g.reveal_cell(1, 1);
    assert!(g.board.cells[1][1].is_revealed);
    assert_eq!(count_revealed(&g), 1);
    assert!(!g.is_over);
}

#[test]
fn revealing_a_flagged_cell_is_a_no_op() {
    let mut g = game_on(board_with_mines(3, &[(2, 2)]));
    g.board.cells[1][1].is_flagged = true;
    g.flagged = 1;
    g.reveal_cell(1, 1);
    assert!(!g.board.cells[1][1].is_revealed);
    assert!(g.board.cells[1][1].is_flagged);
    assert_eq!(count_revealed(&g), 0);
    assert!(!g.is_over);
}

#[test]
fn flood_fill_skips_flagged_cells() {
    let mut g = game_on(board_with_mines(5, &[(0, 0)]));
    g.board.cells[3][3].is_flagged = true;
    g.flagged = 1;
    g.reveal_cell(4, 4);
    assert!(!g.board.cells[3][3].is_revealed);
    assert!(g.board.cells[3][3].is_flagged);
    // everything else but the mine opens
    assert_eq!(count_revealed(&g), 23);
}

#[test]
fn revealing_a_mine_ends_the_game_and_nothing_else() {
    let mut g = game_on(board_with_mines(3, &[(0, 0)]));
    g.reveal_cell(0, 0);
    assert!(g.is_over);
    assert!(g.board.cells[0][0].is_revealed);
    assert_eq!(count_revealed(&g), 1);
}

#[test]
fn revealing_a_revealed_cell_changes_nothing() {
    let mut g = game_on(board_with_mines(3, &[(0, 0)]));
    g.reveal_cell(1, 1);
    g.reveal_cell(1, 1);
    assert_eq!(count_revealed(&g), 1);
    assert!(!g.is_over);
}

#[test]
fn chord_on_a_hidden_cell_is_a_no_op() {
    let mut g = game_on(board_with_mines(3, &[(0, 0)]));
    g.reveal_adjacent_cells(1, 1);
    assert_eq!(count_revealed(&g), 0);
}

#[test]
fn chord_with_mismatched_flags_reveals_nothing() {
    let mut g = game_on(board_with_mines(3, &[(0, 0)]));
    g.reveal_cell(1, 1);
    // no flags at all: zero flagged neighbors, count is one
    g.reveal_adjacent_cells(1, 1);
    assert_eq!(count_revealed(&g), 1);
    assert!(!g.is_over);
}

#[test]
fn chord_with_matching_flags_opens_every_unflagged_neighbor() {
    let mut g = game_on(board_with_mines(3, &[(0, 0)]));
    g.board.cells[0][0].is_flagged = true;
    g.flagged = 1;
    g.reveal_cell(1, 1);
    g.reveal_adjacent_cells(1, 1);
    assert!(!g.is_over);
    assert!(!g.board.cells[0][0].is_revealed);
    for r in 0..3 {
        for c in 0..3 {
            if (r, c) != (0, 0) {
                assert!(g.board.cells[r][c].is_revealed, "({}, {}) should be open", r, c);
            }
        }
    }
}

#[test]
fn chord_with_a_wrong_flag_hits_the_mine() {
    let mut g = game_on(board_with_mines(3, &[(0, 0)]));
    // the flag sits on a safe cell, so the count still matches
    g.board.cells[0][1].is_flagged = true;
    g.flagged = 1;
    g.reveal_cell(1, 1);
    g.reveal_adjacent_cells(1, 1);
    assert!(g.is_over);
    assert!(g.board.cells[0][0].is_revealed);
    assert!(!g.board.cells[0][1].is_revealed);
}

#[test]
fn ten_flags_on_safe_cells_win_on_the_tenth() {
    // ten mines along the bottom row and one more beside it
    let mines: Vec<(usize, usize)> = (0..9).map(|c| (8usize, c)).chain([(7usize, 0)]).collect();
    let mut g = game_on(board_with_mines(9, &mines));
    // flag ten cells of the top rows: none of them is a mine
    for k in 0..10usize {
        assert!(!g.is_won);
        let (r, c) = (k / 9, k % 9);
        assert!(!g.board.cells[r][c].is_mine);
        g.selected_cell = (r, c);
        g.toggle_flag();
        assert_eq!(g.flagged, k as i32 + 1);
    }
    assert!(g.is_won);
}

#[test]
fn unflagging_leaves_the_win_for_the_next_full_tally() {
    let mut g = game_on(board_with_mines(3, &[(0, 0), (2, 2)]));
    g.selected_cell = (1, 1);
    g.toggle_flag();
    assert!(!g.is_won);
    g.selected_cell = (0, 1);
    g.toggle_flag();
    assert!(g.is_won);
    assert_eq!(g.flagged, 2);
    g.toggle_flag();
    assert_eq!(g.flagged, 1);
}

#[test]
fn a_revealed_cell_cannot_be_flagged() {
    let mut g = game_on(board_with_mines(3, &[(0, 0)]));
    g.reveal_cell(1, 1);
    g.selected_cell = (1, 1);
    g.toggle_flag();
    assert!(!g.board.cells[1][1].is_flagged);
    assert_eq!(g.flagged, 0);
}

#[test]
fn cursor_moves_clamp_at_the_edges() {
    let mut g = Game::new();
    assert!(!g.step(Command::MoveUp));
    assert_eq!(g.selected_cell, (0, 0));
    assert!(!g.step(Command::MoveLeft));
    assert_eq!(g.selected_cell, (0, 0));
    assert!(!g.step(Command::MoveDown));
    assert_eq!(g.selected_cell, (1, 0));
    assert!(!g.step(Command::MoveRight));
    assert_eq!(g.selected_cell, (1, 1));
    for _ in 0..20 {
        g.step(Command::MoveDown);
        g.step(Command::MoveRight);
    }
    assert_eq!(g.selected_cell, (8, 8));
}

#[test]
fn quit_asks_to_stop_and_changes_nothing() {
    let mut g = Game::new();
    let quit = g.step(Command::Quit);
    assert!(quit);
    assert!(g.first_reveal);
    assert_eq!(g.selected_cell, (0, 0));
    assert_eq!(count_mines(&g), 0);
}

#[test]
fn first_reveal_places_the_mines_away_from_the_cursor() {
    let mut g = Game::new();
    for _ in 0..4 {
        g.step(Command::MoveDown);
        g.step(Command::MoveRight);
    }
    assert_eq!(g.selected_cell, (4, 4));
    let quit = g.step(Command::Reveal);
    assert!(!quit);
    assert!(!g.first_reveal);
    assert_eq!(count_mines(&g), 10);
    assert!(!g.board.cells[4][4].is_mine);
    assert!(g.board.cells[4][4].is_revealed);
    assert!(!g.is_over);
}

#[test]
fn a_reveal_step_on_a_revealed_cell_chords() {
    let mut g = game_on(board_with_mines(3, &[(0, 0)]));
    g.selected_cell = (1, 1);
    g.board.cells[0][0].is_flagged = true;
    g.flagged = 1;
    assert!(!g.step(Command::Reveal));
    assert!(g.board.cells[1][1].is_revealed);
    // the cell is open now; the next reveal command chords around it
    assert!(!g.step(Command::Reveal));
    assert!(g.board.cells[2][2].is_revealed);
    assert!(!g.board.cells[0][0].is_revealed);
    assert!(!g.is_over);
}

#[test]
fn a_flag_step_follows_the_toggle_rule() {
    let mut g = game_on(board_with_mines(3, &[(0, 0), (2, 2)]));
    assert!(!g.step(Command::ToggleFlag));
    assert!(g.board.cells[0][0].is_flagged);
    assert_eq!(g.flagged, 1);
    assert!(!g.step(Command::ToggleFlag));
    assert!(!g.board.cells[0][0].is_flagged);
    assert_eq!(g.flagged, 0);
}
