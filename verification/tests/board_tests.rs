use minesweeper::board::logic;
use minesweeper::board::Board;

fn count_mines(b: &Board) -> usize {
    let mut n = 0;
    for row in &b.cells {
        for cell in row {
            if cell.is_mine {
                n += 1;
            }
        }
    }
    n
}

fn board_with_mines(side: usize, mines_at: &[(usize, usize)]) -> Board {
    let mut b = Board::new(side, mines_at.len() as i32);
    for &(r, c) in mines_at {
        b.cells[r][c].is_mine = true;
    }
    b.update_adjacent_mines();
    b
}

#[test]
fn new_board_is_blank() {
    let b = Board::new(9, 10);
    assert_eq!(b.side, 9);
    assert_eq!(b.mines, 10);
    assert_eq!(b.cells.len(), 9);
    for row in &b.cells {
        assert_eq!(row.len(), 9);
        for cell in row {
            assert!(!cell.is_mine);
            assert!(!cell.is_revealed);
            assert!(!cell.is_flagged);
            assert_eq!(cell.adjacent_mines, 0);
        }
    }
}

#[test]
fn logic_builds_the_default_board() {
    let b = logic(None);
    assert_eq!(b.side, 9);
    assert_eq!(b.mines, 10);
    assert_eq!(count_mines(&b), 0);
}

#[test]
fn logic_hands_a_given_board_back() {
    let mut given = Board::new(5, 3);
    given.cells[2][3].is_mine = true;
    let b = logic(Some(given));
    assert_eq!(b.side, 5);
    assert_eq!(b.mines, 3);
    assert!(b.cells[2][3].is_mine);
    assert_eq!(count_mines(&b), 1);
}

#[test]
fn place_mines_places_exactly_the_target_and_spares_the_safe_cell() {
    let mut b = Board::new(9, 10);
    b.place_mines(4, 4);
    assert!(!b.cells[4][4].is_mine);
    assert_eq!(count_mines(&b), 10);
    // nothing else was touched
    for row in &b.cells {
        for cell in row {
            assert!(!cell.is_revealed);
            assert!(!cell.is_flagged);
            assert_eq!(cell.adjacent_mines, 0);
        }
    }
}

#[test]
fn place_mines_can_fill_every_cell_but_the_safe_one() {
    let mut b = Board::new(3, 8);
    b.place_mines(1, 1);
    assert!(!b.cells[1][1].is_mine);
    assert_eq!(count_mines(&b), 8);
}

#[test]
fn adjacency_counts_are_exact() {
    let b = board_with_mines(5, &[(0, 0), (2, 2)]);
    assert_eq!(b.cells[1][1].adjacent_mines, 2);
    assert_eq!(b.cells[0][1].adjacent_mines, 1);
    assert_eq!(b.cells[1][0].adjacent_mines, 1);
    assert_eq!(b.cells[3][3].adjacent_mines, 1);
    assert_eq!(b.cells[1][2].adjacent_mines, 1);
    assert_eq!(b.cells[0][2].adjacent_mines, 0);
    assert_eq!(b.cells[4][4].adjacent_mines, 0);
    assert_eq!(b.cells[0][4].adjacent_mines, 0);
    // mine cells keep their stored count untouched
    assert_eq!(b.cells[0][0].adjacent_mines, 0);
    assert_eq!(b.cells[2][2].adjacent_mines, 0);
}

#[test]
fn adjacency_counts_clamp_at_the_edges() {
    // a corner mine is counted only by its three real neighbors
    let b = board_with_mines(3, &[(0, 0)]);
    assert_eq!(b.cells[0][1].adjacent_mines, 1);
    assert_eq!(b.cells[1][0].adjacent_mines, 1);
    assert_eq!(b.cells[1][1].adjacent_mines, 1);
    assert_eq!(b.cells[0][2].adjacent_mines, 0);
    assert_eq!(b.cells[2][2].adjacent_mines, 0);
}

#[test]
fn adjacency_count_can_reach_eight() {
    let b = board_with_mines(
        3,
        &[
            (0, 0),
            (0, 1),
            (0, 2),
            (1, 0),
            (1, 2),
            (2, 0),
            (2, 1),
            (2, 2),
        ],
    );
    assert_eq!(b.cells[1][1].adjacent_mines, 8);
}
