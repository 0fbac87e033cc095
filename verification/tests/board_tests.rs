use puzzle_search::board::{Board, BoardError};

fn board3(cells: &[u8]) -> Board {
    Board::new(3, cells.to_vec()).unwrap()
}

fn board4(cells: &[u8]) -> Board {
    Board::new(4, cells.to_vec()).unwrap()
}

#[test]
fn goal_boards_are_goals() {
    assert!(Board::goal(3).is_goal());
    assert!(Board::goal(4).is_goal());
}

#[test]
fn goal_board_cells() {
    let g = Board::goal(3);
    assert_eq!(g.side(), 3);
    assert_eq!(g.get(0, 0), 1);
    assert_eq!(g.get(1, 2), 6);
    assert_eq!(g.get(2, 2), 0);
    let g4 = Board::goal(4);
    assert_eq!(g4.side(), 4);
    assert_eq!(g4.get(3, 2), 15);
    assert_eq!(g4.get(3, 3), 0);
}

#[test]
fn new_accepts_valid_configuration() {
    let b = board3(&[1, 2, 3, 4, 0, 5, 7, 8, 6]);
    assert_eq!(b.get(1, 1), 0);
    assert!(!b.is_goal());
}

#[test]
fn new_rejects_invalid_side() {
    assert_eq!(Board::new(5, vec![0; 25]).unwrap_err(), BoardError::InvalidSide);
    assert_eq!(Board::new(2, vec![0; 4]).unwrap_err(), BoardError::InvalidSide);
}

#[test]
fn new_rejects_wrong_tile_count() {
    assert_eq!(Board::new(3, vec![1, 2, 3, 4, 0]).unwrap_err(), BoardError::WrongTileCount);
}

#[test]
fn new_rejects_tile_out_of_range() {
    assert_eq!(
        Board::new(3, vec![1, 2, 3, 4, 0, 5, 7, 8, 9]).unwrap_err(),
        BoardError::TileOutOfRange
    );
}

#[test]
fn new_rejects_duplicate_tile() {
    assert_eq!(
        Board::new(3, vec![1, 2, 3, 4, 0, 5, 7, 8, 8]).unwrap_err(),
        BoardError::DuplicateTile
    );
}

#[test]
fn same_as_compares_cells() {
    let a = board3(&[1, 2, 3, 4, 0, 5, 7, 8, 6]);
    let b = board3(&[1, 2, 3, 4, 0, 5, 7, 8, 6]);
    let c = board3(&[1, 2, 3, 4, 5, 0, 7, 8, 6]);
    assert!(a.same_as(&b));
    assert!(!a.same_as(&c));
}

#[test]
fn neighbors_of_goal() {
    // Blank in the corner: exactly two legal moves.
    let g = Board::goal(3);
    let nbs = g.neighbor_boards();
    assert_eq!(nbs.len(), 2);
    for nb in &nbs {
        assert!(!nb.is_goal());
    }
}

#[test]
fn neighbors_of_center_blank() {
    let b = board3(&[1, 2, 3, 4, 0, 5, 7, 8, 6]);
    assert_eq!(b.neighbor_boards().len(), 4);
}

#[test]
fn moves_are_invertible() {
    // Applying a move and then its inverse returns the original
    // configuration.
    let b = board4(&[1, 2, 3, 4, 5, 6, 7, 8, 9, 10, 0, 11, 13, 14, 15, 12]);
    for nb in b.neighbor_boards() {
        let mut recovered = false;
        for back in nb.neighbor_boards() {
            if back.same_as(&b) {
                recovered = true;
            }
        }
        assert!(recovered);
    }
}
