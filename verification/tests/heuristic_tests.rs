use puzzle_search::board::Board;
use puzzle_search::encode::encode_cells;
use puzzle_search::heuristics::{linear_conflict, manhattan_distance, walking_distance};
use puzzle_search::walking_distance::simulation;

fn board3(cells: &[u8]) -> Board {
    Board::new(3, cells.to_vec()).unwrap()
}

fn board4(cells: &[u8]) -> Board {
    Board::new(4, cells.to_vec()).unwrap()
}

#[test]
fn manhattan_zero_only_at_goal() {
    assert_eq!(manhattan_distance(&Board::goal(3)), 0);
    assert_eq!(manhattan_distance(&Board::goal(4)), 0);
    let b = board3(&[1, 2, 3, 4, 0, 5, 7, 8, 6]);
    assert!(manhattan_distance(&b) > 0);
}

#[test]
fn manhattan_exact_values() {
    let b = board3(&[1, 2, 3, 4, 0, 5, 7, 8, 6]);
    assert_eq!(manhattan_distance(&b), 2);
    let c = board4(&[1, 2, 3, 4, 5, 6, 7, 8, 9, 10, 0, 11, 13, 14, 15, 12]);
    assert_eq!(manhattan_distance(&c), 2);
    let d = board3(&[2, 1, 3, 4, 5, 6, 7, 8, 0]);
    assert_eq!(manhattan_distance(&d), 2);
}

#[test]
fn linear_conflict_zero_at_goal() {
    assert_eq!(linear_conflict(&Board::goal(3)), 0);
    assert_eq!(linear_conflict(&Board::goal(4)), 0);
}

#[test]
fn linear_conflict_counts_reversed_pair() {
    // 2 and 1 both belong to the top row but stand reversed.
    let d = board3(&[2, 1, 3, 4, 5, 6, 7, 8, 0]);
    assert_eq!(linear_conflict(&d), 2);
    // A conflict-free non-goal configuration.
    let b = board3(&[1, 2, 3, 4, 0, 5, 7, 8, 6]);
    assert_eq!(linear_conflict(&b), 0);
}

#[test]
fn walking_distance_zero_at_goal() {
    let table = simulation();
    assert_eq!(walking_distance(&Board::goal(4), &table), 0);
}

#[test]
fn walking_distance_one_move_away() {
    let table = simulation();
    let b = board4(&[1, 2, 3, 4, 5, 6, 7, 8, 9, 10, 11, 0, 13, 14, 15, 12]);
    assert_eq!(walking_distance(&b, &table), 1);
}

#[test]
fn simulation_maps_goal_board_to_zero() {
    let table = simulation();
    let goal_board: Vec<u8> = vec![4, 0, 0, 0, 0, 4, 0, 0, 0, 0, 4, 0, 0, 0, 0, 3];
    let key = encode_cells(&goal_board);
    assert_eq!(table.get(&key), Some(&0));
}

#[test]
fn simulation_maps_first_shift_to_one() {
    // One unit of count shifted from the third row into the short row.
    let table = simulation();
    let shifted: Vec<u8> = vec![4, 0, 0, 0, 0, 4, 0, 0, 0, 0, 3, 0, 0, 0, 1, 3];
    let key = encode_cells(&shifted);
    assert_eq!(table.get(&key), Some(&1));
}

#[test]
fn simulation_enumerates_many_boards() {
    let table = simulation();
    assert!(table.len() > 1000);
}
