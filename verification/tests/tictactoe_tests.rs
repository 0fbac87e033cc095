use puzzle_search::tictactoe::{minimax, move_with_minimax, other, GameState};

#[test]
fn other_swaps_players() {
    assert_eq!(other(1), 2);
    assert_eq!(other(2), 1);
}

#[test]
fn new_board_is_empty() {
    let g = GameState::new();
    assert_eq!(g.turn(), 1);
    for r in 0..5 {
        for c in 0..5 {
            assert_eq!(g.get(r, c), 0);
        }
    }
    assert!(!g.is_terminal());
    assert_eq!(g.evaluate(), 0);
}

#[test]
fn make_move_places_mark_and_passes_turn() {
    let mut g = GameState::new();
    g.make_move((2, 3));
    assert_eq!(g.get(2, 3), 1);
    assert_eq!(g.turn(), 2);
    g.make_move((1, 1));
    assert_eq!(g.get(1, 1), 2);
    assert_eq!(g.turn(), 1);
}

#[test]
fn four_in_a_row_wins() {
    let mut g = GameState::new();
    // Player 1 fills the top row; player 2 scatters.
    g.make_move((0, 0));
    g.make_move((1, 0));
    g.make_move((0, 1));
    g.make_move((1, 1));
    g.make_move((0, 2));
    g.make_move((3, 0));
    g.make_move((0, 3));
    assert!(g.check_win(1));
    assert!(!g.check_win(2));
    assert!(g.is_terminal());
    // Player 2 is to move; the previous mover (player 1) has won.
    assert_eq!(g.turn(), 2);
    assert_eq!(g.evaluate(), 100);
}

#[test]
fn three_in_a_row_loses() {
    let mut g = GameState::new();
    // Player 1 makes three in a row: a losing line.
    g.make_move((4, 0));
    g.make_move((0, 0));
    g.make_move((4, 1));
    g.make_move((0, 1));
    g.make_move((4, 2));
    assert!(g.check_loose(1));
    assert!(!g.check_loose(2));
    assert!(g.is_terminal());
    // Player 2 is to move; the previous mover (player 1) has lost.
    assert_eq!(g.turn(), 2);
    assert_eq!(g.evaluate(), -100);
}

#[test]
fn diagonal_win_is_detected() {
    let mut g = GameState::new();
    g.make_move((0, 0));
    g.make_move((0, 4));
    g.make_move((1, 1));
    g.make_move((1, 4));
    g.make_move((2, 2));
    g.make_move((4, 0));
    g.make_move((3, 3));
    assert!(g.check_win(1));
}

#[test]
fn succesors_fill_each_empty_cell() {
    let mut g = GameState::new();
    assert_eq!(g.succesors().len(), 25);
    g.make_move((2, 2));
    let succs = g.succesors();
    assert_eq!(succs.len(), 24);
    for s in &succs {
        assert_eq!(s.turn(), 1);
    }
}

#[test]
fn minimax_on_terminal_board_returns_evaluation() {
    let mut g = GameState::new();
    g.make_move((4, 0));
    g.make_move((0, 0));
    g.make_move((4, 1));
    g.make_move((0, 1));
    g.make_move((4, 2));
    assert_eq!(minimax(&g, 3, true, i32::MIN, i32::MAX), -100);
}

#[test]
fn minimax_depth_zero_evaluates_leaf() {
    let g = GameState::new();
    assert_eq!(minimax(&g, 0, true, i32::MIN, i32::MAX), 0);
}

#[test]
fn move_with_minimax_picks_empty_cell() {
    let mut g = GameState::new();
    g.make_move((0, 0));
    g.make_move((0, 1));
    let mv = move_with_minimax(&g, 0);
    assert!(mv.0 < 5 && mv.1 < 5);
    assert_eq!(g.get(mv.0, mv.1), 0);
}

#[test]
fn move_with_minimax_avoids_immediate_loss() {
    let mut g = GameState::new();
    // Player 1 already holds (4,0) and (4,1); marking (4,2) would
    // complete three in a row and lose, so that move is filtered out.
    g.make_move((4, 0));
    g.make_move((0, 0));
    g.make_move((4, 1));
    g.make_move((0, 1));
    let mv = move_with_minimax(&g, 0);
    assert!(mv.0 < 5 && mv.1 < 5);
    assert_eq!(g.get(mv.0, mv.1), 0);
    assert!(!(mv == (4, 2)));
}
