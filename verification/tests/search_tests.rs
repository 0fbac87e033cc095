use puzzle_search::board::Board;
use puzzle_search::solvability::{get_inversion_count, is_solvable};
use puzzle_search::{puzzle15, puzzle15_wd, puzzle8};

fn board3(cells: &[u8]) -> Board {
    Board::new(3, cells.to_vec()).unwrap()
}

fn board4(cells: &[u8]) -> Board {
    Board::new(4, cells.to_vec()).unwrap()
}

#[test]
fn eight_puzzle_two_move_instance() {
    // Two moves from the goal; A* must solve it in exactly two moves.
    let start = board3(&[1, 2, 3, 4, 0, 5, 7, 8, 6]);
    let path = puzzle8::a_star_search(&start).unwrap();
    assert_eq!(path.len(), 3);
    assert!(path[0].same_as(&start));
    assert!(path[2].is_goal());
    assert!(path[2].same_as(&board3(&[1, 2, 3, 4, 5, 6, 7, 8, 0])));
}

#[test]
fn eight_puzzle_goal_returns_singleton_path() {
    let goal = Board::goal(3);
    let path = puzzle8::a_star_search(&goal).unwrap();
    assert_eq!(path.len(), 1);
    assert!(path[0].is_goal());
}

#[test]
fn eight_puzzle_random_instance_solves() {
    let start = puzzle8::random_state();
    assert!(is_solvable(&start));
    let path = puzzle8::a_star_search(&start).unwrap();
    assert!(path[0].same_as(&start));
    assert!(path[path.len() - 1].is_goal());
    for w in path.windows(2) {
        let mut is_neighbor = false;
        for nb in w[0].neighbor_boards() {
            if nb.same_as(&w[1]) {
                is_neighbor = true;
            }
        }
        assert!(is_neighbor);
    }
}

#[test]
fn fifteen_puzzle_goal_returns_singleton_path() {
    let goal = Board::goal(4);
    let path = puzzle15::a_star_search(&goal).unwrap();
    assert_eq!(path.len(), 1);
    assert!(path[0].is_goal());
}

#[test]
fn fifteen_puzzle_two_move_instance() {
    let start = board4(&[1, 2, 3, 4, 5, 6, 7, 8, 9, 10, 0, 11, 13, 14, 15, 12]);
    let path = puzzle15::a_star_search(&start).unwrap();
    assert!(path[0].same_as(&start));
    assert!(path[path.len() - 1].is_goal());
    assert_eq!(path.len(), 3);
}

#[test]
fn fifteen_puzzle_small_shuffle_solves() {
    let start = puzzle15::n_random_moves_from_goal(12);
    let path = puzzle15::a_star_search(&start).unwrap();
    assert!(path[0].same_as(&start));
    assert!(path[path.len() - 1].is_goal());
    // Reachable in at most 12 moves, so the path has at most 13 entries.
    assert!(path.len() <= 13);
}

#[test]
fn walking_distance_astar_two_move_instance() {
    let start = board4(&[1, 2, 3, 4, 5, 6, 7, 8, 9, 10, 0, 11, 13, 14, 15, 12]);
    let path = puzzle15_wd::a_star_search(&start).unwrap();
    assert_eq!(path.len(), 3);
    assert!(path[0].same_as(&start));
    assert!(path[2].is_goal());
}

#[test]
fn ida_star_two_move_instance() {
    let start = board4(&[1, 2, 3, 4, 5, 6, 7, 8, 9, 10, 0, 11, 13, 14, 15, 12]);
    let path = puzzle15_wd::ida_star_search(&start).unwrap();
    assert_eq!(path.len(), 3);
    assert!(path[0].same_as(&start));
    assert!(path[2].is_goal());
}

#[test]
fn ida_star_goal_instance() {
    let path = puzzle15_wd::ida_star_search(&Board::goal(4)).unwrap();
    assert_eq!(path.len(), 1);
    assert!(path[0].is_goal());
}

#[test]
fn ida_star_small_shuffle_solves() {
    let start = puzzle15_wd::n_random_moves_from_goal(10);
    let path = puzzle15_wd::ida_star_search(&start).unwrap();
    assert!(path[0].same_as(&start));
    assert!(path[path.len() - 1].is_goal());
    assert!(path.len() <= 11);
}

#[test]
fn goal_is_solvable() {
    assert!(is_solvable(&Board::goal(3)));
    assert!(is_solvable(&Board::goal(4)));
}

#[test]
fn swapped_pair_is_unsolvable() {
    // The classic 14-15 swap flips the parity.
    let b = board4(&[1, 2, 3, 4, 5, 6, 7, 8, 9, 10, 11, 12, 13, 15, 14, 0]);
    assert!(!is_solvable(&b));
    let c = board3(&[2, 1, 3, 4, 5, 6, 7, 8, 0]);
    assert!(!is_solvable(&c));
}

#[test]
fn one_move_from_goal_stays_solvable() {
    for nb in Board::goal(4).neighbor_boards() {
        assert!(is_solvable(&nb));
    }
    for nb in Board::goal(3).neighbor_boards() {
        assert!(is_solvable(&nb));
    }
}

#[test]
fn inversion_count_exact_values() {
    assert_eq!(get_inversion_count(&Board::goal(3)), 0);
    assert_eq!(get_inversion_count(&Board::goal(4)), 0);
    assert_eq!(get_inversion_count(&board3(&[2, 1, 3, 4, 5, 6, 7, 8, 0])), 1);
    assert_eq!(get_inversion_count(&board4(&[1, 2, 3, 4, 5, 6, 7, 8, 9, 10, 11, 12, 13, 15, 14, 0])), 1);
}

#[test]
fn random_walk_zero_moves_is_goal() {
    assert!(puzzle15::n_random_moves_from_goal(0).is_goal());
    assert!(puzzle15_wd::n_random_moves_from_goal(0).is_goal());
}

#[test]
fn random_walk_results_are_solvable() {
    for moves in [1u16, 5, 20] {
        let b = puzzle15::n_random_moves_from_goal(moves);
        assert_eq!(b.side(), 4);
        assert!(is_solvable(&b));
    }
}

#[test]
fn random_walk_one_move_leaves_goal() {
    let b = puzzle15::n_random_moves_from_goal(1);
    assert!(!b.is_goal());
    let mut back = false;
    for nb in b.neighbor_boards() {
        if nb.is_goal() {
            back = true;
        }
    }
    assert!(back);
}

#[test]
fn random_state_actually_shuffles() {
    // A genuine shuffle of the 15-puzzle hits the goal order with
    // vanishing probability; an unshuffled draw would not be solvable and
    // would fall back to the goal configuration.
    let b = puzzle15::random_state();
    assert!(!b.is_goal());
}

#[test]
fn random_states_are_solvable() {
    let b = puzzle8::random_state();
    assert_eq!(b.side(), 3);
    assert!(is_solvable(&b));
    let c = puzzle15::random_state();
    assert_eq!(c.side(), 4);
    assert!(is_solvable(&c));
    let d = puzzle15_wd::random_state();
    assert_eq!(d.side(), 4);
    assert!(is_solvable(&d));
}
