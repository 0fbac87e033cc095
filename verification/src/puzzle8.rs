//! The 8-puzzle variant: A* with the Manhattan distance plus twice the
//! linear-conflict penalty, and a reject-sampling random generator.

use vstd::prelude::*;
use std::collections::HashMap;
use crate::board::{Board, goal_seq};
use crate::search::{a_star_engine, HeuristicMode, valid_path, solution_exists, lemma_solution_implies_solvable};
use crate::solvability::solvable_spec;
use crate::generator::random_state_sized;

verus! {

/// A* over the 8-puzzle.  A returned path is a genuine solution: it starts
/// at `start`, ends at the goal, and each consecutive pair differs by one
/// legal blank move.
pub fn a_star_search(start: &Board) -> (r: Option<Vec<Board>>)
    requires
        start.wf(),
        start.spec_side() == 3,
    ensures
        r matches Some(path) ==> valid_path(3, path@, start@),
        start@ == goal_seq(3) ==> r is Some && r.unwrap()@.len() == 1,
        r is None ==> !solution_exists(3, start@),
        r is Some ==> solvable_spec(3, start@),
{
    let table: HashMap<u64, u8> = HashMap::new();
    let r = a_star_engine(start, HeuristicMode::ManhattanConflict, &table);
    proof {
        if r is Some {
            lemma_solution_implies_solvable(3, r.unwrap()@, start@);
        }
    }
    r
}

/// A random solvable 8-puzzle configuration, by reject sampling.
pub fn random_state() -> (b: Board)
    ensures
        b.wf(),
        b.spec_side() == 3,
        solvable_spec(3, b@),
{
    random_state_sized(3)
}

} // verus!
