//! The admissible 15-puzzle variant: A* and IDA* with the Walking-Distance
//! estimate alone.

use vstd::prelude::*;
use crate::board::{Board, goal_seq};
use crate::search::{a_star_engine, ida_engine, HeuristicMode, valid_path, solution_exists, lemma_solution_implies_solvable};
use crate::solvability::solvable_spec;
use crate::generator::{random_state_sized, random_walk_from_goal, reachable_within};
use crate::walking_distance::simulation;

verus! {

/// A* over the 15-puzzle with the Walking-Distance estimate.  The table
/// is rebuilt on every call; a caller solving many instances should build
/// it once with `simulation` and use `a_star_engine` directly.
pub fn a_star_search(start: &Board) -> (r: Option<Vec<Board>>)
    requires
        start.wf(),
        start.spec_side() == 4,
    ensures
        r matches Some(path) ==> valid_path(4, path@, start@),
        start@ == goal_seq(4) ==> r is Some && r.unwrap()@.len() == 1,
        r is None ==> !solution_exists(4, start@),
        r is Some ==> solvable_spec(4, start@),
{
    let table = simulation();
    let r = a_star_engine(start, HeuristicMode::WalkingOnly, &table);
    proof {
        if r is Some {
            lemma_solution_implies_solvable(4, r.unwrap()@, start@);
        }
    }
    r
}

/// IDA* over the 15-puzzle with the Walking-Distance estimate: iterative
/// deepening on the estimate bound, with the visited set reset at every
/// pass.  A returned path is a genuine solution, and failure is reported
/// only when no solution exists.  The table is rebuilt on every call; a
/// caller solving many instances should build it once with `simulation`
/// and use `ida_engine` directly.
pub fn ida_star_search(start: &Board) -> (r: Option<Vec<Board>>)
    requires
        start.wf(),
        start.spec_side() == 4,
    ensures
        r matches Some(path) ==> valid_path(4, path@, start@),
        start@ == goal_seq(4) ==> r is Some && r.unwrap()@.len() == 1,
        r is None ==> !solution_exists(4, start@),
        r is Some ==> solvable_spec(4, start@),
{
    let table = simulation();
    let r = ida_engine(start, HeuristicMode::WalkingOnly, &table);
    proof {
        if r is Some {
            lemma_solution_implies_solvable(4, r.unwrap()@, start@);
        }
    }
    r
}

/// A random solvable 15-puzzle configuration, by reject sampling.
pub fn random_state() -> (b: Board)
    ensures
        b.wf(),
        b.spec_side() == 4,
        solvable_spec(4, b@),
{
    random_state_sized(4)
}

/// A 15-puzzle configuration obtained by `n` random legal moves from the
/// goal: solvable by construction and reachable in at most `n` moves.
pub fn n_random_moves_from_goal(n: u16) -> (b: Board)
    ensures
        b.wf(),
        b.spec_side() == 4,
        reachable_within(4, b@, n as int),
        n == 0 ==> b@ == goal_seq(4),
        solvable_spec(4, b@),
{
    random_walk_from_goal(4, n)
}

} // verus!
