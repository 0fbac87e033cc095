//! The random problem-instance generators: reject-sampling a solvable
//! shuffle, and walking a fixed number of random legal moves from the goal.

use vstd::prelude::*;
use crate::board::{Board, goal_seq, step_seq};
use crate::solvability::{
    is_solvable,
    solvable_spec,
    lemma_goal_solvable,
    lemma_step_preserves_solvable,
};
use crate::rng::{fresh_rng, rand_index, shuffle_cells};

verus! {

/// Configuration `s` is reachable from the goal in at most `k` legal moves.
pub open spec fn reachable_within(n: int, s: Seq<u8>, k: int) -> bool
    decreases k,
{
    if s == goal_seq(n) {
        true
    } else if k <= 0 {
        false
    } else {
        exists|t: Seq<u8>|
            #![auto]
            reachable_within(n, t, k - 1) && step_seq(n, t, s)
    }
}

/// How many shuffles the reject-sampling generator draws before it falls
/// back to the goal configuration; each draw is solvable with probability
/// one half, so the fallback is unreachable in practice.
pub const RANDOM_DRAW_LIMIT: u64 = 10000;

/// Reject sampling: shuffles a uniform random permutation of the labels
/// until the solvability check passes.  Each draw passes with probability
/// one half, so the draw budget is never exhausted in practice; if it ever
/// were, the goal configuration itself is returned, which keeps the
/// contract.
pub(crate) fn random_state_sized(n: usize) -> (b: Board)
    requires
        n == 3 || n == 4,
    ensures
        b.wf(),
        b.spec_side() == n as int,
        solvable_spec(n as int, b@),
{
    let mut rng = fresh_rng();
    let area = n * n;
    let mut attempts: u64 = RANDOM_DRAW_LIMIT;
    while attempts > 0
        invariant
            n == 3 || n == 4,
            area == n * n,
        decreases attempts,
    {
        attempts = attempts - 1;
        let mut list: Vec<u8> = Vec::new();
        for i in 0..area
            invariant
                area <= 16,
                list@.len() == i,
        {
            list.push(i as u8);
        }
        shuffle_cells(&mut list, &mut rng);
        match Board::new(n, list) {
            Ok(b) => {
                if is_solvable(&b) {
                    return b;
                }
            },
            Err(_) => {},
        }
    }
    let g = Board::goal(n);
    proof {
        lemma_goal_solvable(n as int);
    }
    g
}

/// Random walk: performs `moves` uniformly random legal moves starting
/// from the goal, so the result is reachable in at most `moves` moves; zero
/// moves return the goal itself.
pub(crate) fn random_walk_from_goal(n: usize, moves: u16) -> (b: Board)
    requires
        n == 3 || n == 4,
    ensures
        b.wf(),
        b.spec_side() == n as int,
        reachable_within(n as int, b@, moves as int),
        moves == 0 ==> b@ == goal_seq(n as int),
        solvable_spec(n as int, b@),
{
    let mut b = Board::goal(n);
    if moves == 0 {
        proof {
            lemma_goal_solvable(n as int);
        }
        return b;
    }
    let mut rng = fresh_rng();
    proof {
        lemma_goal_solvable(n as int);
    }
    for step_i in 0..moves
        invariant
            n == 3 || n == 4,
            b.wf(),
            b.spec_side() == n as int,
            reachable_within(n as int, b@, step_i as int),
            solvable_spec(n as int, b@),
    {
        let nbs = b.neighbor_boards();
        let pick = rand_index(&mut rng, nbs.len());
        let ghost prev = b@;
        b = nbs[pick].clone();
        proof {
            if b@ != goal_seq(n as int) {
                assert(reachable_within(n as int, prev, step_i as int) && step_seq(
                    n as int,
                    prev,
                    b@,
                ));
            }
            assert(reachable_within(n as int, b@, step_i as int + 1));
            lemma_step_preserves_solvable(n as int, prev, b@);
        }
    }
    b
}

} // verus!
