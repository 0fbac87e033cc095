//! The search engines shared by the puzzle variants: A* over a min-priority
//! frontier with a visited set, and the bounded depth-first core of IDA*.
//!
//! Every path either engine returns is proved to be a genuine move
//! sequence: it starts at the given configuration, ends at the goal, and
//! each consecutive pair differs by one legal blank move.  Both engines
//! are further proved complete: they report failure only when no move
//! sequence at all leads from the start to the goal.

use vstd::prelude::*;
use std::collections::HashMap;
use std::collections::HashSet;
use crate::board::{Board, goal_seq, step_seq, adjacent, moved_seq, valid_config, neighbor_views};
use crate::encode::{key_of, lemma_key_of_u64, lemma_key_of_injective};
use crate::solvability::{solvable_spec, lemma_goal_solvable, lemma_step_preserves_solvable};
use crate::board::lemma_step_roundtrip;
use crate::heuristics::{
    manhattan_distance,
    linear_conflict,
    walking_distance,
    manhattan_spec,
    linear_conflict_spec,
    wd_spec,
};

verus! {

broadcast use vstd::std_specs::hash::group_hash_axioms;

/// How a variant combines the heuristic components with the path cost.
#[derive(Clone, Copy, Debug, PartialEq, Eq, Structural)]
pub enum HeuristicMode {
    /// Manhattan distance plus twice the linear-conflict penalty: the
    /// 8-puzzle combination.
    ManhattanConflict,
    /// A third of the Manhattan distance, the linear-conflict penalty and
    /// the Walking Distance: the fast 15-puzzle blend, which trades strict
    /// admissibility for speed.
    Blend,
    /// The Walking Distance alone.
    WalkingOnly,
}

/// Whether the combination reads the Walking-Distance table.
pub open spec fn mode_uses_table(m: HeuristicMode) -> bool {
    m is Blend || m is WalkingOnly
}

/// A search node: a configuration, its path cost, its cached heuristic
/// components, and the arena index of the node it was generated from.
pub struct State {
    pub board: Board,
    pub cost: u64,
    pub manhattan: u32,
    pub linear_conflict: u32,
    pub walking_distance: u32,
    pub mode: HeuristicMode,
    pub parent: Option<usize>,
}

/// The combined cost estimate of a node.
pub open spec fn spec_total_cost(s: State) -> int {
    s.cost + match s.mode {
        HeuristicMode::ManhattanConflict => s.manhattan + 2 * s.linear_conflict,
        HeuristicMode::Blend => s.manhattan / 3 + s.linear_conflict + s.walking_distance,
        HeuristicMode::WalkingOnly => s.walking_distance as int,
    }
}

impl State {
    /// Builds a node, computing its heuristic components once.
    pub fn new(
        board: Board,
        cost: u64,
        parent: Option<usize>,
        mode: HeuristicMode,
        table: &HashMap<u64, u8>,
    ) -> (s: State)
        requires
            board.wf(),
            mode_uses_table(mode) ==> board.spec_side() == 4,
        ensures
            s.board == board,
            s.cost == cost,
            s.parent == parent,
            s.mode == mode,
            s.manhattan as int == manhattan_spec(board.spec_side(), board@),
            s.linear_conflict as int == linear_conflict_spec(board.spec_side(), board@),
            mode_uses_table(mode) ==> s.walking_distance as int == wd_spec(board@, table@),
            !mode_uses_table(mode) ==> s.walking_distance == 0,
            s.manhattan <= 96,
            s.linear_conflict <= 480,
            s.walking_distance <= 510,
    {
        let manhattan = manhattan_distance(&board);
        let lc = linear_conflict(&board);
        let wd: u32 = match mode {
            HeuristicMode::ManhattanConflict => 0,
            _ => walking_distance(&board, table),
        };
        State { board, cost, manhattan, linear_conflict: lc, walking_distance: wd, mode, parent }
    }

    /// The configuration equals the goal.
    pub fn is_goal_state(&self) -> (r: bool)
        requires
            self.board.wf(),
        ensures
            r <==> self.board@ == goal_seq(self.board.spec_side()),
    {
        self.board.is_goal()
    }

    /// Path cost plus the mode's heuristic combination.
    pub fn total_cost(&self) -> (r: u128)
        ensures
            r as int == spec_total_cost(*self),
    {
        (self.cost as u128) + match self.mode {
            HeuristicMode::ManhattanConflict => (self.manhattan as u128) + 2 * (
            self.linear_conflict as u128),
            HeuristicMode::Blend => (self.manhattan as u128) / 3 + (self.linear_conflict as u128)
                + (self.walking_distance as u128),
            HeuristicMode::WalkingOnly => self.walking_distance as u128,
        }
    }

    /// The nodes one legal move away, in the fixed order right, left, down,
    /// up, each pointing back at this node's arena index; every legal move
    /// appears.
    pub fn successors(&self, my_idx: usize, table: &HashMap<u64, u8>) -> (r: Vec<State>)
        requires
            self.board.wf(),
            self.cost < u64::MAX,
            mode_uses_table(self.mode) ==> self.board.spec_side() == 4,
        ensures
            2 <= r@.len() <= 4,
            forall|k: int|
                0 <= k < r@.len() ==> {
                    let st = #[trigger] r@[k];
                    &&& st.board.wf()
                    &&& st.board.spec_side() == self.board.spec_side()
                    &&& step_seq(self.board.spec_side(), self.board@, st.board@)
                    &&& step_seq(self.board.spec_side(), st.board@, self.board@)
                    &&& st.cost == self.cost + 1
                    &&& st.parent == Some(my_idx)
                    &&& st.mode == self.mode
                    &&& st.manhattan as int == manhattan_spec(
                        self.board.spec_side(),
                        st.board@,
                    )
                    &&& st.linear_conflict as int == linear_conflict_spec(
                        self.board.spec_side(),
                        st.board@,
                    )
                    &&& (mode_uses_table(self.mode) ==> st.walking_distance as int == wd_spec(
                        st.board@,
                        table@,
                    ))
                    &&& (!mode_uses_table(self.mode) ==> st.walking_distance == 0)
                },
            forall|p0: int, q: int|
                (0 <= p0 < self.board@.len() && self.board@[p0] == 0 && #[trigger] adjacent(
                    self.board.spec_side(),
                    p0,
                    q,
                )) ==> exists|k: int|
                    0 <= k < r@.len() && (#[trigger] r@[k]).board@ == moved_seq(
                        self.board@,
                        p0,
                        q,
                    ),
            forall|p0: int|
                0 <= p0 < self.board@.len() && self.board@[p0] == 0 ==> r@.map_values(
                    |st: State| st.board@,
                ) == neighbor_views(self.board.spec_side(), self.board@, p0),
    {
        let nbs = self.board.neighbor_boards();
        let mut r: Vec<State> = Vec::new();
        let nb_count = nbs.len();
        for i in 0..nb_count
            invariant
                self.board.wf(),
                self.cost < u64::MAX,
                mode_uses_table(self.mode) ==> self.board.spec_side() == 4,
                nb_count == nbs@.len(),
                nbs@.len() <= 4,
                forall|k: int|
                    0 <= k < nbs@.len() ==> {
                        &&& (#[trigger] nbs@[k]).wf()
                        &&& nbs@[k].spec_side() == self.board.spec_side()
                        &&& step_seq(self.board.spec_side(), self.board@, nbs@[k]@)
                        &&& step_seq(self.board.spec_side(), nbs@[k]@, self.board@)
                    },
                r@.len() == i,
                forall|k: int| 0 <= k < r@.len() ==> (#[trigger] r@[k]).board@ == nbs@[k]@,
                forall|k: int|
                    0 <= k < r@.len() ==> {
                        let st = #[trigger] r@[k];
                        &&& st.board.wf()
                        &&& st.board.spec_side() == self.board.spec_side()
                        &&& step_seq(self.board.spec_side(), self.board@, st.board@)
                        &&& step_seq(self.board.spec_side(), st.board@, self.board@)
                        &&& st.cost == self.cost + 1
                        &&& st.parent == Some(my_idx)
                        &&& st.mode == self.mode
                        &&& st.manhattan as int == manhattan_spec(
                            self.board.spec_side(),
                            st.board@,
                        )
                        &&& st.linear_conflict as int == linear_conflict_spec(
                            self.board.spec_side(),
                            st.board@,
                        )
                        &&& (mode_uses_table(self.mode) ==> st.walking_distance as int == wd_spec(
                            st.board@,
                            table@,
                        ))
                        &&& (!mode_uses_table(self.mode) ==> st.walking_distance == 0)
                    },
        {
            let nb = nbs[i].clone();
            r.push(State::new(nb, self.cost + 1, Some(my_idx), self.mode, table));
        }
        proof {
            assert(r@.map_values(|st: State| st.board@) =~= nbs@.map_values(|b: Board| b@));
            assert forall|p0: int, q: int|
                (0 <= p0 < self.board@.len() && self.board@[p0] == 0 && #[trigger] adjacent(
                    self.board.spec_side(),
                    p0,
                    q,
                )) implies exists|k: int|
                0 <= k < r@.len() && (#[trigger] r@[k]).board@ == moved_seq(
                    self.board@,
                    p0,
                    q,
                ) by {
                let k0 = choose|k: int|
                    0 <= k < nbs@.len() && (#[trigger] nbs@[k])@ == moved_seq(self.board@, p0, q);
                assert(r@[k0].board@ == moved_seq(self.board@, p0, q));
            }
        }
        r
    }
}

/// Node `i` of the arena is sound: a valid configuration of the right side,
/// whose parent link points strictly backwards along one legal move, and
/// whose path cost stays below its index.  A parentless node holds the
/// start configuration.
pub open spec fn node_ok(arena: Seq<State>, i: int, n: int, start: Seq<u8>) -> bool {
    let nd = arena[i];
    &&& nd.board.wf()
    &&& nd.board.spec_side() == n
    &&& nd.cost as int <= i
    &&& match nd.parent {
        Some(p) => (p as int) < i && step_seq(n, arena[p as int].board@, nd.board@),
        None => nd.board@ == start,
    }
}

pub open spec fn arena_ok(arena: Seq<State>, n: int, start: Seq<u8>) -> bool {
    forall|i: int| 0 <= i < arena.len() ==> #[trigger] node_ok(arena, i, n, start)
}

/// A path is a genuine solution: it starts at the start configuration,
/// ends at the goal, and each consecutive pair differs by one legal move.
pub open spec fn valid_path(n: int, path: Seq<Board>, start: Seq<u8>) -> bool {
    &&& path.len() >= 1
    &&& path[0]@ == start
    &&& path[path.len() - 1]@ == goal_seq(n)
    &&& forall|i: int|
        0 <= i < path.len() ==> (#[trigger] path[i]).wf() && path[i].spec_side() == n
    &&& forall|i: int| 0 <= i < path.len() - 1 ==> step_seq(n, (#[trigger] path[i])@, path[i + 1]@)
}

/// The reversed partial path collected while walking parent links: it
/// begins at the goal and each entry is one legal move after the next.
spec fn rev_chain_ok(n: int, rev: Seq<Board>) -> bool {
    &&& forall|i: int| 0 <= i < rev.len() ==> (#[trigger] rev[i]).wf() && rev[i].spec_side() == n
    &&& forall|i: int| 0 <= i < rev.len() - 1 ==> step_seq(n, (#[trigger] rev[i + 1])@, rev[i]@)
}

/// Rebuilds the move sequence from the arena by following parent links
/// from the goal node back to the root, then reversing.
fn reconstruct(
    arena: &Vec<State>,
    goal_idx: usize,
    Ghost(n): Ghost<int>,
    Ghost(start): Ghost<Seq<u8>>,
) -> (path: Vec<Board>)
    requires
        arena_ok(arena@, n, start),
        goal_idx < arena@.len(),
        arena@[goal_idx as int].board@ == goal_seq(n),
    ensures
        valid_path(n, path@, start),
{
    let mut cur = goal_idx;
    let mut rev: Vec<Board> = Vec::new();
    proof {
        assert(node_ok(arena@, goal_idx as int, n, start));
    }
    rev.push(arena[cur].board.clone());
    let mut done = false;
    while !done
        invariant
            arena_ok(arena@, n, start),
            cur < arena@.len(),
            rev@.len() >= 1,
            rev@[0]@ == goal_seq(n),
            rev@[rev@.len() - 1]@ == arena@[cur as int].board@,
            rev_chain_ok(n, rev@),
            done ==> arena@[cur as int].parent is None,
        decreases cur + (if done {
            0int
        } else {
            1int
        }),
    {
        proof {
            assert(node_ok(arena@, cur as int, n, start));
        }
        match arena[cur].parent {
            Some(p) => {
                let ghost old_rev = rev@;
                cur = p;
                proof {
                    assert(node_ok(arena@, cur as int, n, start));
                }
                rev.push(arena[cur].board.clone());
                proof {
                    assert forall|i: int| 0 <= i < rev@.len() - 1 implies step_seq(
                        n,
                        (#[trigger] rev@[i + 1])@,
                        rev@[i]@,
                    ) by {
                        if i < old_rev.len() - 1 {
                            assert(step_seq(n, old_rev[i + 1]@, old_rev[i]@));
                        } else {
                            assert(step_seq(n, arena@[cur as int].board@, old_rev[i]@));
                        }
                    }
                }
            },
            None => {
                done = true;
            },
        }
    }
    proof {
        assert(node_ok(arena@, cur as int, n, start));
        assert(rev@[rev@.len() - 1]@ == start);
    }
    let total = rev.len();
    let mut path: Vec<Board> = Vec::new();
    for i in 0..total
        invariant
            total == rev@.len(),
            rev@.len() >= 1,
            rev@[0]@ == goal_seq(n),
            rev@[rev@.len() - 1]@ == start,
            rev_chain_ok(n, rev@),
            path@.len() == i,
            forall|k: int|
                0 <= k < i ==> (#[trigger] path@[k])@ == rev@[total - 1 - k]@ && path@[k].wf()
                    && path@[k].spec_side() == n,
    {
        path.push(rev[total - 1 - i].clone());
    }
    proof {
        assert(path@[0]@ == start);
        assert(path@[path@.len() - 1]@ == rev@[0]@);
        assert forall|i: int| 0 <= i < path@.len() - 1 implies step_seq(
            n,
            (#[trigger] path@[i])@,
            path@[i + 1]@,
        ) by {
            let j = total - 2 - i;
            assert(step_seq(n, rev@[j + 1]@, rev@[j]@));
        }
    }
    path
}

/// Some move sequence solves the start configuration.
pub open spec fn solution_exists(n: int, start: Seq<u8>) -> bool {
    exists|q: Seq<Board>| valid_path(n, q, start)
}

/// Every configuration along a solution path is solvable, from the goal
/// end backwards: the goal is solvable and the inverse of each step is a
/// legal move, under which the solvable class is closed.
proof fn lemma_path_suffix_solvable(n: int, path: Seq<Board>, start: Seq<u8>, i: int)
    requires
        n == 3 || n == 4,
        valid_path(n, path, start),
        0 <= i < path.len(),
    ensures
        solvable_spec(n, (path[i])@),
    decreases path.len() - i,
{
    if i == path.len() - 1 {
        lemma_goal_solvable(n);
    } else {
        lemma_path_suffix_solvable(n, path, start, i + 1);
        assert(step_seq(n, (path[i])@, path[i + 1]@));
        let a = (path[i])@;
        let (p, q) = choose|p: int, q: int|
            #![trigger adjacent(n, p, q)]
            {
                &&& 0 <= p < a.len()
                &&& a[p] == 0
                &&& adjacent(n, p, q)
                &&& path[i + 1]@ == moved_seq(a, p, q)
            };
        lemma_step_roundtrip(n, a, p, q);
        lemma_step_preserves_solvable(n, path[i + 1]@, a);
    }
}

/// Law: a configuration from which the goal can be reached at all passes
/// the solvability check, so any returned path certifies the solvability
/// of its start.
pub proof fn lemma_solution_implies_solvable(n: int, path: Seq<Board>, start: Seq<u8>)
    requires
        n == 3 || n == 4,
        valid_path(n, path, start),
    ensures
        solvable_spec(n, start),
{
    lemma_path_suffix_solvable(n, path, start, 0);
}

/// Some open node of the frontier holds the configuration `b2`.
#[verifier::opaque]
spec fn frontier_holds(arena: Seq<State>, frontier: Seq<usize>, b2: Seq<u8>) -> bool {
    exists|j: int| 0 <= j < frontier.len() && arena[(#[trigger] frontier[j]) as int].board@ == b2
}

/// Every configuration one move from the expanded key's decoded board is
/// itself expanded or held by an open node.
#[verifier::opaque]
spec fn key_closed(
    n: int,
    visited: Set<u64>,
    vdec: Map<u64, Seq<u8>>,
    arena: Seq<State>,
    frontier: Seq<usize>,
    k: u64,
) -> bool {
    forall|b2: Seq<u8>|
        #![trigger step_seq(n, vdec[k], b2)]
        step_seq(n, vdec[k], b2) ==> visited.contains(key_of(b2) as u64) || frontier_holds(
            arena,
            frontier,
            b2,
        )
}

/// As `key_closed`, except that the configuration just taken off the
/// frontier may stay uncovered until its expansion finishes.
#[verifier::opaque]
spec fn key_closed_except(
    n: int,
    visited: Set<u64>,
    vdec: Map<u64, Seq<u8>>,
    arena: Seq<State>,
    frontier: Seq<usize>,
    k: u64,
    excl: Seq<u8>,
) -> bool {
    forall|b2: Seq<u8>|
        #![trigger step_seq(n, vdec[k], b2)]
        step_seq(n, vdec[k], b2) ==> visited.contains(key_of(b2) as u64) || frontier_holds(
            arena,
            frontier,
            b2,
        ) || b2 == excl
}

/// Removing one open node uncovers at most its own configuration.
proof fn lemma_frontier_holds_after_pop(
    arena: Seq<State>,
    f1: Seq<usize>,
    f2: Seq<usize>,
    j0: int,
    b2: Seq<u8>,
)
    requires
        0 <= j0 < f1.len(),
        f2 == f1.update(j0, f1.last()).drop_last(),
        frontier_holds(arena, f1, b2),
        arena[f1[j0] as int].board@ != b2,
    ensures
        frontier_holds(arena, f2, b2),
{
    reveal(frontier_holds);
    let j = choose|j: int| 0 <= j < f1.len() && arena[(#[trigger] f1[j]) as int].board@ == b2;
    assert(j != j0);
    if j == f1.len() - 1 {
        assert(f2[j0] == f1[j]);
    } else {
        assert(f2[j] == f1[j]);
    }
}

/// Extending the arena and the frontier keeps every held configuration held.
proof fn lemma_frontier_holds_grow(
    arena1: Seq<State>,
    arena2: Seq<State>,
    f1: Seq<usize>,
    f2: Seq<usize>,
    b2: Seq<u8>,
)
    requires
        frontier_holds(arena1, f1, b2),
        f1.len() <= f2.len(),
        forall|j: int| 0 <= j < f1.len() ==> f2[j] == f1[j],
        arena1.len() <= arena2.len(),
        forall|i: int| 0 <= i < arena1.len() ==> arena2[i] == arena1[i],
        forall|j: int| 0 <= j < f1.len() ==> (#[trigger] f1[j]) < arena1.len(),
    ensures
        frontier_holds(arena2, f2, b2),
{
    reveal(frontier_holds);
    let j = choose|j: int| 0 <= j < f1.len() && arena1[(#[trigger] f1[j]) as int].board@ == b2;
    assert(f2[j] == f1[j]);
    assert(arena2[f2[j] as int].board@ == b2);
}

/// After the pop, an expanded key stays closed up to the popped
/// configuration.
proof fn lemma_key_closed_to_except(
    n: int,
    visited: Set<u64>,
    vdec: Map<u64, Seq<u8>>,
    arena: Seq<State>,
    f1: Seq<usize>,
    f2: Seq<usize>,
    j0: int,
    excl: Seq<u8>,
    k: u64,
)
    requires
        key_closed(n, visited, vdec, arena, f1, k),
        0 <= j0 < f1.len(),
        f2 == f1.update(j0, f1.last()).drop_last(),
        arena[f1[j0] as int].board@ == excl,
    ensures
        key_closed_except(n, visited, vdec, arena, f2, k, excl),
{
    reveal(key_closed);
    reveal(key_closed_except);
    assert forall|b2: Seq<u8>| #![auto] step_seq(n, vdec[k], b2) implies visited.contains(
        key_of(b2) as u64,
    ) || frontier_holds(arena, f2, b2) || b2 == excl by {
        if !visited.contains(key_of(b2) as u64) && b2 != excl {
            lemma_frontier_holds_after_pop(arena, f1, f2, j0, b2);
        }
    }
}

/// A larger expanded set, the same decoded board, and an extended frontier
/// preserve closedness up to the exclusion.
proof fn lemma_key_closed_except_grow(
    n: int,
    v1: Set<u64>,
    v2: Set<u64>,
    d1: Map<u64, Seq<u8>>,
    d2: Map<u64, Seq<u8>>,
    arena1: Seq<State>,
    arena2: Seq<State>,
    f1: Seq<usize>,
    f2: Seq<usize>,
    k: u64,
    excl: Seq<u8>,
)
    requires
        key_closed_except(n, v1, d1, arena1, f1, k, excl),
        forall|k0: u64| v1.contains(k0) ==> v2.contains(k0),
        d2[k] == d1[k],
        f1.len() <= f2.len(),
        forall|j: int| 0 <= j < f1.len() ==> f2[j] == f1[j],
        arena1.len() <= arena2.len(),
        forall|i: int| 0 <= i < arena1.len() ==> arena2[i] == arena1[i],
        forall|j: int| 0 <= j < f1.len() ==> (#[trigger] f1[j]) < arena1.len(),
    ensures
        key_closed_except(n, v2, d2, arena2, f2, k, excl),
{
    reveal(key_closed_except);
    assert forall|b2: Seq<u8>| #![auto] step_seq(n, d2[k], b2) implies v2.contains(
        key_of(b2) as u64,
    ) || frontier_holds(arena2, f2, b2) || b2 == excl by {
        if !v1.contains(key_of(b2) as u64) && b2 != excl {
            lemma_frontier_holds_grow(arena1, arena2, f1, f2, b2);
        }
    }
}

/// Once the popped configuration's key is expanded, closedness is restored
/// in full.
proof fn lemma_key_closed_recover(
    n: int,
    visited: Set<u64>,
    vdec: Map<u64, Seq<u8>>,
    arena: Seq<State>,
    frontier: Seq<usize>,
    k: u64,
    excl: Seq<u8>,
)
    requires
        key_closed_except(n, visited, vdec, arena, frontier, k, excl),
        visited.contains(key_of(excl) as u64),
    ensures
        key_closed(n, visited, vdec, arena, frontier, k),
{
    reveal(key_closed);
    reveal(key_closed_except);
}

/// When every generated successor of the freshly expanded configuration is
/// covered, its key is closed: the successor list is complete.
proof fn lemma_expansion_closes(
    n: int,
    visited: Set<u64>,
    vdec: Map<u64, Seq<u8>>,
    arena: Seq<State>,
    frontier: Seq<usize>,
    k: u64,
    nboard: Seq<u8>,
    succs: Seq<State>,
)
    requires
        vdec[k] == nboard,
        forall|p0: int, q: int|
            (0 <= p0 < nboard.len() && nboard[p0] == 0 && #[trigger] adjacent(n, p0, q))
                ==> exists|si: int|
                0 <= si < succs.len() && (#[trigger] succs[si]).board@ == moved_seq(
                    nboard,
                    p0,
                    q,
                ),
        forall|si: int|
            0 <= si < succs.len() ==> visited.contains(key_of(
                (#[trigger] succs[si]).board@,
            ) as u64) || frontier_holds(arena, frontier, succs[si].board@),
    ensures
        key_closed(n, visited, vdec, arena, frontier, k),
{
    reveal(key_closed);
    assert forall|b2: Seq<u8>| #![auto] step_seq(n, vdec[k], b2) implies visited.contains(
        key_of(b2) as u64,
    ) || frontier_holds(arena, frontier, b2) by {
        let (p0, q) = choose|p0: int, q: int|
            #![trigger adjacent(n, p0, q)]
            {
                &&& 0 <= p0 < nboard.len()
                &&& nboard[p0] == 0
                &&& adjacent(n, p0, q)
                &&& b2 == moved_seq(nboard, p0, q)
            };
        let si = choose|si: int|
            0 <= si < succs.len() && (#[trigger] succs[si]).board@ == moved_seq(nboard, p0, q);
        assert(succs[si].board@ == b2);
    }
}

/// Along any solution path, every configuration stays inside the closed
/// expanded set.
proof fn lemma_path_blocked(
    n: int,
    visited: Set<u64>,
    vdec: Map<u64, Seq<u8>>,
    arena: Seq<State>,
    frontier: Seq<usize>,
    start_v: Seq<u8>,
    q: Seq<Board>,
    i: int,
)
    requires
        frontier.len() == 0,
        forall|k: u64|
            #[trigger] visited.contains(k) ==> vdec.contains_key(k) && key_of(vdec[k])
                == k as int && valid_config(n, vdec[k]) && vdec[k] != goal_seq(n),
        forall|k: u64|
            #[trigger] visited.contains(k) ==> key_closed(n, visited, vdec, arena, frontier, k),
        visited.contains(key_of(start_v) as u64),
        valid_config(n, start_v),
        valid_path(n, q, start_v),
        0 <= i < q.len(),
    ensures
        visited.contains(key_of(q[i]@) as u64),
        vdec[key_of(q[i]@) as u64] == q[i]@,
    decreases i,
{
    assert((n * n) <= 16) by (nonlinear_arith)
        requires
            n == 3 || n == 4,
    ;
    if i == 0 {
        assert(q[0]@ == start_v);
        lemma_key_of_u64(start_v);
        let sk = key_of(start_v) as u64;
        assert(key_of(vdec[sk]) == sk as int);
        lemma_key_of_injective(vdec[sk], start_v);
    } else {
        lemma_path_blocked(n, visited, vdec, arena, frontier, start_v, q, i - 1);
        let kp = key_of(q[i - 1]@) as u64;
        assert(step_seq(n, (q[i - 1])@, q[i - 1 + 1]@));
        assert(q[i - 1 + 1] == q[i]);
        assert(step_seq(n, vdec[kp], q[i]@));
        assert(visited.contains(key_of(q[i]@) as u64)) by {
            reveal(key_closed);
            reveal(frontier_holds);
        }
        lemma_key_of_u64(q[i]@);
        let sk = key_of(q[i]@) as u64;
        assert(key_of(vdec[sk]) == sk as int);
        lemma_key_of_injective(vdec[sk], q[i]@);
    }
}

/// A closed expanded set that holds the start but never the goal blocks
/// every solution path.
proof fn lemma_no_solution(
    n: int,
    visited: Set<u64>,
    vdec: Map<u64, Seq<u8>>,
    arena: Seq<State>,
    frontier: Seq<usize>,
    start_v: Seq<u8>,
)
    requires
        frontier.len() == 0,
        forall|k: u64|
            #[trigger] visited.contains(k) ==> vdec.contains_key(k) && key_of(vdec[k])
                == k as int && valid_config(n, vdec[k]) && vdec[k] != goal_seq(n),
        forall|k: u64|
            #[trigger] visited.contains(k) ==> key_closed(n, visited, vdec, arena, frontier, k),
        visited.contains(key_of(start_v) as u64),
        valid_config(n, start_v),
    ensures
        !solution_exists(n, start_v),
{
    if solution_exists(n, start_v) {
        let q = choose|q: Seq<Board>| valid_path(n, q, start_v);
        lemma_path_blocked(n, visited, vdec, arena, frontier, start_v, q, q.len() - 1);
        let k = key_of(q[q.len() - 1]@) as u64;
        assert(vdec[k] == goal_seq(n));
        assert(vdec[k] != goal_seq(n));
    }
}

/// The A* engine.  A returned path is proved to be a genuine solution and a
/// goal start returns at once with the one-element path.  `None` comes only
/// from an exhausted frontier, and then no solution path exists at all: the
/// ghost decoding of the visited set shows the expanded configurations
/// closed under legal moves, containing the start and excluding the goal.
#[verifier::rlimit(100)]
pub fn a_star_engine(start: &Board, mode: HeuristicMode, table: &HashMap<u64, u8>) -> (r: Option<
    Vec<Board>,
>)
    requires
        start.wf(),
        mode_uses_table(mode) ==> start.spec_side() == 4,
    ensures
        r matches Some(path) ==> valid_path(start.spec_side(), path@, start@),
        start@ == goal_seq(start.spec_side()) ==> r is Some && r.unwrap()@.len() == 1,
        r is None ==> !solution_exists(start.spec_side(), start@),
{
    let ghost n = start.spec_side();
    let ghost sv = start@;
    if start.is_goal() {
        let mut path: Vec<Board> = Vec::new();
        path.push(start.clone());
        return Some(path);
    }
    proof {
        assert((n * n) <= 16) by (nonlinear_arith)
            requires
                n == 3 || n == 4,
        ;
        lemma_key_of_u64(sv);
    }
    let ghost skey0 = key_of(sv) as u64;
    let root = State::new(start.clone(), 0, None, mode, table);
    let mut arena: Vec<State> = Vec::new();
    arena.push(root);
    let mut frontier: Vec<usize> = Vec::new();
    frontier.push(0);
    let mut visited: HashSet<u64> = HashSet::new();
    let ghost mut vdec: Map<u64, Seq<u8>> = Map::empty();
    proof {
        assert(node_ok(arena@, 0, n, sv));
        assert(vdec.dom() =~= visited@);
        assert(frontier_holds(arena@, frontier@, sv)) by {
            reveal(frontier_holds);
            assert(arena@[(frontier@[0]) as int].board@ == sv);
        }
    }
    while frontier.len() > 0
        invariant
            start.wf(),
            n == start.spec_side(),
            sv == start@,
            mode_uses_table(mode) ==> n == 4,
            !(sv == goal_seq(n)),
            skey0 == key_of(sv) as u64,
            arena_ok(arena@, n, sv),
            arena@.len() >= 1,
            forall|i: int| 0 <= i < arena@.len() ==> (#[trigger] arena@[i]).mode == mode,
            forall|j: int| 0 <= j < frontier@.len() ==> (#[trigger] frontier@[j]) < arena@.len(),
            visited@.finite(),
            visited@.len() == vstd::std_specs::hash::spec_hash_set_len(&visited),
            vdec.dom() == visited@,
            forall|k: u64|
                #[trigger] visited@.contains(k) ==> vdec.contains_key(k) && key_of(vdec[k])
                    == k as int && valid_config(n, vdec[k]) && vdec[k] != goal_seq(n),
            forall|k: u64|
                #[trigger] visited@.contains(k) ==> key_closed(
                    n,
                    visited@,
                    vdec,
                    arena@,
                    frontier@,
                    k,
                ),
            visited@.contains(skey0) || frontier_holds(arena@, frontier@, sv),
        decreases usize::MAX as int - visited@.len(), frontier@.len(),
    {
        let ghost pre_visited = visited@;
        let ghost pre_frontier_len = frontier@.len() as int;
        let mut best_j: usize = 0;
        let mut best_cost: u128 = arena[frontier[0]].total_cost();
        for j in 1..frontier.len()
            invariant
                frontier@.len() > 0,
                best_j < frontier@.len(),
                forall|m: int| 0 <= m < frontier@.len() ==> (#[trigger] frontier@[m])
                    < arena@.len(),
        {
            let c = arena[frontier[j]].total_cost();
            if c < best_cost {
                best_cost = c;
                best_j = j;
            }
        }
        let ghost f_pre = frontier@;
        let ghost best_j_g = best_j as int;
        let idx = frontier.swap_remove(best_j);
        proof {
            assert(node_ok(arena@, idx as int, n, sv));
        }
        let ghost nboard = arena@[idx as int].board@;
        if arena[idx].is_goal_state() {
            return Some(reconstruct(&arena, idx, Ghost(n), Ghost(sv)));
        }
        proof {
            assert(valid_config(n, nboard));
            assert((n * n) <= 16) by (nonlinear_arith)
                requires
                    n == 3 || n == 4,
            ;
            lemma_key_of_u64(nboard);
            assert forall|k: u64| #[trigger] visited@.contains(k) implies key_closed_except(
                n,
                visited@,
                vdec,
                arena@,
                frontier@,
                k,
                nboard,
            ) by {
                lemma_key_closed_to_except(
                    n,
                    visited@,
                    vdec,
                    arena@,
                    f_pre,
                    frontier@,
                    best_j_g,
                    nboard,
                    k,
                );
            }
            if !visited@.contains(skey0) && sv != nboard {
                lemma_frontier_holds_after_pop(arena@, f_pre, frontier@, best_j_g, sv);
            }
        }
        let key = arena[idx].board.encode_key();
        proof {
            assert(key == (key_of(nboard) as u64));
            assert(sv == nboard ==> key == skey0);
        }
        if !visited.contains(&key) {
            let ghost old_visited = visited@;
            let ghost old_vdec = vdec;
            visited.insert(key);
            proof {
                vdec = vdec.insert(key, nboard);
                assert(vdec.dom() =~= visited@);
                assert forall|k: u64|
                    #[trigger] visited@.contains(k) && k != key implies key_closed_except(
                    n,
                    visited@,
                    vdec,
                    arena@,
                    frontier@,
                    k,
                    nboard,
                ) by {
                    lemma_key_closed_except_grow(
                        n,
                        old_visited,
                        visited@,
                        old_vdec,
                        vdec,
                        arena@,
                        arena@,
                        frontier@,
                        frontier@,
                        k,
                        nboard,
                    );
                }
            }
            let arena_len = arena.len();
            proof {
                assert(arena@.len() == arena_len);
                assert(arena@[idx as int].cost as int <= idx as int);
                assert(arena@[idx as int].cost < u64::MAX);
            }
            let succs = arena[idx].successors(idx, table);
            proof {
                assert(arena@[idx as int].cost as int <= idx as int);
            }
            let ghost pre_len = arena@.len();
            let mut si: usize = 0;
            let succ_count = succs.len();
            while si < succ_count
                invariant
                    start.wf(),
                    n == start.spec_side(),
                    sv == start@,
                    mode_uses_table(mode) ==> n == 4,
                    skey0 == key_of(sv) as u64,
                    arena_ok(arena@, n, sv),
                    arena@.len() >= 1,
                    forall|i: int| 0 <= i < arena@.len() ==> (#[trigger] arena@[i]).mode == mode,
                    succ_count == succs@.len(),
                    succs@.len() <= 4,
                    si <= succ_count,
                    idx < pre_len,
                    pre_len <= arena@.len(),
                    visited@.finite(),
                    visited@.len() == vstd::std_specs::hash::spec_hash_set_len(&visited),
                    visited@.len() == pre_visited.len() + 1,
                    visited@.contains(key),
                    key == (key_of(nboard) as u64),
                    vdec.dom() == visited@,
                    vdec[key] == nboard,
                    valid_config(n, nboard),
                    nboard == arena@[idx as int].board@,
                    forall|k: u64|
                        #[trigger] visited@.contains(k) ==> vdec.contains_key(k) && key_of(
                            vdec[k],
                        ) == k as int && valid_config(n, vdec[k]) && vdec[k] != goal_seq(n),
                    forall|k: u64|
                        #[trigger] visited@.contains(k) && k != key ==> key_closed_except(
                            n,
                            visited@,
                            vdec,
                            arena@,
                            frontier@,
                            k,
                            nboard,
                        ),
                    visited@.contains(skey0) || frontier_holds(arena@, frontier@, sv),
                    forall|k: int|
                        0 <= k < succs@.len() ==> {
                            let st = #[trigger] succs@[k];
                            &&& st.board.wf()
                            &&& st.board.spec_side() == n
                            &&& step_seq(n, nboard, st.board@)
                            &&& st.cost == arena@[idx as int].cost + 1
                            &&& st.parent == Some(idx)
                            &&& st.mode == mode
                        },
                    forall|p0: int, q: int|
                        (0 <= p0 < nboard.len() && nboard[p0] == 0 && #[trigger] adjacent(
                            n,
                            p0,
                            q,
                        )) ==> exists|si2: int|
                            0 <= si2 < succs@.len() && (#[trigger] succs@[si2]).board@
                                == moved_seq(nboard, p0, q),
                    forall|si2: int|
                        0 <= si2 < si ==> visited@.contains(key_of(
                            (#[trigger] succs@[si2]).board@,
                        ) as u64) || frontier_holds(arena@, frontier@, succs@[si2].board@),
                    forall|j: int| 0 <= j < frontier@.len() ==> (#[trigger] frontier@[j])
                        < arena@.len(),
                decreases succ_count - si,
            {
                proof {
                    assert((n * n) <= 16) by (nonlinear_arith)
                        requires
                            n == 3 || n == 4,
                    ;
                    lemma_key_of_u64(succs@[si as int].board@);
                }
                let skey = succs[si].board.encode_key();
                if !visited.contains(&skey) {
                    let new_idx = arena.len();
                    let ghost old_arena = arena@;
                    let ghost old_frontier = frontier@;
                    let st = succs[si].clone_state();
                    arena.push(st);
                    frontier.push(new_idx);
                    proof {
                        assert forall|i: int| 0 <= i < arena@.len() implies #[trigger] node_ok(
                            arena@,
                            i,
                            n,
                            sv,
                        ) by {
                            if i < old_arena.len() {
                                assert(node_ok(old_arena, i, n, sv));
                                assert(arena@[i] == old_arena[i]);
                                if old_arena[i].parent is Some {
                                    let p = old_arena[i].parent.unwrap() as int;
                                    assert(arena@[p] == old_arena[p]);
                                }
                            } else {
                                assert(arena@[i] == st);
                                assert(node_ok(old_arena, idx as int, n, sv));
                                assert(arena@[idx as int] == old_arena[idx as int]);
                            }
                        }
                        assert forall|k: u64|
                            #[trigger] visited@.contains(k) && k != key implies key_closed_except(
                            n,
                            visited@,
                            vdec,
                            arena@,
                            frontier@,
                            k,
                            nboard,
                        ) by {
                            lemma_key_closed_except_grow(
                                n,
                                visited@,
                                visited@,
                                vdec,
                                vdec,
                                old_arena,
                                arena@,
                                old_frontier,
                                frontier@,
                                k,
                                nboard,
                            );
                        }
                        assert forall|si2: int| 0 <= si2 < si + 1 implies visited@.contains(
                            key_of((#[trigger] succs@[si2]).board@) as u64,
                        ) || frontier_holds(arena@, frontier@, succs@[si2].board@) by {
                            if si2 == si as int {
                                assert(frontier_holds(arena@, frontier@, succs@[si2].board@))
                                    by {
                                    reveal(frontier_holds);
                                    assert(arena@[(frontier@[frontier@.len()
                                        - 1]) as int].board@ == succs@[si2].board@);
                                }
                            } else if !visited@.contains(
                                key_of(succs@[si2].board@) as u64,
                            ) {
                                lemma_frontier_holds_grow(
                                    old_arena,
                                    arena@,
                                    old_frontier,
                                    frontier@,
                                    succs@[si2].board@,
                                );
                            }
                        }
                        if !visited@.contains(skey0) {
                            lemma_frontier_holds_grow(
                                old_arena,
                                arena@,
                                old_frontier,
                                frontier@,
                                sv,
                            );
                        }
                    }
                } else {
                    proof {
                        assert(skey == (key_of(succs@[si as int].board@) as u64));
                    }
                }
                si = si + 1;
            }
            proof {
                lemma_expansion_closes(n, visited@, vdec, arena@, frontier@, key, nboard, succs@);
                assert forall|k: u64| #[trigger] visited@.contains(k) implies key_closed(
                    n,
                    visited@,
                    vdec,
                    arena@,
                    frontier@,
                    k,
                ) by {
                    if k != key {
                        lemma_key_closed_recover(n, visited@, vdec, arena@, frontier@, k, nboard);
                    }
                }
                assert(visited@.len() > pre_visited.len());
            }
        } else {
            proof {
                assert(visited@.contains(key));
                assert forall|k: u64| #[trigger] visited@.contains(k) implies key_closed(
                    n,
                    visited@,
                    vdec,
                    arena@,
                    frontier@,
                    k,
                ) by {
                    lemma_key_closed_recover(n, visited@, vdec, arena@, frontier@, k, nboard);
                }
                if sv == nboard {
                    assert(visited@.contains(skey0));
                }
                assert(frontier@.len() < pre_frontier_len);
            }
        }
    }
    proof {
        assert(visited@.contains(skey0)) by {
            if !visited@.contains(skey0) {
                reveal(frontier_holds);
                assert(false);
            }
        }
        lemma_no_solution(n, visited@, vdec, arena@, frontier@, sv);
    }
    None
}

/// The heuristic combination of a mode, as a mathematical value.
pub open spec fn spec_heuristic(mode: HeuristicMode, n: int, s: Seq<u8>, t: Map<u64, u8>) -> int {
    match mode {
        HeuristicMode::ManhattanConflict => manhattan_spec(n, s) + 2 * linear_conflict_spec(n, s),
        HeuristicMode::Blend => manhattan_spec(n, s) / 3 + linear_conflict_spec(n, s) + wd_spec(
            s,
            t,
        ),
        HeuristicMode::WalkingOnly => wd_spec(s, t),
    }
}

/// Computes the heuristic combination of a mode for a configuration.
pub fn heuristic_value(b: &Board, mode: HeuristicMode, table: &HashMap<u64, u8>) -> (r: u32)
    requires
        b.wf(),
        mode_uses_table(mode) ==> b.spec_side() == 4,
    ensures
        r as int == spec_heuristic(mode, b.spec_side(), b@, table@),
        r <= 2000,
{
    match mode {
        HeuristicMode::ManhattanConflict => {
            let m = manhattan_distance(b);
            let l = linear_conflict(b);
            m + 2 * l
        },
        HeuristicMode::Blend => {
            let m = manhattan_distance(b);
            let l = linear_conflict(b);
            let w = walking_distance(b, table);
            m / 3 + l + w
        },
        HeuristicMode::WalkingOnly => walking_distance(b, table),
    }
}

/// The path stack of the bounded depth-first search: nonempty, valid
/// configurations of side `n`, consecutive entries one legal move apart.
pub open spec fn chain_ok(n: int, path: Seq<Board>) -> bool {
    &&& path.len() >= 1
    &&& forall|i: int|
        0 <= i < path.len() ==> (#[trigger] path[i]).wf() && path[i].spec_side() == n
    &&& forall|i: int| 0 <= i < path.len() - 1 ==> step_seq(n, (#[trigger] path[i])@, path[i + 1]@)
}

/// `m2` keeps every binding of `m1`.
spec fn map_extends(m1: Map<u64, Seq<u8>>, m2: Map<u64, Seq<u8>>) -> bool {
    forall|k: u64| #[trigger] m1.dom().contains(k) ==> m2.dom().contains(k) && m2[k] == m1[k]
}

/// Some board of the stack is one legal move from `b2`.
#[verifier::opaque]
spec fn stack_neighbor(n: int, stack: Seq<Board>, b2: Seq<u8>) -> bool {
    exists|i: int| 0 <= i < stack.len() && step_seq(n, (#[trigger] stack[i])@, b2)
}

/// Every configuration one move from the expanded key's decoded board is
/// itself expanded, or adjacent to a board still open on the stack.
#[verifier::opaque]
spec fn dfs_closed(
    n: int,
    visited: Set<u64>,
    vmap: Map<u64, Seq<u8>>,
    k: u64,
    stack: Seq<Board>,
) -> bool {
    forall|b2: Seq<u8>|
        #![trigger step_seq(n, vmap[k], b2)]
        step_seq(n, vmap[k], b2) ==> visited.contains(key_of(b2) as u64) || stack_neighbor(
            n,
            stack,
            b2,
        )
}

/// Every expanded key decodes to a valid, non-goal configuration behind
/// its own key.
spec fn dfs_decode_ok(n: int, visited: Set<u64>, vmap: Map<u64, Seq<u8>>) -> bool {
    forall|k: u64|
        #[trigger] visited.contains(k) ==> vmap.contains_key(k) && key_of(vmap[k]) == k as int
            && valid_config(n, vmap[k]) && vmap[k] != goal_seq(n)
}

/// Every expanded key is closed up to the boards still open on the stack.
spec fn dfs_closure_ok(
    n: int,
    visited: Set<u64>,
    vmap: Map<u64, Seq<u8>>,
    stack: Seq<Board>,
) -> bool {
    forall|k: u64| #[trigger] visited.contains(k) ==> dfs_closed(n, visited, vmap, k, stack)
}

/// A longer stack excuses at least as much.
proof fn lemma_dfs_closed_stack_push(
    n: int,
    visited: Set<u64>,
    vmap: Map<u64, Seq<u8>>,
    k: u64,
    stack: Seq<Board>,
    b: Board,
)
    requires
        dfs_closed(n, visited, vmap, k, stack),
    ensures
        dfs_closed(n, visited, vmap, k, stack.push(b)),
{
    reveal(dfs_closed);
    reveal(stack_neighbor);
    assert forall|b2: Seq<u8>|
        #![trigger step_seq(n, vmap[k], b2)]
        step_seq(n, vmap[k], b2) implies visited.contains(key_of(b2) as u64) || stack_neighbor(
        n,
        stack.push(b),
        b2,
    ) by {
        if !visited.contains(key_of(b2) as u64) {
            let i = choose|i: int| 0 <= i < stack.len() && step_seq(n, (#[trigger] stack[i])@, b2);
            assert(step_seq(n, (stack.push(b)[i])@, b2));
        }
    }
}

/// A larger expanded set with the same decoded board stays closed.
proof fn lemma_dfs_closed_grow(
    n: int,
    v1: Set<u64>,
    v2: Set<u64>,
    m1: Map<u64, Seq<u8>>,
    m2: Map<u64, Seq<u8>>,
    k: u64,
    stack: Seq<Board>,
)
    requires
        dfs_closed(n, v1, m1, k, stack),
        forall|k0: u64| v1.contains(k0) ==> v2.contains(k0),
        m2[k] == m1[k],
    ensures
        dfs_closed(n, v2, m2, k, stack),
{
    reveal(dfs_closed);
}

/// Once every neighbour of the stack's top board is expanded, the top can
/// leave the stack.
proof fn lemma_dfs_closed_complete_last(
    n: int,
    visited: Set<u64>,
    vmap: Map<u64, Seq<u8>>,
    k: u64,
    stack: Seq<Board>,
)
    requires
        dfs_closed(n, visited, vmap, k, stack),
        stack.len() >= 1,
        forall|b2: Seq<u8>|
            step_seq(n, (stack[stack.len() - 1])@, b2) ==> visited.contains(
                #[trigger] (key_of(b2) as u64),
            ),
    ensures
        dfs_closed(n, visited, vmap, k, stack.drop_last()),
{
    reveal(dfs_closed);
    reveal(stack_neighbor);
    assert forall|b2: Seq<u8>|
        #![trigger step_seq(n, vmap[k], b2)]
        step_seq(n, vmap[k], b2) implies visited.contains(key_of(b2) as u64) || stack_neighbor(
        n,
        stack.drop_last(),
        b2,
    ) by {
        if !visited.contains(key_of(b2) as u64) {
            let i = choose|i: int| 0 <= i < stack.len() && step_seq(n, (#[trigger] stack[i])@, b2);
            assert(i != stack.len() - 1);
            assert(step_seq(n, (stack.drop_last()[i])@, b2));
        }
    }
}

/// Along any solution path, every configuration stays inside a closed
/// expanded set with nothing left open.
proof fn lemma_path_blocked_dfs(
    n: int,
    visited: Set<u64>,
    vmap: Map<u64, Seq<u8>>,
    start_v: Seq<u8>,
    q: Seq<Board>,
    i: int,
)
    requires
        dfs_decode_ok(n, visited, vmap),
        dfs_closure_ok(n, visited, vmap, Seq::empty()),
        visited.contains(key_of(start_v) as u64),
        valid_config(n, start_v),
        valid_path(n, q, start_v),
        0 <= i < q.len(),
    ensures
        visited.contains(key_of(q[i]@) as u64),
        vmap[key_of(q[i]@) as u64] == q[i]@,
    decreases i,
{
    assert((n * n) <= 16) by (nonlinear_arith)
        requires
            n == 3 || n == 4,
    ;
    if i == 0 {
        assert(q[0]@ == start_v);
        lemma_key_of_u64(start_v);
        let sk = key_of(start_v) as u64;
        assert(key_of(vmap[sk]) == sk as int);
        lemma_key_of_injective(vmap[sk], start_v);
    } else {
        lemma_path_blocked_dfs(n, visited, vmap, start_v, q, i - 1);
        let kp = key_of(q[i - 1]@) as u64;
        assert(step_seq(n, (q[i - 1])@, q[i - 1 + 1]@));
        assert(q[i - 1 + 1] == q[i]);
        assert(step_seq(n, vmap[kp], q[i]@));
        assert(visited.contains(key_of(q[i]@) as u64)) by {
            reveal(dfs_closed);
            reveal(stack_neighbor);
        }
        lemma_key_of_u64(q[i]@);
        let sk = key_of(q[i]@) as u64;
        assert(key_of(vmap[sk]) == sk as int);
        lemma_key_of_injective(vmap[sk], q[i]@);
    }
}

/// A fully closed expanded set that holds the start but never the goal
/// blocks every solution path.
proof fn lemma_no_solution_dfs(
    n: int,
    visited: Set<u64>,
    vmap: Map<u64, Seq<u8>>,
    start_v: Seq<u8>,
)
    requires
        dfs_decode_ok(n, visited, vmap),
        dfs_closure_ok(n, visited, vmap, Seq::empty()),
        visited.contains(key_of(start_v) as u64),
        valid_config(n, start_v),
    ensures
        !solution_exists(n, start_v),
{
    if solution_exists(n, start_v) {
        let q = choose|q: Seq<Board>| valid_path(n, q, start_v);
        lemma_path_blocked_dfs(n, visited, vmap, start_v, q, q.len() - 1);
        let k = key_of(q[q.len() - 1]@) as u64;
        assert(vmap[k] == goal_seq(n));
        assert(vmap[k] != goal_seq(n));
    }
}

/// One bounded depth-first pass of IDA*.  Returns 0 when the goal was
/// reached, having extended the path to it; otherwise returns the smallest
/// estimate above the bound among pruned branches (`u64::MAX` when nothing
/// was pruned) and leaves the path as it was.  A pass that prunes nothing
/// leaves the expanded set closed under legal moves: the ghost decode map
/// threaded through the recursion witnesses it.
#[verifier::rlimit(100)]
fn search(
    path: &mut Vec<Board>,
    g: u64,
    bound: u64,
    visited: &mut HashSet<u64>,
    mode: HeuristicMode,
    table: &HashMap<u64, u8>,
    Ghost(n): Ghost<int>,
    Ghost(vdec): Ghost<Map<u64, Seq<u8>>>,
) -> (res: (u64, Ghost<Map<u64, Seq<u8>>>))
    requires
        chain_ok(n, old(path)@),
        g <= bound + 1,
        bound <= u64::MAX - 4002,
        mode_uses_table(mode) ==> n == 4,
        dfs_decode_ok(n, old(visited)@, vdec),
        vdec.dom() == old(visited)@,
    ensures
        res.0 == 0 ==> {
            &&& chain_ok(n, final(path)@)
            &&& final(path)@.len() >= old(path)@.len()
            &&& (forall|i: int| 0 <= i < old(path)@.len() ==> final(path)@[i] == old(path)@[i])
            &&& final(path)@[final(path)@.len() - 1]@ == goal_seq(n)
        },
        res.0 != 0 ==> final(path)@ == old(path)@ && res.0 > bound,
        old(visited)@.subset_of(final(visited)@),
        ({
            let hv = spec_heuristic(mode, n, old(path)@[old(path)@.len() - 1]@, table@);
            g + hv > bound ==> res.0 as int == g + hv
        }),
        dfs_decode_ok(n, final(visited)@, res.1@),
        res.1@.dom() == final(visited)@,
        map_extends(vdec, res.1@),
        (res.0 == u64::MAX && dfs_closure_ok(n, old(visited)@, vdec, old(path)@)) ==> {
            &&& dfs_closure_ok(n, final(visited)@, res.1@, old(path)@.drop_last())
            &&& final(visited)@.contains(
                key_of(old(path)@[old(path)@.len() - 1]@) as u64,
            )
        },
    decreases bound + 1 - g,
{
    let ghost orig = path@;
    let last_idx = path.len() - 1;
    let cur = path[last_idx].clone();
    proof {
        assert(orig[orig.len() - 1].wf());
        assert((n * n) <= 16) by (nonlinear_arith)
            requires
                n == 3 || n == 4,
        ;
        lemma_key_of_u64(cur@);
    }
    let h = heuristic_value(&cur, mode, table);
    let f: u64 = g + (h as u64);
    if f > bound {
        proof {
            assert(f < u64::MAX);
        }
        return (f, Ghost(vdec));
    }
    if cur.is_goal() {
        return (0, Ghost(vdec));
    }
    let cur_key = cur.encode_key();
    visited.insert(cur_key);
    let ghost mut vmap: Map<u64, Seq<u8>> = vdec;
    proof {
        vmap = vmap.insert(cur_key, cur@);
        assert(vmap.dom() =~= visited@);
        assert(cur_key == (key_of(cur@) as u64));
        assert(map_extends(vdec, vmap)) by {
            if vdec.dom().contains(cur_key) {
                assert(old(visited)@.contains(cur_key));
                assert(key_of(vdec[cur_key]) == cur_key as int);
                lemma_key_of_injective(vdec[cur_key], cur@);
                assert(vdec[cur_key] == cur@);
            }
        }
        if dfs_closure_ok(n, old(visited)@, vdec, orig) {
            assert forall|k: u64| #[trigger] visited@.contains(k) implies dfs_closed(
                n,
                visited@,
                vmap,
                k,
                orig,
            ) by {
                if k == cur_key {
                    reveal(dfs_closed);
                    reveal(stack_neighbor);
                    assert forall|b2: Seq<u8>|
                        #![trigger step_seq(n, vmap[k], b2)]
                        step_seq(n, vmap[k], b2) implies visited@.contains(key_of(b2) as u64)
                        || stack_neighbor(n, orig, b2) by {
                        assert(step_seq(n, (orig[orig.len() - 1])@, b2));
                    }
                } else {
                    lemma_dfs_closed_grow(n, old(visited)@, visited@, vdec, vmap, k, orig);
                }
            }
        }
    }
    let nbs = cur.neighbor_boards();
    let mut min_cost: u64 = u64::MAX;
    let nb_count = nbs.len();
    let mut i: usize = 0;
    while i < nb_count
        invariant
            chain_ok(n, path@),
            path@ == orig,
            orig == old(path)@,
            old(visited)@.subset_of(visited@),
            orig.len() >= 1,
            g + spec_heuristic(mode, n, orig[orig.len() - 1]@, table@) <= bound,
            cur.wf(),
            cur.spec_side() == n,
            cur@ == orig[orig.len() - 1]@,
            nb_count == nbs@.len(),
            i <= nb_count,
            min_cost > bound,
            g <= bound,
            bound <= u64::MAX - 4002,
            mode_uses_table(mode) ==> n == 4,
            n == 3 || n == 4,
            dfs_decode_ok(n, visited@, vmap),
            vmap.dom() == visited@,
            map_extends(vdec, vmap),
            visited@.contains(cur_key),
            cur_key == (key_of(cur@) as u64),
            vmap[cur_key] == cur@,
            min_cost == u64::MAX && dfs_closure_ok(n, old(visited)@, vdec, orig)
                ==> dfs_closure_ok(n, visited@, vmap, orig),
            min_cost == u64::MAX && dfs_closure_ok(n, old(visited)@, vdec, orig) ==> forall|
                k2: int,
            |
                0 <= k2 < i ==> visited@.contains(#[trigger] (key_of(nbs@[k2]@) as u64)),
            forall|k: int|
                0 <= k < nbs@.len() ==> {
                    &&& (#[trigger] nbs@[k]).wf()
                    &&& nbs@[k].spec_side() == n
                    &&& step_seq(n, cur@, nbs@[k]@)
                },
            forall|p0: int, q: int|
                (0 <= p0 < cur@.len() && cur@[p0] == 0 && #[trigger] adjacent(n, p0, q))
                    ==> exists|k2: int|
                    0 <= k2 < nbs@.len() && (#[trigger] nbs@[k2])@ == moved_seq(cur@, p0, q),
        decreases nb_count - i,
    {
        proof {
            lemma_key_of_u64(nbs@[i as int]@);
        }
        let nb = nbs[i].clone();
        let nb_key = nb.encode_key();
        if !visited.contains(&nb_key) {
            let ghost before_push = path@;
            let ghost pre_min = min_cost;
            let ghost pre_vmap = vmap;
            path.push(nb);
            proof {
                assert forall|j: int| 0 <= j < path@.len() - 1 implies step_seq(
                    n,
                    (#[trigger] path@[j])@,
                    path@[j + 1]@,
                ) by {
                    if j < before_push.len() - 1 {
                        assert(step_seq(n, before_push[j]@, before_push[j + 1]@));
                    } else {
                        assert(path@[j]@ == cur@);
                    }
                }
                assert(chain_ok(n, path@));
                if pre_min == u64::MAX && dfs_closure_ok(n, old(visited)@, vdec, orig) {
                    assert forall|k: u64| #[trigger] visited@.contains(k) implies dfs_closed(
                        n,
                        visited@,
                        vmap,
                        k,
                        path@,
                    ) by {
                        lemma_dfs_closed_stack_push(
                            n,
                            visited@,
                            vmap,
                            k,
                            orig,
                            path@[path@.len() - 1],
                        );
                        assert(path@ =~= orig.push(path@[path@.len() - 1]));
                    }
                    assert(dfs_closure_ok(n, visited@, vmap, path@));
                }
            }
            let ghost pushed_path = path@;
            let (t, g2) = search(path, g + 1, bound, visited, mode, table, Ghost(n), Ghost(vmap));
            proof {
                assert(map_extends(pre_vmap, g2@));
                vmap = g2@;
                assert(map_extends(vdec, vmap)) by {
                    assert forall|k: u64| #[trigger] vdec.dom().contains(k) implies
                        vmap.dom().contains(k) && vmap[k] == vdec[k] by {
                        assert(pre_vmap.dom().contains(k) && pre_vmap[k] == vdec[k]);
                    }
                }
            }
            if t == 0 {
                proof {
                    assert(forall|j: int| 0 <= j < orig.len() ==> path@[j] == orig[j]);
                }
                return (0, Ghost(vmap));
            }
            proof {
                if pre_min == u64::MAX && t == u64::MAX && dfs_closure_ok(
                    n,
                    old(visited)@,
                    vdec,
                    orig,
                ) {
                    assert(dfs_closure_ok(n, visited@, vmap, pushed_path.drop_last()));
                    assert(pushed_path.drop_last() =~= orig);
                    assert(dfs_closure_ok(n, visited@, vmap, orig));
                    assert(visited@.contains(
                        (key_of(pushed_path[pushed_path.len() - 1]@) as u64),
                    ));
                    assert(pushed_path[pushed_path.len() - 1]@ == nbs@[i as int]@);
                    assert(visited@.contains((key_of(nbs@[i as int]@) as u64)));
                }
            }
            if t < min_cost {
                min_cost = t;
            }
            path.pop();
            proof {
                assert(path@ =~= orig);
            }
        }
        i = i + 1;
    }
    proof {
        if min_cost == u64::MAX && dfs_closure_ok(n, old(visited)@, vdec, orig) {
            assert forall|b2: Seq<u8>|
                step_seq(n, (orig[orig.len() - 1])@, b2) implies visited@.contains(
                #[trigger] (key_of(b2) as u64),
            ) by {
                let (p0, q) = choose|p0: int, q: int|
                    #![trigger adjacent(n, p0, q)]
                    {
                        &&& 0 <= p0 < cur@.len()
                        &&& cur@[p0] == 0
                        &&& adjacent(n, p0, q)
                        &&& b2 == moved_seq(cur@, p0, q)
                    };
                let k2 = choose|k2: int|
                    0 <= k2 < nbs@.len() && (#[trigger] nbs@[k2])@ == moved_seq(cur@, p0, q);
                assert(visited@.contains((key_of(nbs@[k2]@) as u64)));
            }
            assert forall|k: u64| #[trigger] visited@.contains(k) implies dfs_closed(
                n,
                visited@,
                vmap,
                k,
                orig.drop_last(),
            ) by {
                lemma_dfs_closed_complete_last(n, visited@, vmap, k, orig);
            }
            assert(dfs_closure_ok(n, visited@, vmap, orig.drop_last()));
        }
    }
    (min_cost, Ghost(vmap))
}

/// The IDA* engine: iterative deepening on the estimate bound, with the
/// visited set reset at the start of every bounded pass.  A returned path
/// is proved to be a genuine solution; failure is reported only when no
/// solution path exists at all, shown by the closed expanded set of the
/// exhausted pass.  Should the deepening bound ever outgrow its arithmetic
/// margin, the complete A* engine takes over.
pub fn ida_engine(start: &Board, mode: HeuristicMode, table: &HashMap<u64, u8>) -> (r: Option<
    Vec<Board>,
>)
    requires
        start.wf(),
        mode_uses_table(mode) ==> start.spec_side() == 4,
    ensures
        r matches Some(path) ==> valid_path(start.spec_side(), path@, start@),
        start@ == goal_seq(start.spec_side()) ==> r is Some && r.unwrap()@.len() == 1,
        r is None ==> !solution_exists(start.spec_side(), start@),
{
    let ghost n = start.spec_side();
    if start.is_goal() {
        let mut path: Vec<Board> = Vec::new();
        path.push(start.clone());
        return Some(path);
    }
    proof {
        assert((n * n) <= 16) by (nonlinear_arith)
            requires
                n == 3 || n == 4,
        ;
        lemma_key_of_u64(start@);
    }
    let h0 = heuristic_value(start, mode, table);
    let mut bound: u64 = h0 as u64;
    while bound <= u64::MAX - 4002
        invariant
            start.wf(),
            n == start.spec_side(),
            mode_uses_table(mode) ==> n == 4,
            !(start@ == goal_seq(n)),
        decreases u64::MAX - bound,
    {
        let mut visited: HashSet<u64> = HashSet::new();
        let mut path: Vec<Board> = Vec::new();
        path.push(start.clone());
        let ghost vmap0: Map<u64, Seq<u8>> = Map::empty();
        proof {
            assert(chain_ok(n, path@));
            assert(vmap0.dom() =~= visited@);
        }
        let ghost stack0 = path@;
        let (t, g2) = search(&mut path, 0, bound, &mut visited, mode, table, Ghost(n), Ghost(vmap0));
        if t == 0 {
            proof {
                assert(path@[0]@ == start@);
            }
            return Some(path);
        }
        if t == u64::MAX {
            proof {
                assert(dfs_closure_ok(n, visited@, g2@, stack0.drop_last())) by {
                    assert(dfs_closure_ok(n, vmap0.dom(), vmap0, stack0));
                    assert(dfs_closure_ok(n, Set::<u64>::empty(), vmap0, stack0));
                }
                assert(stack0.drop_last() =~= Seq::<Board>::empty());
                assert(visited@.contains((key_of(start@) as u64)));
                lemma_no_solution_dfs(n, visited@, g2@, start@);
            }
            return None;
        }
        bound = t;
    }
    // The deepening bound outgrew its arithmetic margin (never reached in
    // practice): the complete A* engine decides.
    a_star_engine(start, mode, table)
}

impl State {
    /// A node with the same configuration view and the same search fields.
    pub fn clone_state(&self) -> (r: State)
        ensures
            r.board@ == self.board@,
            r.board.spec_side() == self.board.spec_side(),
            r.cost == self.cost,
            r.manhattan == self.manhattan,
            r.linear_conflict == self.linear_conflict,
            r.walking_distance == self.walking_distance,
            r.mode == self.mode,
            r.parent == self.parent,
    {
        State {
            board: self.board.clone(),
            cost: self.cost,
            manhattan: self.manhattan,
            linear_conflict: self.linear_conflict,
            walking_distance: self.walking_distance,
            mode: self.mode,
            parent: self.parent,
        }
    }
}

} // verus!
