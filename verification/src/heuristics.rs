//! The admissible heuristic evaluators: Manhattan distance, linear-conflict
//! penalty, and the Walking-Distance table lookup.

use vstd::prelude::*;
use std::collections::HashMap;
use crate::board::{Board, valid_config, goal_seq, lemma_grid_coords};
use crate::counting::{
    sum_range,
    count_range,
    lemma_sum_range_nonneg,
    lemma_sum_range_zero,
    lemma_sum_range_term_le,
    lemma_count_range_nonneg,
    lemma_count_range_le,
    lemma_count_range_zero,
    lemma_count_range_full,
    lemma_count_range_split,
};
use crate::encode::{key_of, encode_cells};
use crate::walking_distance::wd_goal_board;

verus! {

broadcast use vstd::std_specs::hash::group_hash_axioms;

/// The goal row of tile label `t` (`t >= 1`).
pub open spec fn goal_row_of(n: int, t: int) -> int {
    (t - 1) / n
}

/// The goal column of tile label `t` (`t >= 1`).
pub open spec fn goal_col_of(n: int, t: int) -> int {
    (t - 1) % n
}

pub open spec fn abs_diff(a: int, b: int) -> int {
    if a >= b {
        a - b
    } else {
        b - a
    }
}

/// The Manhattan contribution of the cell `p`: its row and column distance
/// from the tile's goal cell, or zero for the blank.
pub open spec fn man_term(n: int, s: Seq<u8>, p: int) -> int {
    if s[p] == 0 {
        0
    } else {
        abs_diff(p / n, goal_row_of(n, s[p] as int)) + abs_diff(p % n, goal_col_of(n, s[p] as int))
    }
}

pub open spec fn manhattan_prefix(n: int, s: Seq<u8>, m: int) -> int {
    sum_range(0, m, |p: int| man_term(n, s, p))
}

/// The Manhattan distance of a configuration.
pub open spec fn manhattan_spec(n: int, s: Seq<u8>) -> int {
    manhattan_prefix(n, s, n * n)
}

/// Computes the Manhattan distance: the sum over the non-blank tiles of the
/// row and column distance to the tile's goal cell.
pub fn manhattan_distance(b: &Board) -> (r: u32)
    requires
        b.wf(),
    ensures
        r as int == manhattan_spec(b.spec_side(), b@),
        r <= 96,
{
    let n = b.side();
    let area = n * n;
    proof {
        assert(area as int == b.spec_side() * b.spec_side());
        assert(area <= 16) by (nonlinear_arith)
            requires
                (n == 3 || n == 4) && area == n * n,
        ;
    }
    let mut acc: u32 = 0;
    for p in 0..area
        invariant
            b.wf(),
            n as int == b.spec_side(),
            area as int == b.spec_side() * b.spec_side(),
            area <= 16,
            area as int == b@.len(),
            acc as int == manhattan_prefix(b.spec_side(), b@, p as int),
            acc <= 6 * p,
    {
        let t = b.tile(p);
        let term: u32;
        if t != 0 {
            let gr = ((t - 1) as usize) / n;
            let gc = ((t - 1) as usize) % n;
            let row = p / n;
            let col = p % n;
            let dr = if row >= gr {
                row - gr
            } else {
                gr - row
            };
            let dc = if col >= gc {
                col - gc
            } else {
                gc - col
            };
            proof {
                lemma_grid_coords(b.spec_side(), p as int);
                lemma_grid_coords(b.spec_side(), t as int - 1);
            }
            term = (dr + dc) as u32;
        } else {
            term = 0;
        }
        proof {
            assert(term as int == man_term(b.spec_side(), b@, p as int));
        }
        acc = acc + term;
    }
    acc
}

/// Cells `p1 < p2` hold a linear conflict: they share their goal row (and
/// lie in it) or share their goal column (and lie in it), but stand in
/// reversed order.
pub open spec fn conflict_pair(n: int, s: Seq<u8>, p1: int, p2: int) -> bool {
    &&& s[p1] != 0
    &&& s[p2] != 0
    &&& s[p1] > s[p2]
    &&& ((p1 / n == p2 / n && goal_row_of(n, s[p1] as int) == p1 / n && goal_row_of(
        n,
        s[p2] as int,
    ) == p1 / n) || (p1 % n == p2 % n && goal_col_of(n, s[p1] as int) == p1 % n && goal_col_of(
        n,
        s[p2] as int,
    ) == p1 % n))
}

pub open spec fn conflicts_from(n: int, s: Seq<u8>, p1: int) -> int {
    count_range(p1 + 1, n * n, |p2: int| conflict_pair(n, s, p1, p2))
}

pub open spec fn conflict_prefix(n: int, s: Seq<u8>, m: int) -> int {
    sum_range(0, m, |p1: int| conflicts_from(n, s, p1))
}

/// The linear-conflict penalty: two extra moves for each conflicting pair,
/// over all rows and columns.
pub open spec fn linear_conflict_spec(n: int, s: Seq<u8>) -> int {
    2 * conflict_prefix(n, s, n * n)
}

/// Computes the linear-conflict penalty.
pub fn linear_conflict(b: &Board) -> (r: u32)
    requires
        b.wf(),
    ensures
        r as int == linear_conflict_spec(b.spec_side(), b@),
        r <= 480,
{
    let n = b.side();
    let area = n * n;
    let ghost side = b.spec_side();
    let ghost s = b@;
    proof {
        assert(area <= 16) by (nonlinear_arith)
            requires
                (n == 3 || n == 4) && area == n * n,
        ;
    }
    let mut acc: u32 = 0;
    for p1 in 0..area
        invariant
            b.wf(),
            n as int == side,
            side == b.spec_side(),
            s == b@,
            area as int == side * side,
            area <= 16,
            area as int == b@.len(),
            acc as int == conflict_prefix(side, s, p1 as int),
            acc <= 15 * p1,
    {
        let t1 = b.tile(p1);
        let mut cnt: u32 = 0;
        let mut p2 = p1 + 1;
        proof {
            assert(count_range(p1 as int + 1, p1 as int + 1, |q: int| conflict_pair(side, s, p1 as int, q)) == 0);
        }
        while p2 < area
            invariant
                b.wf(),
                n as int == side,
                side == b.spec_side(),
                s == b@,
                area as int == side * side,
                area <= 16,
                area as int == b@.len(),
                p1 < p2 <= area,
                t1 == s[p1 as int],
                cnt as int == count_range(
                    p1 as int + 1,
                    p2 as int,
                    |q: int| conflict_pair(side, s, p1 as int, q),
                ),
                cnt <= p2 - p1 - 1,
            decreases area - p2,
        {
            let t2 = b.tile(p2);
            let mut hit = false;
            if t1 != 0 && t2 != 0 && t1 > t2 {
                if p1 / n == p2 / n && ((t1 - 1) as usize) / n == p1 / n && ((t2 - 1) as usize)
                    / n == p1 / n {
                    hit = true;
                } else if p1 % n == p2 % n && ((t1 - 1) as usize) % n == p1 % n && ((t2
                    - 1) as usize) % n == p1 % n {
                    hit = true;
                }
            }
            proof {
                assert(hit == conflict_pair(side, s, p1 as int, p2 as int));
            }
            if hit {
                cnt = cnt + 1;
            }
            p2 = p2 + 1;
        }
        proof {
            assert(cnt as int == conflicts_from(side, s, p1 as int));
        }
        acc = acc + cnt;
    }
    proof {
        assert(acc as int == conflict_prefix(side, s, side * side));
    }
    2 * acc
}

/// Law: the linear-conflict penalty is nonnegative for every configuration.
pub proof fn lemma_linear_conflict_nonneg(n: int, s: Seq<u8>)
    ensures
        linear_conflict_spec(n, s) >= 0,
{
    let f = |p1: int| conflicts_from(n, s, p1);
    assert forall|p1: int| 0 <= p1 < n * n implies #[trigger] f(p1) >= 0 by {
        lemma_count_range_nonneg(p1 + 1, n * n, |q: int| conflict_pair(n, s, p1, q));
    }
    lemma_sum_range_nonneg(0, n * n, f);
}

/// Law: the linear-conflict penalty vanishes on the goal configuration.
pub proof fn lemma_linear_conflict_goal_zero(n: int)
    requires
        n == 3 || n == 4,
    ensures
        linear_conflict_spec(n, goal_seq(n)) == 0,
{
    let s = goal_seq(n);
    let f = |p1: int| conflicts_from(n, s, p1);
    assert forall|p1: int| 0 <= p1 < n * n implies #[trigger] f(p1) == 0 by {
        let g = |q: int| conflict_pair(n, s, p1, q);
        assert forall|q: int| p1 + 1 <= q < n * n implies !(#[trigger] g(q)) by {
            if s[p1] != 0 && s[q] != 0 {
                assert(s[p1] as int == p1 + 1);
                assert(s[q] as int == q + 1);
            }
        }
        lemma_count_range_zero(p1 + 1, n * n, g);
    }
    lemma_sum_range_zero(0, n * n, f);
}

/// Entry `(i, g)` of the row count board: how many tiles of current row `i`
/// belong to goal row `g`.
pub open spec fn row_proj_entry(s: Seq<u8>, i: int, g: int) -> int {
    count_range(4 * i, 4 * i + 4, |q: int| s[q] != 0 && goal_row_of(4, s[q] as int) == g)
}

/// Entry `(j, g)` of the column count board: how many tiles of current
/// column `j` belong to goal column `g`.
pub open spec fn col_proj_entry(s: Seq<u8>, j: int, g: int) -> int {
    count_range(0, 4, |r: int| s[4 * r + j] != 0 && goal_col_of(4, s[4 * r + j] as int) == g)
}

/// The 4x4 row count board of a 15-puzzle configuration, row-major.
pub open spec fn row_proj_board(s: Seq<u8>) -> Seq<u8> {
    Seq::new(16, |k: int| row_proj_entry(s, k / 4, k % 4) as u8)
}

/// The 4x4 column count board of a 15-puzzle configuration, row-major.
pub open spec fn col_proj_board(s: Seq<u8>) -> Seq<u8> {
    Seq::new(16, |k: int| col_proj_entry(s, k / 4, k % 4) as u8)
}

/// The table value of a key, with zero for a key the table lacks.
pub open spec fn lookup0(t: Map<u64, u8>, k: u64) -> int {
    if t.contains_key(k) {
        t[k] as int
    } else {
        0
    }
}

/// The Walking-Distance value: the table distances of the row and of the
/// column count board, summed.
pub open spec fn wd_spec(s: Seq<u8>, t: Map<u64, u8>) -> int {
    lookup0(t, key_of(row_proj_board(s)) as u64) + lookup0(t, key_of(col_proj_board(s)) as u64)
}

/// Builds the row count board of a 15-puzzle configuration.
fn build_row_proj(b: &Board) -> (v: Vec<u8>)
    requires
        b.wf(),
        b.spec_side() == 4,
    ensures
        v@ == row_proj_board(b@),
        v@.len() == 16,
        forall|i: int| 0 <= i < v@.len() ==> (#[trigger] v@[i]) <= 4,
{
    let ghost s = b@;
    let mut v: Vec<u8> = Vec::new();
    for k in 0..16usize
        invariant
            b.wf(),
            b.spec_side() == 4,
            s == b@,
            b@.len() == 16,
            v@.len() == k,
            forall|m: int| 0 <= m < k ==> (#[trigger] v@[m]) as int == row_proj_entry(s, m / 4, m % 4),
            forall|m: int| 0 <= m < k ==> (#[trigger] v@[m]) <= 4,
    {
        let i = k / 4;
        let g = k % 4;
        let ghost pred = |q: int| s[q] != 0 && goal_row_of(4, s[q] as int) == (g as int);
        let mut cnt: u8 = 0;
        let lo = 4 * i;
        let mut q = lo;
        proof {
            assert(count_range(4 * (i as int), 4 * (i as int), pred) == 0);
        }
        while q < lo + 4
            invariant
                b.wf(),
                b.spec_side() == 4,
                s == b@,
                b@.len() == 16,
                i < 4,
                g < 4,
                lo == 4 * i,
                lo <= q <= lo + 4,
                pred == (|q: int| s[q] != 0 && goal_row_of(4, s[q] as int) == (g as int)),
                cnt as int == count_range(4 * (i as int), q as int, pred),
                cnt <= 4,
            decreases lo + 4 - q,
        {
            let t = b.tile(q);
            let hit = t != 0 && ((t - 1) as usize) / 4 == g;
            proof {
                assert(hit == pred(q as int));
                crate::counting::lemma_count_range_le(4 * (i as int), q as int, pred);
                lemma_count_range_nonneg(4 * (i as int), q as int, pred);
            }
            if hit {
                cnt = cnt + 1;
            }
            q = q + 1;
        }
        proof {
            assert(cnt as int == row_proj_entry(s, i as int, g as int));
        }
        v.push(cnt);
    }
    proof {
        assert(v@ =~= row_proj_board(s));
    }
    v
}

/// Builds the column count board of a 15-puzzle configuration.
fn build_col_proj(b: &Board) -> (v: Vec<u8>)
    requires
        b.wf(),
        b.spec_side() == 4,
    ensures
        v@ == col_proj_board(b@),
        v@.len() == 16,
        forall|i: int| 0 <= i < v@.len() ==> (#[trigger] v@[i]) <= 4,
{
    let ghost s = b@;
    let mut v: Vec<u8> = Vec::new();
    for k in 0..16usize
        invariant
            b.wf(),
            b.spec_side() == 4,
            s == b@,
            b@.len() == 16,
            v@.len() == k,
            forall|m: int| 0 <= m < k ==> (#[trigger] v@[m]) as int == col_proj_entry(s, m / 4, m % 4),
            forall|m: int| 0 <= m < k ==> (#[trigger] v@[m]) <= 4,
    {
        let j = k / 4;
        let g = k % 4;
        let ghost pred = |r: int| s[4 * r + j] != 0 && goal_col_of(4, s[4 * r + j] as int) == (
        g as int);
        let mut cnt: u8 = 0;
        let mut row = 0usize;
        proof {
            assert(count_range(0, 0, pred) == 0);
        }
        while row < 4
            invariant
                b.wf(),
                b.spec_side() == 4,
                s == b@,
                b@.len() == 16,
                j < 4,
                g < 4,
                row <= 4,
                pred == (|r: int| s[4 * r + j] != 0 && goal_col_of(4, s[4 * r + j] as int) == (
                g as int)),
                cnt as int == count_range(0, row as int, pred),
                cnt <= 4,
            decreases 4 - row,
        {
            let t = b.tile(4 * row + j);
            let hit = t != 0 && ((t - 1) as usize) % 4 == g;
            proof {
                assert(hit == pred(row as int));
                lemma_count_range_le(0, row as int, pred);
                lemma_count_range_nonneg(0, row as int, pred);
            }
            if hit {
                cnt = cnt + 1;
            }
            row = row + 1;
        }
        proof {
            assert(cnt as int == col_proj_entry(s, j as int, g as int));
        }
        v.push(cnt);
    }
    proof {
        assert(v@ =~= col_proj_board(s));
    }
    v
}

/// Computes the Walking-Distance heuristic of a 15-puzzle configuration by
/// projecting it onto its two count boards and looking both up in the table.
/// A count board that the table lacks contributes zero.
pub fn walking_distance(b: &Board, table: &HashMap<u64, u8>) -> (r: u32)
    requires
        b.wf(),
        b.spec_side() == 4,
    ensures
        r as int == wd_spec(b@, table@),
        r <= 510,
{
    let row_board = build_row_proj(b);
    let col_board = build_col_proj(b);
    let row_key = encode_cells(&row_board);
    let col_key = encode_cells(&col_board);
    let rv: u32 = match table.get(&row_key) {
        Some(d) => *d as u32,
        None => 0,
    };
    let cv: u32 = match table.get(&col_key) {
        Some(d) => *d as u32,
        None => 0,
    };
    rv + cv
}

/// Both projections of the goal configuration are the goal count board.
pub proof fn lemma_goal_projections()
    ensures
        row_proj_board(goal_seq(4)) == wd_goal_board(),
        col_proj_board(goal_seq(4)) == wd_goal_board(),
{
    let s = goal_seq(4);
    assert forall|k: int| 0 <= k < 16 implies row_proj_board(s)[k] == wd_goal_board()[k] by {
        let i = k / 4;
        let g = k % 4;
        let pred = |q: int| s[q] != 0 && goal_row_of(4, s[q] as int) == g;
        crate::board::lemma_grid_coords(4, k);
        if i == g {
            if i < 3 {
                assert forall|q: int| 4 * i <= q < 4 * i + 4 implies #[trigger] pred(q) by {
                    assert(s[q] as int == q + 1);
                }
                lemma_count_range_full(4 * i, 4 * i + 4, pred);
            } else {
                assert forall|q: int| 12 <= q < 15 implies #[trigger] pred(q) by {
                    assert(s[q] as int == q + 1);
                }
                lemma_count_range_full(12, 15, pred);
                assert(!pred(15));
                lemma_count_range_split(12, 15, 16, pred);
            }
        } else {
            assert forall|q: int| 4 * i <= q < 4 * i + 4 implies !(#[trigger] pred(q)) by {
                if s[q] != 0 {
                    assert(s[q] as int == q + 1);
                    assert(goal_row_of(4, q + 1) == i);
                }
            }
            lemma_count_range_zero(4 * i, 4 * i + 4, pred);
        }
    }
    assert(row_proj_board(s) =~= wd_goal_board());
    assert forall|k: int| 0 <= k < 16 implies col_proj_board(s)[k] == wd_goal_board()[k] by {
        let j = k / 4;
        let g = k % 4;
        let pred = |r: int| s[4 * r + j] != 0 && goal_col_of(4, s[4 * r + j] as int) == g;
        crate::board::lemma_grid_coords(4, k);
        if j == g {
            if j < 3 {
                assert forall|r: int| 0 <= r < 4 implies #[trigger] pred(r) by {
                    assert(s[4 * r + j] as int == 4 * r + j + 1);
                }
                lemma_count_range_full(0, 4, pred);
            } else {
                assert forall|r: int| 0 <= r < 3 implies #[trigger] pred(r) by {
                    assert(s[4 * r + j] as int == 4 * r + j + 1);
                }
                lemma_count_range_full(0, 3, pred);
                assert(!pred(3));
                lemma_count_range_split(0, 3, 4, pred);
            }
        } else {
            assert forall|r: int| 0 <= r < 4 implies !(#[trigger] pred(r)) by {
                if s[4 * r + j] != 0 {
                    assert(s[4 * r + j] as int == 4 * r + j + 1);
                    assert(goal_col_of(4, 4 * r + j + 1) == j);
                }
            }
            lemma_count_range_zero(0, 4, pred);
        }
    }
    assert(col_proj_board(s) =~= wd_goal_board());
}

/// Law: the Walking Distance is nonnegative for every configuration and
/// every table.
pub proof fn lemma_walking_distance_nonneg(s: Seq<u8>, t: Map<u64, u8>)
    ensures
        wd_spec(s, t) >= 0,
{
}

/// Law: the Walking Distance vanishes on the goal configuration, for any
/// table that maps the goal count board to zero, as the one the builder
/// returns does.
pub proof fn lemma_walking_distance_goal_zero(t: Map<u64, u8>)
    requires
        t.contains_key(key_of(wd_goal_board()) as u64),
        t[key_of(wd_goal_board()) as u64] == 0,
    ensures
        wd_spec(goal_seq(4), t) == 0,
{
    lemma_goal_projections();
}

/// Law: the Manhattan distance is nonnegative for every configuration.
pub proof fn lemma_manhattan_nonneg(n: int, s: Seq<u8>)
    ensures
        manhattan_spec(n, s) >= 0,
{
    let f = |p: int| man_term(n, s, p);
    assert forall|p: int| 0 <= p < n * n implies #[trigger] f(p) >= 0 by {
        assert(man_term(n, s, p) >= 0);
    }
    lemma_sum_range_nonneg(0, n * n, f);
}

/// Law: the Manhattan distance is zero exactly on the goal configuration.
pub proof fn lemma_manhattan_zero_iff_goal(n: int, s: Seq<u8>)
    requires
        valid_config(n, s),
    ensures
        manhattan_spec(n, s) == 0 <==> s == goal_seq(n),
{
    let f = |p: int| man_term(n, s, p);
    if s == goal_seq(n) {
        assert forall|p: int| 0 <= p < n * n implies #[trigger] f(p) == 0 by {
            if s[p] != 0 {
                assert(s[p] as int == p + 1);
                lemma_grid_coords(n, p);
                assert(goal_row_of(n, p + 1) == p / n);
                assert(goal_col_of(n, p + 1) == p % n);
            }
        }
        lemma_sum_range_zero(0, n * n, f);
    }
    if manhattan_spec(n, s) == 0 {
        assert forall|p: int| 0 <= p < n * n && s[p] != 0 implies s[p] as int == p + 1 by {
            assert(f(p) >= 0);
            assert forall|q: int| 0 <= q < n * n implies #[trigger] f(q) >= 0 by {
                assert(man_term(n, s, q) >= 0);
            }
            lemma_sum_range_term_le(0, n * n, f, p);
            assert(man_term(n, s, p) == 0);
            let t = s[p] as int;
            lemma_grid_coords(n, p);
            lemma_grid_coords(n, t - 1);
            assert(p / n == goal_row_of(n, t));
            assert(p % n == goal_col_of(n, t));
            assert(t - 1 == n * ((t - 1) / n) + (t - 1) % n);
            assert(p == t - 1);
        }
        let p0 = choose|p: int| 0 <= p < s.len() && s[p] == 0;
        assert(s[n * n - 1] == 0) by {
            if p0 != n * n - 1 {
                assert(s[n * n - 1] as int == n * n) by {
                    if s[n * n - 1] == 0 {
                        assert(s[p0] == s[n * n - 1]);
                        assert(false);
                    }
                }
                assert((s[n * n - 1] as int) < n * n);
                assert(false);
            }
        }
        assert(s =~= goal_seq(n));
    }
}

} // verus!
