//! The parity-based solvability test: a configuration is reachable from the
//! goal exactly when the standard inversion-count rule admits it.  For an
//! odd side (the 8-puzzle) the inversion count must be even; for an even
//! side (the 15-puzzle) the inversion count plus the blank row counted from
//! the bottom (1-indexed) must be odd.

use vstd::prelude::*;
use crate::board::{
    Board,
    valid_config,
    goal_seq,
    adjacent,
    moved_seq,
    step_seq,
    lemma_goal_valid,
    lemma_moved_valid,
    lemma_grid_coords,
};
use crate::counting::{
    sum_range,
    count_range,
    lemma_sum_range_nonneg,
    lemma_sum_range_zero,
    lemma_sum_range_split,
    lemma_sum_range_congruence,
    lemma_sum_range_minus_indicator,
    lemma_count_range_zero,
    lemma_count_range_nonneg,
    lemma_count_range_le,
    lemma_count_range_split,
    lemma_count_range_congruence,
    lemma_count_range_complement,
    lemma_count_range_one_point,
    lemma_count_range_two_point,
};

verus! {

/// Cells `i < j` hold an inversion: both non-blank, in decreasing order.
pub open spec fn inv_pair(s: Seq<u8>, i: int, j: int) -> bool {
    s[i] != 0 && s[j] != 0 && s[i] > s[j]
}

pub open spec fn inversions_from(s: Seq<u8>, i: int) -> int {
    count_range(i + 1, s.len() as int, |j: int| inv_pair(s, i, j))
}

pub open spec fn inversions_prefix(s: Seq<u8>, m: int) -> int {
    sum_range(0, m, |i: int| inversions_from(s, i))
}

/// The number of inversions of the flattened configuration.
pub open spec fn inversions_spec(s: Seq<u8>) -> int {
    inversions_prefix(s, s.len() as int)
}

/// The flat index of the blank cell.
pub open spec fn blank_index(s: Seq<u8>) -> int {
    choose|p: int| 0 <= p < s.len() && s[p] == 0
}

/// The blank's row counted from the bottom, 1-indexed.
pub open spec fn blank_row_from_bottom(n: int, s: Seq<u8>) -> int {
    n - blank_index(s) / n
}

/// The standard solvability rule.
pub open spec fn solvable_spec(n: int, s: Seq<u8>) -> bool {
    if n % 2 == 1 {
        inversions_spec(s) % 2 == 0
    } else {
        (inversions_spec(s) + blank_row_from_bottom(n, s)) % 2 == 1
    }
}

/// In a valid configuration the blank cell is unique, so any cell holding 0
/// is the blank index.
pub proof fn lemma_blank_unique(n: int, s: Seq<u8>, p: int)
    requires
        valid_config(n, s),
        0 <= p < s.len(),
        s[p] == 0,
    ensures
        p == blank_index(s),
{
    let b = blank_index(s);
    assert(0 <= b < s.len() && s[b] == 0);
    if p != b {
        assert(s[p] == s[b]);
        assert(false);
    }
}

/// Counts the inversions of the flattened configuration.
pub fn get_inversion_count(b: &Board) -> (r: u32)
    requires
        b.wf(),
    ensures
        r as int == inversions_spec(b@),
        r <= 240,
{
    let len = b.side() * b.side();
    let ghost s = b@;
    proof {
        assert(len <= 16) by (nonlinear_arith)
            requires
                (b.spec_side() == 3 || b.spec_side() == 4) && len as int == b.spec_side()
                    * b.spec_side(),
        ;
    }
    let mut acc: u32 = 0;
    for i in 0..len
        invariant
            b.wf(),
            s == b@,
            len as int == b@.len(),
            len <= 16,
            acc as int == inversions_prefix(s, i as int),
            acc <= 15 * i,
    {
        let ti = b.tile(i);
        let ghost pred = |j: int| inv_pair(s, i as int, j);
        let mut cnt: u32 = 0;
        let mut j = i + 1;
        proof {
            assert(count_range(i as int + 1, i as int + 1, pred) == 0);
        }
        while j < len
            invariant
                b.wf(),
                s == b@,
                len as int == b@.len(),
                len <= 16,
                i < j <= len,
                ti == s[i as int],
                pred == (|j: int| inv_pair(s, i as int, j)),
                cnt as int == count_range(i as int + 1, j as int, pred),
                cnt <= j - i - 1,
            decreases len - j,
        {
            let tj = b.tile(j);
            let hit = ti != 0 && tj != 0 && ti > tj;
            proof {
                assert(hit == pred(j as int));
            }
            if hit {
                cnt = cnt + 1;
            }
            j = j + 1;
        }
        proof {
            assert(cnt as int == inversions_from(s, i as int));
        }
        acc = acc + cnt;
    }
    acc
}

/// Decides whether a configuration is reachable from the goal, by the
/// standard parity rule.
pub fn is_solvable(b: &Board) -> (r: bool)
    requires
        b.wf(),
    ensures
        r == solvable_spec(b.spec_side(), b@),
{
    let inv = get_inversion_count(b);
    let n = b.side();
    if n % 2 == 1 {
        inv % 2 == 0
    } else {
        let p = b.blank_pos();
        proof {
            lemma_blank_unique(b.spec_side(), b@, p as int);
            crate::board::lemma_grid_coords(b.spec_side(), p as int);
        }
        let row_from_bottom = n - p / n;
        (inv as u64 + row_from_bottom as u64) % 2 == 1
    }
}

/// The cells at `u` and `v` exchanged.
pub open spec fn swap_cells(s: Seq<u8>, u: int, v: int) -> Seq<u8> {
    s.update(u, s[v]).update(v, s[u])
}

/// Swapping the blank with a tile changes the inversion count by the
/// parity of the number of cells strictly between them.
pub proof fn lemma_swap_blank_inversion_parity(s: Seq<u8>, u: int, v: int)
    requires
        0 <= u < v < s.len(),
        forall|i: int, j: int| 0 <= i < j < s.len() ==> s[i] != s[j],
        s[u] == 0 || s[v] == 0,
    ensures
        (inversions_spec(swap_cells(s, u, v)) + inversions_spec(s) + (v - u - 1)) % 2 == 0,
{
    let b = swap_cells(s, u, v);
    let len = s.len() as int;
    let fs = |i: int| inversions_from(s, i);
    let fb = |i: int| inversions_from(b, i);
    // The outer sums, split at the two swapped cells.
    lemma_sum_range_split(0, u, len, fs);
    lemma_sum_range_split(u, u + 1, len, fs);
    lemma_sum_range_split(u + 1, v, len, fs);
    lemma_sum_range_split(v, v + 1, len, fs);
    lemma_sum_range_split(0, u, len, fb);
    lemma_sum_range_split(u, u + 1, len, fb);
    lemma_sum_range_split(u + 1, v, len, fb);
    lemma_sum_range_split(v, v + 1, len, fb);
    assert(sum_range(u, u + 1, fs) == sum_range(u, u, fs) + fs(u));
    assert(sum_range(u, u + 1, fb) == sum_range(u, u, fb) + fb(u));
    assert(sum_range(v, v + 1, fs) == sum_range(v, v, fs) + fs(v));
    assert(sum_range(v, v + 1, fb) == sum_range(v, v, fb) + fb(v));
    // Cells before the first swapped cell count the same inversions.
    assert forall|i: int| 0 <= i < u implies #[trigger] fb(i) == fs(i) by {
        let ps = |j: int| inv_pair(s, i, j);
        let pb = |j: int| inv_pair(b, i, j);
        lemma_count_range_two_point(i + 1, len, ps, pb, u, v);
        if s[u] == 0 {
            assert(!ps(u));
            assert(!pb(v));
            assert(pb(u) <==> ps(v));
        } else {
            assert(!ps(v));
            assert(!pb(u));
            assert(pb(v) <==> ps(u));
        }
    }
    lemma_sum_range_congruence(0, u, fb, fs);
    // Cells after the second swapped cell count the same inversions.
    assert forall|i: int| v < i < len implies #[trigger] fb(i) == fs(i) by {
        let ps = |j: int| inv_pair(s, i, j);
        let pb = |j: int| inv_pair(b, i, j);
        lemma_count_range_congruence(i + 1, len, ps, pb);
    }
    lemma_sum_range_congruence(v + 1, len, fb, fs);
    if s[u] == 0 {
        // The tile moves from `v` up to `u`.
        let t = s[v];
        assert(t != 0);
        let less_t = |j: int| s[j] != 0 && s[j] < t;
        let greater_t = |j: int| s[j] != 0 && s[j] > t;
        let cl = count_range(u + 1, v, less_t);
        let cg = count_range(u + 1, v, greater_t);
        let x = count_range(v + 1, len, less_t);
        // The blank's own cell counts nothing before the swap ...
        assert(fs(u) == 0) by {
            let ps = |j: int| inv_pair(s, u, j);
            lemma_count_range_zero(u + 1, len, ps);
        }
        // ... and afterwards counts the smaller tiles beyond it.
        assert(fb(u) == cl + x) by {
            let pb = |j: int| inv_pair(b, u, j);
            lemma_count_range_split(u + 1, v, len, pb);
            lemma_count_range_split(v, v + 1, len, pb);
            assert(count_range(v, v + 1, pb) == count_range(v, v, pb) + (if pb(v) {
                1int
            } else {
                0int
            }));
            assert(!pb(v));
            lemma_count_range_congruence(u + 1, v, pb, less_t);
            lemma_count_range_congruence(v + 1, len, pb, less_t);
        }
        // The vacated cell counted the smaller tiles beyond it.
        assert(fs(v) == x) by {
            let ps = |j: int| inv_pair(s, v, j);
            lemma_count_range_congruence(v + 1, len, ps, less_t);
        }
        assert(fb(v) == 0) by {
            let pb = |j: int| inv_pair(b, v, j);
            lemma_count_range_zero(v + 1, len, pb);
        }
        // Each cell strictly between loses its inversion with the moved
        // tile exactly when it is the greater.
        assert forall|i: int| u + 1 <= i < v implies #[trigger] fb(i) == fs(i) - (
        if greater_t(i) {
            1int
        } else {
            0int
        }) by {
            let ps = |j: int| inv_pair(s, i, j);
            let pb = |j: int| inv_pair(b, i, j);
            lemma_count_range_one_point(i + 1, len, ps, pb, v);
            assert(s[i] != 0);
            assert(ps(v) == greater_t(i));
            assert(!pb(v));
        }
        lemma_sum_range_minus_indicator(u + 1, v, fs, fb, greater_t);
        // Between the two cells, smaller and greater tiles split the range.
        lemma_count_range_complement(u + 1, v, less_t, greater_t);
        assert(cl + cg == v - u - 1) by {
            assert forall|j: int| u + 1 <= j < v implies (#[trigger] less_t(j) <==> !(
            #[trigger] greater_t(j))) by {
                assert(s[j] != s[u]);
                assert(s[j] != s[v]);
            }
            lemma_count_range_complement(u + 1, v, less_t, greater_t);
        }
        assert(inversions_spec(b) + inversions_spec(s) + (v - u - 1) == 2 * (sum_range(0, u, fs)
            + sum_range(u + 1, v, fs) + sum_range(v + 1, len, fs) + x + cl));
    } else {
        // The tile moves from `u` down to `v`.
        let t = s[u];
        assert(t != 0);
        let less_t = |j: int| s[j] != 0 && s[j] < t;
        let greater_t = |j: int| s[j] != 0 && s[j] > t;
        let cl = count_range(u + 1, v, less_t);
        let cg = count_range(u + 1, v, greater_t);
        let x = count_range(v + 1, len, less_t);
        // The tile's cell counted the smaller tiles beyond it ...
        assert(fs(u) == cl + x) by {
            let ps = |j: int| inv_pair(s, u, j);
            lemma_count_range_split(u + 1, v, len, ps);
            lemma_count_range_split(v, v + 1, len, ps);
            assert(count_range(v, v + 1, ps) == count_range(v, v, ps) + (if ps(v) {
                1int
            } else {
                0int
            }));
            assert(!ps(v));
            lemma_count_range_congruence(u + 1, v, ps, less_t);
            lemma_count_range_congruence(v + 1, len, ps, less_t);
        }
        // ... and the blank counts nothing afterwards.
        assert(fb(u) == 0) by {
            let pb = |j: int| inv_pair(b, u, j);
            lemma_count_range_zero(u + 1, len, pb);
        }
        assert(fs(v) == 0) by {
            let ps = |j: int| inv_pair(s, v, j);
            lemma_count_range_zero(v + 1, len, ps);
        }
        assert(fb(v) == x) by {
            let pb = |j: int| inv_pair(b, v, j);
            lemma_count_range_congruence(v + 1, len, pb, less_t);
        }
        // Each cell strictly between gains an inversion with the moved
        // tile exactly when it is the greater.
        assert forall|i: int| u + 1 <= i < v implies #[trigger] fs(i) == fb(i) - (
        if greater_t(i) {
            1int
        } else {
            0int
        }) by {
            let ps = |j: int| inv_pair(s, i, j);
            let pb = |j: int| inv_pair(b, i, j);
            lemma_count_range_one_point(i + 1, len, ps, pb, v);
            assert(s[i] != 0);
            assert(pb(v) == greater_t(i));
            assert(!ps(v));
        }
        lemma_sum_range_minus_indicator(u + 1, v, fb, fs, greater_t);
        assert(cl + cg == v - u - 1) by {
            assert forall|j: int| u + 1 <= j < v implies (#[trigger] less_t(j) <==> !(
            #[trigger] greater_t(j))) by {
                assert(s[j] != s[v]);
                assert(s[j] != s[u]);
            }
            lemma_count_range_complement(u + 1, v, less_t, greater_t);
        }
        assert(inversions_spec(b) + inversions_spec(s) + (v - u - 1) == 2 * (sum_range(0, u, fs)
            + sum_range(u + 1, v, fb) + sum_range(v + 1, len, fs) + x + cl));
    }
}

pub proof fn lemma_inversions_nonneg(s: Seq<u8>)
    ensures
        inversions_spec(s) >= 0,
{
    let f = |i: int| inversions_from(s, i);
    assert forall|i: int| 0 <= i < s.len() implies #[trigger] f(i) >= 0 by {
        lemma_count_range_nonneg(i + 1, s.len() as int, |j: int| inv_pair(s, i, j));
    }
    lemma_sum_range_nonneg(0, s.len() as int, f);
}

/// Law: a single legal move from a solvable configuration always yields a
/// solvable configuration — the solvable class is closed under legal
/// moves.
pub proof fn lemma_step_preserves_solvable(n: int, s: Seq<u8>, b: Seq<u8>)
    requires
        valid_config(n, s),
        step_seq(n, s, b),
        solvable_spec(n, s),
    ensures
        solvable_spec(n, b),
{
    let (p, q) = choose|p: int, q: int|
        #![trigger adjacent(n, p, q)]
        {
            &&& 0 <= p < s.len()
            &&& s[p] == 0
            &&& adjacent(n, p, q)
            &&& b == moved_seq(s, p, q)
        };
    let u = if p < q {
        p
    } else {
        q
    };
    let v = if p < q {
        q
    } else {
        p
    };
    assert(p != q);
    assert(b =~= swap_cells(s, u, v));
    lemma_swap_blank_inversion_parity(s, u, v);
    lemma_moved_valid(n, s, p, q);
    lemma_blank_unique(n, s, p);
    assert(b[q] == 0);
    lemma_blank_unique(n, b, q);
    lemma_inversions_nonneg(s);
    lemma_inversions_nonneg(b);
    lemma_grid_coords(n, p);
    lemma_grid_coords(n, q);
    let inv_s = inversions_spec(s);
    let inv_b = inversions_spec(b);
    if p / n == q / n && (q == p + 1 || q == p - 1) {
        assert(v - u - 1 == 0);
        assert((inv_b + inv_s) % 2 == 0);
        assert(inv_b % 2 == inv_s % 2);
        assert(blank_row_from_bottom(n, b) == blank_row_from_bottom(n, s));
    } else {
        assert(v == u + n);
        assert((inv_b + inv_s + (n - 1)) % 2 == 0);
        if q == p + n {
            assert(q / n == p / n + 1) by {
                assert(q == (p / n + 1) * n + p % n) by (nonlinear_arith)
                    requires
                        p == n * (p / n) + p % n,
                        q == p + n,
                ;
                vstd::arithmetic::div_mod::lemma_fundamental_div_mod_converse_div(
                    q,
                    n,
                    p / n + 1,
                    p % n,
                );
            }
            assert(blank_row_from_bottom(n, b) == blank_row_from_bottom(n, s) - 1);
        } else {
            assert(q == p - n);
            assert(q / n == p / n - 1) by {
                assert(q == (p / n - 1) * n + p % n) by (nonlinear_arith)
                    requires
                        p == n * (p / n) + p % n,
                        q == p - n,
                ;
                vstd::arithmetic::div_mod::lemma_fundamental_div_mod_converse_div(
                    q,
                    n,
                    p / n - 1,
                    p % n,
                );
            }
            assert(blank_row_from_bottom(n, b) == blank_row_from_bottom(n, s) + 1);
        }
        if n % 2 == 1 {
            assert(n == 3);
            assert(inv_b % 2 == inv_s % 2);
        }
    }
}

/// Law: the goal configuration is always solvable.
pub proof fn lemma_goal_solvable(n: int)
    requires
        n == 3 || n == 4,
    ensures
        solvable_spec(n, goal_seq(n)),
{
    let s = goal_seq(n);
    lemma_goal_valid(n);
    assert(n * n == 9 || n * n == 16) by (nonlinear_arith)
        requires
            n == 3 || n == 4,
    ;
    let f = |i: int| inversions_from(s, i);
    assert forall|i: int| 0 <= i < s.len() implies #[trigger] f(i) == 0 by {
        let g = |j: int| inv_pair(s, i, j);
        assert forall|j: int| i + 1 <= j < s.len() implies !(#[trigger] g(j)) by {
            if s[i] != 0 && s[j] != 0 {
                assert(s[i] as int == i + 1);
                assert(s[j] as int == j + 1);
            }
        }
        lemma_count_range_zero(i + 1, s.len() as int, g);
    }
    lemma_sum_range_zero(0, s.len() as int, f);
    assert(inversions_spec(s) == 0);
    assert(s[n * n - 1] == 0);
    lemma_blank_unique(n, s, n * n - 1);
    assert(blank_index(s) == n * n - 1);
    assert((n * n - 1) / n == n - 1) by (nonlinear_arith)
        requires
            n == 3 || n == 4,
    ;
    assert(blank_row_from_bottom(n, s) == 1);
}

} // verus!
