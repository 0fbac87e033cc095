//! The sliding-puzzle configuration model: an N x N grid (N = 3 or 4) holding
//! the tile labels `1 ..= N*N-1` and one blank cell written `0`, stored
//! row-major.  All search and heuristic contracts are phrased over the
//! row-major view `b@` and the side length `b.spec_side()`.

use vstd::prelude::*;
use crate::encode::{key_of, encode_cells};

verus! {

/// Why a configuration was rejected at construction time.
#[derive(Clone, Copy, Debug, PartialEq, Eq, Structural)]
pub enum BoardError {
    /// The side length is not 3 or 4.
    InvalidSide,
    /// The number of cells does not equal side * side.
    WrongTileCount,
    /// Some label is not below side * side.
    TileOutOfRange,
    /// Some label occurs twice.
    DuplicateTile,
    /// No cell holds the blank label 0.
    MissingBlank,
}

/// A sliding-puzzle configuration.
#[derive(Debug)]
pub struct Board {
    n: usize,
    tiles: Vec<u8>,
}

impl View for Board {
    type V = Seq<u8>;

    closed spec fn view(&self) -> Seq<u8> {
        self.tiles@
    }
}

/// A row-major cell sequence is a valid configuration for side length `n`.
pub open spec fn valid_config(n: int, s: Seq<u8>) -> bool {
    &&& (n == 3 || n == 4)
    &&& s.len() == n * n
    &&& (forall|i: int| 0 <= i < s.len() ==> (#[trigger] s[i]) < n * n)
    &&& (forall|i: int, j: int| 0 <= i < j < s.len() ==> s[i] != s[j])
    &&& (exists|p: int| 0 <= p < s.len() && s[p] == 0)
}

/// The canonical solved configuration for side length `n`: ascending labels,
/// blank in the last cell.
pub open spec fn goal_seq(n: int) -> Seq<u8> {
    Seq::new((n * n) as nat, |i: int| if i == n * n - 1 {
        0u8
    } else {
        (i + 1) as u8
    })
}

/// Flat cells `p` and `q` are orthogonal neighbours on an `n x n` grid.
pub open spec fn adjacent(n: int, p: int, q: int) -> bool {
    &&& 0 <= p < n * n
    &&& 0 <= q < n * n
    &&& ((p / n == q / n && (q == p + 1 || q == p - 1)) || q == p + n || q == p - n)
}

/// The configuration after sliding the tile at `q` into the blank at `p`.
pub open spec fn moved_seq(s: Seq<u8>, p: int, q: int) -> Seq<u8> {
    s.update(p, s[q]).update(q, 0u8)
}

/// `b` results from `a` by one legal blank move.
pub open spec fn step_seq(n: int, a: Seq<u8>, b: Seq<u8>) -> bool {
    exists|p: int, q: int|
        #![trigger adjacent(n, p, q)]
        {
            &&& 0 <= p < a.len()
            &&& a[p] == 0
            &&& adjacent(n, p, q)
            &&& b == moved_seq(a, p, q)
        }
}

/// The configurations one legal move away from `s` with the blank at `p`,
/// in the fixed order right, left, down, up.
pub open spec fn neighbor_views(n: int, s: Seq<u8>, p: int) -> Seq<Seq<u8>> {
    (if adjacent(n, p, p + 1) {
        seq![moved_seq(s, p, p + 1)]
    } else {
        Seq::empty()
    }) + (if adjacent(n, p, p - 1) {
        seq![moved_seq(s, p, p - 1)]
    } else {
        Seq::empty()
    }) + (if adjacent(n, p, p + n) {
        seq![moved_seq(s, p, p + n)]
    } else {
        Seq::empty()
    }) + (if adjacent(n, p, p - n) {
        seq![moved_seq(s, p, p - n)]
    } else {
        Seq::empty()
    })
}

impl Board {
    /// The side length (3 or 4) as a mathematical integer.
    pub closed spec fn spec_side(&self) -> int {
        self.n as int
    }

    /// The board invariant: a permutation of `0 .. side*side` on a 3x3 or
    /// 4x4 grid.
    pub open spec fn wf(&self) -> bool {
        valid_config(self.spec_side(), self@)
    }

    pub fn side(&self) -> (r: usize)
        ensures
            r as int == self.spec_side(),
    {
        self.n
    }

    /// Validates a candidate configuration; malformed input is rejected with
    /// the reason.
    pub fn new(n: usize, tiles: Vec<u8>) -> (r: Result<Board, BoardError>)
        ensures
            r is Ok <==> valid_config(n as int, tiles@),
            r matches Ok(b) ==> b.wf() && b.spec_side() == n as int && b@ == tiles@,
            r == Result::<Board, BoardError>::Err(BoardError::InvalidSide) <==> !(n == 3 || n
                == 4),
            r == Result::<Board, BoardError>::Err(BoardError::WrongTileCount) <==> ((n == 3 || n
                == 4) && tiles@.len() != n * n),
            r == Result::<Board, BoardError>::Err(BoardError::TileOutOfRange) ==> exists|i: int|
                0 <= i < tiles@.len() && (#[trigger] tiles@[i]) >= n * n,
            r == Result::<Board, BoardError>::Err(BoardError::DuplicateTile) ==> exists|i: int, j: int|
                0 <= i < j < tiles@.len() && tiles@[i] == tiles@[j],
            r == Result::<Board, BoardError>::Err(BoardError::MissingBlank) ==> forall|i: int|
                0 <= i < tiles@.len() ==> (#[trigger] tiles@[i]) != 0,
    {
        if !(n == 3 || n == 4) {
            return Err(BoardError::InvalidSide);
        }
        let area = n * n;
        if tiles.len() != area {
            return Err(BoardError::WrongTileCount);
        }
        let mut seen: Vec<bool> = Vec::new();
        for v in 0..area
            invariant
                seen@.len() == v,
                forall|k: int| 0 <= k < v ==> !(#[trigger] seen@[k]),
        {
            seen.push(false);
        }
        for i in 0..area
            invariant
                n == 3 || n == 4,
                area == n * n,
                tiles@.len() == area,
                seen@.len() == area,
                forall|v: int|
                    0 <= v < area
                        ==> ((#[trigger] seen@[v]) <==> exists|a: int|
                        #![trigger tiles@[a]]
                        0 <= a < i && tiles@[a] as int == v),
                forall|a: int, b: int| 0 <= a < b < i ==> tiles@[a] != tiles@[b],
                forall|a: int| 0 <= a < i ==> (#[trigger] tiles@[a]) < area,
        {
            let t = tiles[i] as usize;
            if t >= area {
                return Err(BoardError::TileOutOfRange);
            }
            if seen[t] {
                return Err(BoardError::DuplicateTile);
            }
            seen.set(t, true);
            proof {
                assert forall|v: int|
                    0 <= v < area implies ((#[trigger] seen@[v]) <==> exists|a: int|
                    #![trigger tiles@[a]]
                    0 <= a < i + 1 && tiles@[a] as int == v) by {
                    if v == t as int {
                        assert(0 <= i < i + 1 && tiles@[i as int] as int == v);
                    }
                }
            }
        }
        if seen[0] {
            proof {
                assert(seen@[0]);
                let a0 = choose|a: int|
                    #![trigger tiles@[a]]
                    0 <= a < tiles@.len() && tiles@[a] as int == 0;
                assert(tiles@[a0] == 0);
                assert(exists|p: int| 0 <= p < tiles@.len() && tiles@[p] == 0);
            }
            Ok(Board { n, tiles })
        } else {
            Err(BoardError::MissingBlank)
        }
    }

    /// The canonical solved configuration.
    pub fn goal(n: usize) -> (b: Board)
        requires
            n == 3 || n == 4,
        ensures
            b.wf(),
            b.spec_side() == n as int,
            b@ == goal_seq(n as int),
    {
        let area = n * n;
        let mut tiles: Vec<u8> = Vec::new();
        for i in 0..area
            invariant
                n == 3 || n == 4,
                area == n * n,
                tiles@.len() == i,
                forall|k: int| 0 <= k < i ==> tiles@[k] == goal_seq(n as int)[k],
        {
            if i + 1 == area {
                tiles.push(0u8);
            } else {
                tiles.push((i + 1) as u8);
            }
        }
        let b = Board { n, tiles };
        proof {
            assert(b@ =~= goal_seq(n as int));
            lemma_goal_valid(n as int);
        }
        b
    }

    /// The tile in row `r`, column `c`.
    pub fn get(&self, r: usize, c: usize) -> (t: u8)
        requires
            self.wf(),
            r < self.spec_side(),
            c < self.spec_side(),
        ensures
            t == self@[r as int * self.spec_side() + c],
    {
        proof {
            assert((r as int * self.spec_side() + c as int) < (self.spec_side()
                * self.spec_side())) by (nonlinear_arith)
                requires
                    0 <= (r as int) < self.spec_side(),
                    0 <= (c as int) < self.spec_side(),
            ;
            assert((self.spec_side() * self.spec_side()) <= 16) by (nonlinear_arith)
                requires
                    self.spec_side() == 3 || self.spec_side() == 4,
            ;
        }
        self.tiles[r * self.n + c]
    }

    /// The tile at flat cell `idx`.
    pub fn tile(&self, idx: usize) -> (t: u8)
        requires
            idx < self@.len(),
        ensures
            t == self@[idx as int],
    {
        self.tiles[idx]
    }

    /// Same side length and the same cells.
    pub fn same_as(&self, other: &Board) -> (r: bool)
        ensures
            r <==> (self.spec_side() == other.spec_side() && self@ == other@),
    {
        if self.n != other.n {
            return false;
        }
        if self.tiles.len() != other.tiles.len() {
            return false;
        }
        for i in 0..self.tiles.len()
            invariant
                self@.len() == other@.len(),
                forall|k: int| 0 <= k < i ==> self@[k] == other@[k],
        {
            if self.tiles[i] != other.tiles[i] {
                return false;
            }
        }
        proof {
            assert(self@ =~= other@);
        }
        true
    }

    /// The flat index of the blank cell.
    pub fn blank_pos(&self) -> (p: usize)
        requires
            self.wf(),
        ensures
            p < self@.len(),
            self@[p as int] == 0,
    {
        for i in 0..self.tiles.len()
            invariant
                forall|k: int| 0 <= k < i ==> self@[k] != 0,
                self.wf(),
        {
            if self.tiles[i] == 0 {
                return i;
            }
        }
        proof {
            assert(false);
        }
        0
    }

    /// `self@ == goal_seq(side)`.
    pub fn is_goal(&self) -> (r: bool)
        requires
            self.wf(),
        ensures
            r <==> self@ == goal_seq(self.spec_side()),
    {
        let area = self.n * self.n;
        for i in 0..area
            invariant
                self.wf(),
                area == self.spec_side() * self.spec_side(),
                forall|k: int| 0 <= k < i ==> self@[k] == goal_seq(self.spec_side())[k],
        {
            let expect: u8 = if i + 1 == area {
                0u8
            } else {
                (i + 1) as u8
            };
            if self.tiles[i] != expect {
                proof {
                    assert(self@[i as int] != goal_seq(self.spec_side())[i as int]);
                }
                return false;
            }
        }
        proof {
            assert(self@ =~= goal_seq(self.spec_side()));
        }
        true
    }

    /// Packs the configuration into a `u64` key for visited sets.
    pub fn encode_key(&self) -> (k: u64)
        requires
            self.wf(),
        ensures
            k as int == key_of(self@),
    {
        proof {
            assert((self.spec_side() * self.spec_side()) <= 16) by (nonlinear_arith)
                requires
                    self.spec_side() == 3 || self.spec_side() == 4,
            ;
        }
        encode_cells(&self.tiles)
    }

    /// Slides the tile at `q` into the blank at `p`.
    pub fn apply_move(&self, p: usize, q: usize) -> (b: Board)
        requires
            self.wf(),
            p < self@.len(),
            self@[p as int] == 0,
            adjacent(self.spec_side(), p as int, q as int),
        ensures
            b.wf(),
            b.spec_side() == self.spec_side(),
            b@ == moved_seq(self@, p as int, q as int),
            step_seq(self.spec_side(), self@, b@),
            step_seq(self.spec_side(), b@, self@),
    {
        let mut tiles = self.tiles.clone();
        let tq = tiles[q];
        tiles.set(p, tq);
        tiles.set(q, 0u8);
        let b = Board { n: self.n, tiles };
        proof {
            let n = self.spec_side();
            let pi = p as int;
            let qi = q as int;
            assert(b@ =~= moved_seq(self@, pi, qi));
            lemma_moved_valid(n, self@, pi, qi);
            lemma_step_roundtrip(n, self@, pi, qi);
        }
        b
    }

    /// All configurations one legal blank move away: exactly the legal
    /// moves, in the fixed order right, left, down, up.
    #[verifier::rlimit(100)]
    pub fn neighbor_boards(&self) -> (r: Vec<Board>)
        requires
            self.wf(),
        ensures
            2 <= r@.len() <= 4,
            forall|p0: int|
                0 <= p0 < self@.len() && self@[p0] == 0 ==> r@.map_values(|b: Board| b@)
                    == neighbor_views(self.spec_side(), self@, p0),
            forall|k: int|
                0 <= k < r@.len() ==> {
                    &&& (#[trigger] r@[k]).wf()
                    &&& r@[k].spec_side() == self.spec_side()
                    &&& step_seq(self.spec_side(), self@, r@[k]@)
                    &&& step_seq(self.spec_side(), r@[k]@, self@)
                },
            forall|p0: int, q: int|
                (0 <= p0 < self@.len() && self@[p0] == 0 && #[trigger] adjacent(
                    self.spec_side(),
                    p0,
                    q,
                )) ==> exists|k: int|
                    0 <= k < r@.len() && (#[trigger] r@[k])@ == moved_seq(self@, p0, q),
    {
        let n = self.n;
        let p = self.blank_pos();
        let x = p / n;
        let y = p % n;
        let mut r: Vec<Board> = Vec::new();
        let ghost side = self.spec_side();
        proof {
            assert(self@.len() <= 16) by (nonlinear_arith)
                requires
                    side == 3 || side == 4,
                    self@.len() == side * side,
            ;
            lemma_adjacent_horiz(side, p as int);
            lemma_adjacent_vert(side, p as int);
        }
        let ghost mut idx_right: int = -1;
        let ghost mut idx_left: int = -1;
        let ghost mut idx_down: int = -1;
        let ghost mut idx_up: int = -1;
        if y + 1 < n {
            proof {
                idx_right = r@.len() as int;
            }
            r.push(self.apply_move(p, p + 1));
        }
        if y >= 1 {
            proof {
                idx_left = r@.len() as int;
            }
            r.push(self.apply_move(p, p - 1));
        }
        assert(r@.len() >= 1);
        if x + 1 < n {
            proof {
                idx_down = r@.len() as int;
            }
            r.push(self.apply_move(p, p + n));
        }
        if x >= 1 {
            proof {
                idx_up = r@.len() as int;
            }
            r.push(self.apply_move(p, p - n));
        }
        assert(r@.len() >= 2);
        proof {
            assert(r@.map_values(|b: Board| b@) =~= neighbor_views(side, self@, p as int));
            assert forall|p0: int|
                0 <= p0 < self@.len() && self@[p0] == 0 implies r@.map_values(|b: Board| b@)
                == neighbor_views(self.spec_side(), self@, p0) by {
                assert(p0 == p as int);
            }
            assert forall|p0: int, q: int|
                (0 <= p0 < self@.len() && self@[p0] == 0 && #[trigger] adjacent(
                    side,
                    p0,
                    q,
                )) implies exists|k: int|
                0 <= k < r@.len() && (#[trigger] r@[k])@ == moved_seq(self@, p0, q) by {
                assert(p0 == p as int);
                if q == p as int + 1 {
                    assert(0 <= idx_right < r@.len() && r@[idx_right]@ == moved_seq(
                        self@,
                        p0,
                        q,
                    ));
                } else if q == p as int - 1 {
                    assert(0 <= idx_left < r@.len() && r@[idx_left]@ == moved_seq(self@, p0, q));
                } else if q == p as int + side {
                    assert(0 <= idx_down < r@.len() && r@[idx_down]@ == moved_seq(self@, p0, q));
                } else {
                    assert(q == p as int - side);
                    assert(0 <= idx_up < r@.len() && r@[idx_up]@ == moved_seq(self@, p0, q));
                }
            }
        }
        r
    }
}

impl Clone for Board {
    fn clone(&self) -> (b: Self)
        ensures
            b@ == self@,
            b.spec_side() == self.spec_side(),
    {
        Board { n: self.n, tiles: self.tiles.clone() }
    }
}

/// The canonical solved configuration is a valid configuration.
pub proof fn lemma_goal_valid(n: int)
    requires
        n == 3 || n == 4,
    ensures
        valid_config(n, goal_seq(n)),
{
    let s = goal_seq(n);
    assert(n * n == 9 || n * n == 16) by (nonlinear_arith)
        requires
            n == 3 || n == 4,
    ;
    assert forall|i: int| 0 <= i < s.len() implies (#[trigger] s[i]) < n * n by {
        if i != n * n - 1 {
            assert(s[i] == (i + 1) as u8);
        }
    }
    assert forall|i: int, j: int| 0 <= i < j < s.len() implies s[i] != s[j] by {
        if j != n * n - 1 {
            assert(s[i] as int == i + 1 && s[j] as int == j + 1);
        } else {
            assert(s[i] as int == i + 1 && s[j] == 0);
        }
    }
    assert(s[n * n - 1] == 0);
    assert(exists|p: int| 0 <= p < s.len() && s[p] == 0);
}

/// Decomposes a flat cell index into its row `p / n` and column `p % n`.
pub proof fn lemma_grid_coords(n: int, p: int)
    requires
        n >= 1,
        0 <= p < n * n,
    ensures
        p == n * (p / n) + p % n,
        0 <= p % n < n,
        0 <= p / n < n,
{
    vstd::arithmetic::div_mod::lemma_fundamental_div_mod(p, n);
    vstd::arithmetic::div_mod::lemma_mod_pos_bound(p, n);
    assert(0 <= p / n < n) by (nonlinear_arith)
        requires
            n >= 1,
            0 <= p < n * n,
            p == n * (p / n) + p % n,
            0 <= p % n < n,
    ;
}

/// A cell's horizontal neighbours are legal exactly when it is not on the
/// matching grid edge.
pub proof fn lemma_adjacent_horiz(n: int, p: int)
    requires
        n >= 2,
        0 <= p < n * n,
    ensures
        p % n + 1 < n <==> adjacent(n, p, p + 1),
        p % n >= 1 <==> adjacent(n, p, p - 1),
{
    lemma_grid_coords(n, p);
    let d = p / n;
    let r = p % n;
    if r + 1 == n {
        assert((p + 1) == (d + 1) * n + 0) by (nonlinear_arith)
            requires
                p == n * d + r,
                r + 1 == n,
        ;
        vstd::arithmetic::div_mod::lemma_fundamental_div_mod_converse(p + 1, n, d + 1, 0);
        assert(!adjacent(n, p, p + 1));
    }
    if r == 0 && p >= 1 {
        assert((p - 1) == (d - 1) * n + (n - 1)) by (nonlinear_arith)
            requires
                p == n * d + r,
                r == 0,
        ;
        vstd::arithmetic::div_mod::lemma_fundamental_div_mod_converse(p - 1, n, d - 1, n - 1);
        assert(!adjacent(n, p, p - 1));
    }
    if r + 1 < n {
        assert((p + 1) == d * n + (r + 1)) by (nonlinear_arith)
            requires
                p == n * d + r,
        ;
        vstd::arithmetic::div_mod::lemma_fundamental_div_mod_converse(p + 1, n, d, r + 1);
        assert(p + 1 < n * n) by (nonlinear_arith)
            requires
                p + 1 == n * d + (r + 1),
                d <= n - 1,
                r + 1 <= n - 1,
                n >= 1,
        ;
    }
    if r >= 1 {
        assert((p - 1) == d * n + (r - 1)) by (nonlinear_arith)
            requires
                p == n * d + r,
        ;
        vstd::arithmetic::div_mod::lemma_fundamental_div_mod_converse(p - 1, n, d, r - 1);
    }
}

/// A cell's vertical neighbours are legal exactly when it is not on the
/// matching grid edge.
pub proof fn lemma_adjacent_vert(n: int, p: int)
    requires
        n >= 2,
        0 <= p < n * n,
    ensures
        p / n + 1 < n <==> adjacent(n, p, p + n),
        p / n >= 1 <==> adjacent(n, p, p - n),
{
    lemma_grid_coords(n, p);
    let d = p / n;
    let r = p % n;
    if d + 1 == n {
        assert(p + n >= n * n) by (nonlinear_arith)
            requires
                p == n * d + r,
                d + 1 == n,
                r >= 0,
        ;
        assert(!adjacent(n, p, p + n));
    }
    if d == 0 {
        assert(p - n < 0) by (nonlinear_arith)
            requires
                p == n * d + r,
                d == 0,
                r < n,
        ;
        assert(!adjacent(n, p, p - n));
    }
    if d + 1 < n {
        assert(p + n < n * n) by (nonlinear_arith)
            requires
                p == n * d + r,
                d + 1 <= n - 1,
                0 <= r < n,
                n >= 1,
        ;
    }
    if d >= 1 {
        assert(p - n >= 0) by (nonlinear_arith)
            requires
                p == n * d + r,
                d >= 1,
                0 <= r < n,
                n >= 1,
        ;
    }
}

/// A legal move keeps the configuration valid.
pub proof fn lemma_moved_valid(n: int, s: Seq<u8>, p: int, q: int)
    requires
        valid_config(n, s),
        s[p] == 0,
        adjacent(n, p, q),
    ensures
        valid_config(n, moved_seq(s, p, q)),
{
    let b = moved_seq(s, p, q);
    assert(p != q);
    assert(s[p] != s[q]);
    assert forall|i: int, j: int| 0 <= i < j < b.len() implies b[i] != b[j] by {
        assert(s[i] != s[j]);
    }
    assert(b[q] == 0);
}

/// Law: a legal blank move is invertible.  The inverse move is itself legal,
/// and applying the move and then its inverse returns the original
/// configuration.
pub proof fn lemma_step_roundtrip(n: int, s: Seq<u8>, p: int, q: int)
    requires
        s.len() == n * n,
        n >= 2,
        0 <= p < n * n,
        s[p] == 0,
        adjacent(n, p, q),
    ensures
        step_seq(n, s, moved_seq(s, p, q)),
        moved_seq(s, p, q)[q] == 0,
        adjacent(n, q, p),
        moved_seq(moved_seq(s, p, q), q, p) == s,
        step_seq(n, moved_seq(s, p, q), s),
{
    let b = moved_seq(s, p, q);
    assert(p != q);
    assert(b[q] == 0);
    assert(adjacent(n, q, p)) by {
        if p / n == q / n && (q == p + 1 || q == p - 1) {
        } else if q == p + n {
            assert(p == q - n);
        } else {
            assert(p == q + n);
        }
    }
    assert(moved_seq(b, q, p) =~= s);
}

} // verus!
