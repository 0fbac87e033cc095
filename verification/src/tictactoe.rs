//! A 5x5 generalized tic-tac-toe: four marks in a row win, three in a row
//! lose, decided by minimax with alpha-beta pruning.

use vstd::prelude::*;
use crate::counting::{count_range, lemma_count_range_nonneg, lemma_count_range_le};
use crate::rng::{fresh_rng, rand_index};

verus! {

/// The mark of the other player.
pub open spec fn other_spec(p: u8) -> u8 {
    if p == 1 {
        2u8
    } else {
        1u8
    }
}

/// The mark of the other player.
pub fn other(p: u8) -> (r: u8)
    ensures
        r == other_spec(p),
{
    if p == 1 {
        2
    } else {
        1
    }
}

/// The mark in row `r`, column `c` of a 5x5 board held row-major.
pub open spec fn cell(s: Seq<u8>, r: int, c: int) -> u8 {
    s[5 * r + c]
}

/// Player `p` has four in a row starting at `(r, c)`: to the right, down,
/// down-right, or down-left.
pub open spec fn win_at(s: Seq<u8>, p: u8, r: int, c: int) -> bool {
    ||| (0 <= r < 5 && 0 <= c <= 1 && cell(s, r, c) == p && cell(s, r, c + 1) == p && cell(
        s,
        r,
        c + 2,
    ) == p && cell(s, r, c + 3) == p)
    ||| (0 <= r <= 1 && 0 <= c < 5 && cell(s, r, c) == p && cell(s, r + 1, c) == p && cell(
        s,
        r + 2,
        c,
    ) == p && cell(s, r + 3, c) == p)
    ||| (0 <= r <= 1 && 0 <= c <= 1 && cell(s, r, c) == p && cell(s, r + 1, c + 1) == p && cell(
        s,
        r + 2,
        c + 2,
    ) == p && cell(s, r + 3, c + 3) == p)
    ||| (0 <= r <= 1 && 3 <= c < 5 && cell(s, r, c) == p && cell(s, r + 1, c - 1) == p && cell(
        s,
        r + 2,
        c - 2,
    ) == p && cell(s, r + 3, c - 3) == p)
}

/// Player `p` holds a winning line somewhere on the board.
pub open spec fn wins4(s: Seq<u8>, p: u8) -> bool {
    exists|r: int, c: int| #[trigger] win_at(s, p, r, c)
}

/// Player `p` has three in a row starting at `(r, c)`.
pub open spec fn lose_at(s: Seq<u8>, p: u8, r: int, c: int) -> bool {
    ||| (0 <= r < 5 && 0 <= c <= 2 && cell(s, r, c) == p && cell(s, r, c + 1) == p && cell(
        s,
        r,
        c + 2,
    ) == p)
    ||| (0 <= r <= 2 && 0 <= c < 5 && cell(s, r, c) == p && cell(s, r + 1, c) == p && cell(
        s,
        r + 2,
        c,
    ) == p)
    ||| (0 <= r <= 2 && 0 <= c <= 2 && cell(s, r, c) == p && cell(s, r + 1, c + 1) == p && cell(
        s,
        r + 2,
        c + 2,
    ) == p)
    ||| (0 <= r <= 2 && 2 <= c < 5 && cell(s, r, c) == p && cell(s, r + 1, c - 1) == p && cell(
        s,
        r + 2,
        c - 2,
    ) == p)
}

/// Player `p` holds a losing line somewhere on the board.
pub open spec fn loses3(s: Seq<u8>, p: u8) -> bool {
    exists|r: int, c: int| #[trigger] lose_at(s, p, r, c)
}

/// The leaf evaluation, from the point of view of the player who moved
/// last: 100 when that player has won or the opponent has lost, -100 in
/// the mirror case, otherwise 0.
pub open spec fn evaluate_spec(s: Seq<u8>, turn: u8) -> int {
    let p = other_spec(turn);
    if wins4(s, p) || loses3(s, other_spec(p)) {
        100
    } else if wins4(s, other_spec(p)) || loses3(s, p) {
        -100
    } else {
        0
    }
}

/// The boards after marking each empty cell among the first `m` cells, in
/// row-major order.
pub open spec fn succ_views_upto(s: Seq<u8>, turn: u8, m: int) -> Seq<Seq<u8>>
    decreases m,
{
    if m <= 0 {
        Seq::empty()
    } else {
        succ_views_upto(s, turn, m - 1) + (if s[m - 1] == 0 {
            seq![s.update(m - 1, turn)]
        } else {
            Seq::empty()
        })
    }
}

/// A position of the game: the 25 cells row-major (0 empty, 1 and 2 the
/// players' marks) and whose turn it is.
pub struct GameState {
    board: Vec<u8>,
    turn: u8,
}

impl View for GameState {
    type V = Seq<u8>;

    closed spec fn view(&self) -> Seq<u8> {
        self.board@
    }
}

impl GameState {
    pub closed spec fn spec_turn(&self) -> u8 {
        self.turn
    }

    pub open spec fn wf(&self) -> bool {
        &&& self@.len() == 25
        &&& (forall|i: int| 0 <= i < 25 ==> (#[trigger] self@[i]) <= 2)
        &&& (self.spec_turn() == 1 || self.spec_turn() == 2)
    }

    /// An empty board; player 1 moves first.
    pub fn new() -> (g: GameState)
        ensures
            g.wf(),
            g.spec_turn() == 1,
            forall|i: int| 0 <= i < 25 ==> (#[trigger] g@[i]) == 0,
    {
        let mut board: Vec<u8> = Vec::new();
        for i in 0..25usize
            invariant
                board@.len() == i,
                forall|k: int| 0 <= k < i ==> (#[trigger] board@[k]) == 0,
        {
            board.push(0);
        }
        GameState { board, turn: 1 }
    }

    /// The mark in row `r`, column `c`.
    pub fn get(&self, r: usize, c: usize) -> (t: u8)
        requires
            self.wf(),
            r < 5,
            c < 5,
        ensures
            t == cell(self@, r as int, c as int),
    {
        self.board[5 * r + c]
    }

    /// Whose turn it is.
    pub fn turn(&self) -> (t: u8)
        ensures
            t == self.spec_turn(),
    {
        self.turn
    }

    /// Places the mover's mark on the destination cell and passes the turn.
    pub fn make_move(&mut self, destination: (usize, usize))
        requires
            old(self).wf(),
            destination.0 < 5,
            destination.1 < 5,
        ensures
            final(self).wf(),
            final(self)@ == old(self)@.update(
                5 * destination.0 as int + destination.1 as int,
                old(self).spec_turn(),
            ),
            final(self).spec_turn() == other_spec(old(self).spec_turn()),
    {
        let idx = 5 * destination.0 + destination.1;
        let t = self.turn;
        self.board.set(idx, t);
        if self.turn == 1 {
            self.turn = 2;
        } else {
            self.turn = 1;
        }
    }

    /// Whether `player` holds four in a row.
    pub fn check_win(&self, player: u8) -> (r: bool)
        requires
            self.wf(),
        ensures
            r == wins4(self@, player),
    {
        let ghost s = self@;
        for k in 0..25usize
            invariant
                self.wf(),
                s == self@,
                forall|r2: int, c2: int|
                    0 <= r2 && 0 <= c2 < 5 && 5 * r2 + c2 < k ==> !(#[trigger] win_at(
                        s,
                        player,
                        r2,
                        c2,
                    )),
        {
            let r = k / 5;
            let c = k % 5;
            let mut hit = false;
            if c <= 1 && self.get(r, c) == player && self.get(r, c + 1) == player && self.get(
                r,
                c + 2,
            ) == player && self.get(r, c + 3) == player {
                hit = true;
            }
            if !hit && r <= 1 && self.get(r, c) == player && self.get(r + 1, c) == player
                && self.get(r + 2, c) == player && self.get(r + 3, c) == player {
                hit = true;
            }
            if !hit && r <= 1 && c <= 1 && self.get(r, c) == player && self.get(r + 1, c + 1)
                == player && self.get(r + 2, c + 2) == player && self.get(r + 3, c + 3) == player {
                hit = true;
            }
            if !hit && r <= 1 && c >= 3 && self.get(r, c) == player && self.get(r + 1, c - 1)
                == player && self.get(r + 2, c - 2) == player && self.get(r + 3, c - 3) == player {
                hit = true;
            }
            proof {
                vstd::arithmetic::div_mod::lemma_fundamental_div_mod(k as int, 5);
                assert(hit == win_at(s, player, k as int / 5, k as int % 5));
            }
            if hit {
                return true;
            }
            proof {
                assert forall|r2: int, c2: int|
                    0 <= r2 && 0 <= c2 < 5 && 5 * r2 + c2 < k + 1 implies !(#[trigger] win_at(
                    s,
                    player,
                    r2,
                    c2,
                )) by {
                    if 5 * r2 + c2 == k as int {
                        vstd::arithmetic::div_mod::lemma_fundamental_div_mod_converse(
                            5 * r2 + c2,
                            5,
                            r2,
                            c2,
                        );
                        assert(r2 == k as int / 5 && c2 == k as int % 5);
                    }
                }
            }
        }
        proof {
            if wins4(s, player) {
                let (r, c) = choose|r: int, c: int| #[trigger] win_at(s, player, r, c);
                assert(0 <= r < 5 && 0 <= c < 5);
                assert(5 * r + c < 25);
                assert(false);
            }
        }
        false
    }

    /// Whether `player` holds three in a row.
    pub fn check_loose(&self, player: u8) -> (r: bool)
        requires
            self.wf(),
        ensures
            r == loses3(self@, player),
    {
        let ghost s = self@;
        for k in 0..25usize
            invariant
                self.wf(),
                s == self@,
                forall|r2: int, c2: int|
                    0 <= r2 && 0 <= c2 < 5 && 5 * r2 + c2 < k ==> !(#[trigger] lose_at(
                        s,
                        player,
                        r2,
                        c2,
                    )),
        {
            let r = k / 5;
            let c = k % 5;
            let mut hit = false;
            if c <= 2 && self.get(r, c) == player && self.get(r, c + 1) == player && self.get(
                r,
                c + 2,
            ) == player {
                hit = true;
            }
            if !hit && r <= 2 && self.get(r, c) == player && self.get(r + 1, c) == player
                && self.get(r + 2, c) == player {
                hit = true;
            }
            if !hit && r <= 2 && c <= 2 && self.get(r, c) == player && self.get(r + 1, c + 1)
                == player && self.get(r + 2, c + 2) == player {
                hit = true;
            }
            if !hit && r <= 2 && c >= 2 && self.get(r, c) == player && self.get(r + 1, c - 1)
                == player && self.get(r + 2, c - 2) == player {
                hit = true;
            }
            proof {
                vstd::arithmetic::div_mod::lemma_fundamental_div_mod(k as int, 5);
                assert(hit == lose_at(s, player, k as int / 5, k as int % 5));
            }
            if hit {
                return true;
            }
            proof {
                assert forall|r2: int, c2: int|
                    0 <= r2 && 0 <= c2 < 5 && 5 * r2 + c2 < k + 1 implies !(#[trigger] lose_at(
                    s,
                    player,
                    r2,
                    c2,
                )) by {
                    if 5 * r2 + c2 == k as int {
                        vstd::arithmetic::div_mod::lemma_fundamental_div_mod_converse(
                            5 * r2 + c2,
                            5,
                            r2,
                            c2,
                        );
                        assert(r2 == k as int / 5 && c2 == k as int % 5);
                    }
                }
            }
        }
        proof {
            if loses3(s, player) {
                let (r, c) = choose|r: int, c: int| #[trigger] lose_at(s, player, r, c);
                assert(0 <= r < 5 && 0 <= c < 5);
                assert(5 * r + c < 25);
                assert(false);
            }
        }
        false
    }

    /// The positions after each legal mark of the mover: exactly one for
    /// every empty cell, in row-major order.
    pub fn succesors(&self) -> (r: Vec<GameState>)
        requires
            self.wf(),
        ensures
            r@.len() == count_range(0, 25, |q: int| self@[q] == 0),
            r@.map_values(|g: GameState| g@) == succ_views_upto(self@, self.spec_turn(), 25),
            forall|k: int|
                0 <= k < r@.len() ==> {
                    &&& (#[trigger] r@[k]).wf()
                    &&& r@[k].spec_turn() == other_spec(self.spec_turn())
                    &&& exists|q: int|
                        0 <= q < 25 && self@[q] == 0 && r@[k]@ == self@.update(
                            q,
                            self.spec_turn(),
                        )
                },
    {
        let ghost s = self@;
        let ghost empty_pred = |q: int| s[q] == 0;
        let mut r: Vec<GameState> = Vec::new();
        for k in 0..25usize
            invariant
                self.wf(),
                s == self@,
                empty_pred == (|q: int| s[q] == 0),
                r@.len() == count_range(0, k as int, empty_pred),
                r@.map_values(|g: GameState| g@) == succ_views_upto(s, self.spec_turn(), k as int),
                forall|m: int|
                    0 <= m < r@.len() ==> {
                        &&& (#[trigger] r@[m]).wf()
                        &&& r@[m].spec_turn() == other_spec(self.spec_turn())
                        &&& exists|q: int|
                            0 <= q < 25 && s[q] == 0 && r@[m]@ == s.update(q, self.spec_turn())
                    },
        {
            proof {
                lemma_count_range_nonneg(0, k as int, empty_pred);
                lemma_count_range_le(0, k as int, empty_pred);
            }
            if self.board[k] == 0 {
                let mut board2 = self.board.clone();
                board2.set(k, self.turn);
                let succ = GameState { board: board2, turn: other(self.turn) };
                proof {
                    assert(succ@ == s.update(k as int, self.spec_turn()));
                    assert(0 <= (k as int) < 25 && s[k as int] == 0 && succ@ == s.update(
                        k as int,
                        self.spec_turn(),
                    ));
                }
                r.push(succ);
                proof {
                    assert(r@.map_values(|g: GameState| g@) =~= succ_views_upto(
                        s,
                        self.spec_turn(),
                        k as int + 1,
                    ));
                }
            } else {
                proof {
                    assert(r@.map_values(|g: GameState| g@) =~= succ_views_upto(
                        s,
                        self.spec_turn(),
                        k as int + 1,
                    ));
                }
            }
        }
        r
    }

    /// Whether the position ends the game: someone has won or lost.
    pub fn is_terminal(&self) -> (r: bool)
        requires
            self.wf(),
        ensures
            r == (wins4(self@, 1) || loses3(self@, 1) || wins4(self@, 2) || loses3(self@, 2)),
    {
        if self.check_win(1) || self.check_loose(1) || self.check_win(2) || self.check_loose(2) {
            return true;
        }
        false
    }

    /// Evaluates the position on a scale from -100 (a loss) to 100 (a
    /// win), from the point of view of the player who moved last.
    pub fn evaluate(&self) -> (r: i32)
        requires
            self.wf(),
        ensures
            r as int == evaluate_spec(self@, self.spec_turn()),
            -100 <= r <= 100,
    {
        let p = other(self.turn);
        if self.check_win(p) || self.check_loose(other(p)) {
            return 100;
        }
        if self.check_win(other(p)) || self.check_loose(p) {
            return -100;
        }
        0
    }
}

impl Clone for GameState {
    fn clone(&self) -> (g: Self)
        ensures
            g@ == self@,
            g.spec_turn() == self.spec_turn(),
    {
        GameState { board: self.board.clone(), turn: self.turn }
    }
}

/// Minimax with alpha-beta pruning.  The result is a leaf evaluation in
/// [-100, 100], except that a cut-off branch with no admissible child
/// keeps the extreme sentinel.
pub fn minimax(state: &GameState, depth: u8, maximize: bool, alpha: i32, beta: i32) -> (r: i32)
    requires
        state.wf(),
    ensures
        (-100 <= r <= 100) || r == i32::MIN || r == i32::MAX,
        (depth == 0 || wins4(state@, 1) || loses3(state@, 1) || wins4(state@, 2) || loses3(
            state@,
            2,
        )) ==> r as int == evaluate_spec(state@, state.spec_turn()),
    decreases depth,
{
    if depth == 0 || state.is_terminal() {
        return state.evaluate();
    }
    let succs = state.succesors();
    let count = succs.len();
    if maximize {
        let mut val: i32 = i32::MIN;
        let mut a = alpha;
        let mut i: usize = 0;
        let mut pruned = false;
        while i < count && !pruned
            invariant
                state.wf(),
                count == succs@.len(),
                i <= count,
                (-100 <= val <= 100) || val == i32::MIN || val == i32::MAX,
                forall|m: int| 0 <= m < succs@.len() ==> (#[trigger] succs@[m]).wf(),
                depth >= 1,
            decreases count - i,
        {
            let m = minimax(&succs[i], depth - 1, false, a, beta);
            if m > val {
                val = m;
            }
            if val > a {
                a = val;
            }
            if val > beta {
                pruned = true;
            }
            i = i + 1;
        }
        val
    } else {
        let mut val: i32 = i32::MAX;
        let mut bt = beta;
        let mut i: usize = 0;
        let mut pruned = false;
        while i < count && !pruned
            invariant
                state.wf(),
                count == succs@.len(),
                i <= count,
                (-100 <= val <= 100) || val == i32::MIN || val == i32::MAX,
                forall|m: int| 0 <= m < succs@.len() ==> (#[trigger] succs@[m]).wf(),
                depth >= 1,
            decreases count - i,
        {
            let m = minimax(&succs[i], depth - 1, true, alpha, bt);
            if m < val {
                val = m;
            }
            if val < bt {
                bt = val;
            }
            if val < alpha {
                pruned = true;
            }
            i = i + 1;
        }
        val
    }
}

/// Picks the move that minimax rates best, breaking ties at random among
/// the best-rated moves.  When the board has an empty cell, the returned
/// cell is empty; moves that lose outright are only taken when nothing
/// else is left.
pub fn move_with_minimax(state: &GameState, depth: u8) -> (mv: (usize, usize))
    requires
        state.wf(),
    ensures
        mv.0 < 5,
        mv.1 < 5,
        (exists|q: int| 0 <= q < 25 && state@[q] == 0) ==> state@[5 * mv.0 as int + mv.1 as int]
            == 0,
        (exists|q: int|
            0 <= q < 25 && state@[q] == 0 && !loses3(
                state@.update(q, state.spec_turn()),
                state.spec_turn(),
            )) ==> !loses3(
            state@.update(5 * mv.0 as int + mv.1 as int, state.spec_turn()),
            state.spec_turn(),
        ),
{
    let ghost s = state@;
    let mut options: Vec<(i32, (usize, usize))> = Vec::new();
    let mut mv: (usize, usize) = (0, 0);
    for k in 0..25usize
        invariant
            state.wf(),
            s == state@,
            mv.0 < 5,
            mv.1 < 5,
            (exists|q: int| 0 <= q < k as int && s[q] == 0) ==> s[5 * mv.0 as int + mv.1 as int]
                == 0,
            forall|m: int|
                0 <= m < options@.len() ==> {
                    let cellmv = (#[trigger] options@[m]).1;
                    &&& cellmv.0 < 5 && cellmv.1 < 5
                    &&& s[5 * cellmv.0 as int + cellmv.1 as int] == 0
                    &&& !loses3(
                        s.update(5 * cellmv.0 as int + cellmv.1 as int, state.spec_turn()),
                        state.spec_turn(),
                    )
                },
            options@.len() == 0 ==> forall|q: int|
                0 <= q < k as int && (#[trigger] s[q]) == 0 ==> loses3(
                    s.update(q, state.spec_turn()),
                    state.spec_turn(),
                ),
    {
        let i = k / 5;
        let j = k % 5;
        proof {
            vstd::arithmetic::div_mod::lemma_fundamental_div_mod(k as int, 5);
        }
        if state.get(i, j) == 0 {
            mv = (i, j);
            let mut tmp = state.clone();
            tmp.make_move((i, j));
            proof {
                assert(tmp@ == s.update(k as int, state.spec_turn()));
            }
            if !tmp.check_loose(state.turn()) {
                let score = minimax(&tmp, depth, true, i32::MIN, i32::MAX);
                options.push((score, (i, j)));
            }
        }
        proof {
            assert forall|q: int| 0 <= q < k as int + 1 && (#[trigger] s[q]) == 0 implies s[5
                * mv.0 as int + mv.1 as int] == 0 by {
                if q == k as int {
                    assert(s[5 * (k as int / 5) + k as int % 5] == s[q]);
                }
            }
            if options@.len() == 0 {
                assert forall|q: int|
                    0 <= q < k as int + 1 && (#[trigger] s[q]) == 0 implies loses3(
                    s.update(q, state.spec_turn()),
                    state.spec_turn(),
                ) by {
                    if q == k as int {
                        assert(s[5 * (k as int / 5) + k as int % 5] == s[q]);
                    }
                }
            }
        }
    }
    if options.len() == 0 {
        proof {
            if exists|q: int| 0 <= q < 25 && s[q] == 0 {
                let q = choose|q: int| 0 <= q < 25 && s[q] == 0;
                assert(0 <= q < 25 as int && s[q] == 0);
            }
            if exists|q: int|
                0 <= q < 25 && s[q] == 0 && !loses3(
                    s.update(q, state.spec_turn()),
                    state.spec_turn(),
                ) {
                let q = choose|q: int|
                    0 <= q < 25 && s[q] == 0 && !loses3(
                        s.update(q, state.spec_turn()),
                        state.spec_turn(),
                    );
                assert(loses3(s.update(q, state.spec_turn()), state.spec_turn()));
                assert(false);
            }
        }
        return mv;
    }
    let mut best: i32 = options[0].0;
    for m in 1..options.len()
        invariant
            options@.len() > 0,
    {
        if options[m].0 > best {
            best = options[m].0;
        }
    }
    let mut choices: Vec<(usize, usize)> = Vec::new();
    for m in 0..options.len()
        invariant
            s == state@,
            forall|m2: int|
                0 <= m2 < options@.len() ==> {
                    let cellmv = (#[trigger] options@[m2]).1;
                    &&& cellmv.0 < 5 && cellmv.1 < 5
                    &&& s[5 * cellmv.0 as int + cellmv.1 as int] == 0
                    &&& !loses3(
                        s.update(5 * cellmv.0 as int + cellmv.1 as int, state.spec_turn()),
                        state.spec_turn(),
                    )
                },
            forall|m2: int|
                0 <= m2 < choices@.len() ==> {
                    let cellmv = #[trigger] choices@[m2];
                    &&& cellmv.0 < 5 && cellmv.1 < 5
                    &&& s[5 * cellmv.0 as int + cellmv.1 as int] == 0
                    &&& !loses3(
                        s.update(5 * cellmv.0 as int + cellmv.1 as int, state.spec_turn()),
                        state.spec_turn(),
                    )
                },
    {
        if options[m].0 == best {
            choices.push(options[m].1);
        }
    }
    if choices.len() == 0 {
        return options[0].1;
    }
    let mut rng = fresh_rng();
    let pick = rand_index(&mut rng, choices.len());
    choices[pick]
}

} // verus!
