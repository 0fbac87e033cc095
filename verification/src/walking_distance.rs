//! The Walking-Distance table builder: a one-shot breadth-first enumeration
//! over 4x4 count boards, starting from the goal count board, that yields a
//! lookup table from packed count board to minimum group-shift distance.

use vstd::prelude::*;
use std::collections::HashMap;
use crate::counting::{
    sum_range,
    lemma_sum_range_nonneg,
    lemma_sum_range_term_le,
    lemma_sum_range_congruence,
    lemma_sum_range_one_point,
};
use crate::encode::{key_of, encode_cells, lemma_key_of_u64, lemma_key_of_injective};

verus! {

broadcast use vstd::std_specs::hash::group_hash_axioms;

/// A count board: 16 cells, each between 0 and 4.
pub open spec fn wd_board_wf(s: Seq<u8>) -> bool {
    &&& s.len() == 16
    &&& forall|i: int| 0 <= i < 16 ==> (#[trigger] s[i]) <= 4
}

/// The total count of row `i` of a count board.
pub open spec fn wd_row_sum(s: Seq<u8>, i: int) -> int {
    sum_range(4 * i, 4 * i + 4, |q: int| s[q] as int)
}

/// The count board after moving one unit of count in column `c` from row
/// `fr` into row `tr`.
pub open spec fn wd_shift(s: Seq<u8>, fr: int, tr: int, c: int) -> Seq<u8> {
    s.update(4 * fr + c, (s[4 * fr + c] - 1) as u8).update(4 * tr + c, (s[4 * tr + c] + 1) as u8)
}

/// `b` results from `a` by shifting one unit of count from a row adjacent
/// to the short row (the row of total 3) into that row.
pub open spec fn wd_step(a: Seq<u8>, b: Seq<u8>) -> bool {
    exists|fr: int, tr: int, c: int|
        #![trigger wd_shift(a, fr, tr, c)]
        {
            &&& 0 <= fr < 4
            &&& 0 <= tr < 4
            &&& 0 <= c < 4
            &&& (fr == tr + 1 || tr == fr + 1)
            &&& wd_row_sum(a, tr) == 3
            &&& a[4 * fr + c] > 0
            &&& b == wd_shift(a, fr, tr, c)
        }
}

/// The goal count board: each goal row's tiles all sit in their own row;
/// the last row misses one tile for the blank.
pub open spec fn wd_goal_board() -> Seq<u8> {
    seq![4u8, 0u8, 0u8, 0u8, 0u8, 4u8, 0u8, 0u8, 0u8, 0u8, 4u8, 0u8, 0u8, 0u8, 0u8, 3u8]
}

/// A count board as it occurs during the search: well-formed, with exactly
/// one short row (total 3, missing the blank's tile) and all other rows
/// full (total 4).
pub open spec fn wd_state_wf(s: Seq<u8>) -> bool {
    &&& wd_board_wf(s)
    &&& exists|e: int|
        #![auto]
        0 <= e < 4 && wd_row_sum(s, e) == 3 && (forall|i: int|
            0 <= i < 4 && i != e ==> wd_row_sum(s, i) == 4)
}

/// The goal count board has its short row at the bottom.
pub proof fn lemma_wd_goal_state_wf()
    ensures
        wd_state_wf(wd_goal_board()),
{
    let g = wd_goal_board();
    reveal_with_fuel(sum_range, 6);
    assert(wd_row_sum(g, 0) == 4);
    assert(wd_row_sum(g, 1) == 4);
    assert(wd_row_sum(g, 2) == 4);
    assert(wd_row_sum(g, 3) == 3);
    assert(0 <= 3 < 4 && wd_row_sum(g, 3) == 3 && (forall|i: int|
        0 <= i < 4 && i != 3 ==> wd_row_sum(g, i) == 4));
}

/// A group shift moves the short row to the source row and keeps every
/// other row full, so the search state shape is preserved.
pub proof fn lemma_wd_step_state_wf(a: Seq<u8>, b: Seq<u8>)
    requires
        wd_state_wf(a),
        wd_step(a, b),
    ensures
        wd_state_wf(b),
{
    let (fr, tr, c) = choose|fr: int, tr: int, c: int|
        #![trigger wd_shift(a, fr, tr, c)]
        {
            &&& 0 <= fr < 4
            &&& 0 <= tr < 4
            &&& 0 <= c < 4
            &&& (fr == tr + 1 || tr == fr + 1)
            &&& wd_row_sum(a, tr) == 3
            &&& a[4 * fr + c] > 0
            &&& b == wd_shift(a, fr, tr, c)
        };
    assert(fr != tr);
    lemma_cell_le_row_sum(a, tr, c);
    let s1 = a.update(4 * fr + c, (a[4 * fr + c] - 1) as u8);
    assert(b == s1.update(4 * tr + c, (a[4 * tr + c] + 1) as u8));
    let fa = |q: int| a[q] as int;
    let f1 = |q: int| s1[q] as int;
    let fb = |q: int| b[q] as int;
    assert forall|r: int| 0 <= r < 4 implies #[trigger] wd_row_sum(b, r) == wd_row_sum(a, r) + (
    if r == fr {
        -1int
    } else if r == tr {
        1int
    } else {
        0int
    }) by {
        if r == fr {
            lemma_sum_range_one_point(4 * r, 4 * r + 4, fa, f1, 4 * fr + c);
            lemma_sum_range_congruence(4 * r, 4 * r + 4, f1, fb);
        } else if r == tr {
            lemma_sum_range_congruence(4 * r, 4 * r + 4, fa, f1);
            lemma_sum_range_one_point(4 * r, 4 * r + 4, f1, fb, 4 * tr + c);
        } else {
            lemma_sum_range_congruence(4 * r, 4 * r + 4, fa, fb);
        }
    }
    let e0 = choose|e: int|
        #![auto]
        0 <= e < 4 && wd_row_sum(a, e) == 3 && (forall|i: int|
            0 <= i < 4 && i != e ==> wd_row_sum(a, i) == 4);
    assert(e0 == tr);
    assert(wd_row_sum(a, fr) == 4);
    assert(0 <= fr < 4 && wd_row_sum(b, fr) == 3 && (forall|i: int|
        0 <= i < 4 && i != fr ==> wd_row_sum(b, i) == 4));
    assert forall|i: int| 0 <= i < 16 implies (#[trigger] b[i]) <= 4 by {
        if i == 4 * tr + c {
            assert(a[4 * tr + c] as int <= 3);
        }
    }
}

/// In a count board, each cell is at most its row total.
proof fn lemma_cell_le_row_sum(s: Seq<u8>, i: int, c: int)
    requires
        s.len() == 16,
        0 <= i < 4,
        0 <= c < 4,
    ensures
        s[4 * i + c] as int <= wd_row_sum(s, i),
{
    let f = |q: int| s[q] as int;
    assert(forall|q: int| 4 * i <= q < 4 * i + 4 ==> #[trigger] f(q) >= 0);
    lemma_sum_range_term_le(4 * i, 4 * i + 4, f, 4 * i + c);
}

/// One breadth-first node: a count board and its distance from the goal
/// count board.
pub struct Node {
    pub board: Vec<u8>,
    pub h: u8,
}

/// The boards from shifting each positive cell of row `fr` among the first
/// `m` columns into row `tr`, in column order.
pub open spec fn shift_views_upto(s: Seq<u8>, fr: int, tr: int, m: int) -> Seq<Seq<u8>>
    decreases m,
{
    if m <= 0 {
        Seq::empty()
    } else {
        shift_views_upto(s, fr, tr, m - 1) + (if s[4 * fr + (m - 1)] > 0 {
            seq![wd_shift(s, fr, tr, m - 1)]
        } else {
            Seq::empty()
        })
    }
}

/// The first row whose total count is 3, or 4 when no row is short.
pub open spec fn first_short_row(s: Seq<u8>) -> int {
    if wd_row_sum(s, 0) == 3 {
        0
    } else if wd_row_sum(s, 1) == 3 {
        1
    } else if wd_row_sum(s, 2) == 3 {
        2
    } else if wd_row_sum(s, 3) == 3 {
        3
    } else {
        4
    }
}

/// The successor boards of a count board: the shifts from the row below
/// the first short row, then those from the row above it, each column in
/// order; none when no row is short.
pub open spec fn wd_successor_views(s: Seq<u8>) -> Seq<Seq<u8>> {
    let e = first_short_row(s);
    if e == 4 {
        Seq::empty()
    } else {
        (if e < 3 {
            shift_views_upto(s, e + 1, e, 4)
        } else {
            Seq::empty()
        }) + (if e > 0 {
            shift_views_upto(s, e - 1, e, 4)
        } else {
            Seq::empty()
        })
    }
}

/// The successor list `v` contains the board obtained by shifting one
/// unit of count in column `c` from row `fr` into row `tr` of `s`.
pub open spec fn holds_shift(v: Seq<Node>, s: Seq<u8>, fr: int, tr: int, c: int) -> bool {
    exists|k: int| 0 <= k < v.len() && (#[trigger] v[k]).board@ == wd_shift(s, fr, tr, c)
}

/// A witnessed shift stays witnessed when the list grows at the end.
proof fn lemma_holds_shift_extend(v1: Seq<Node>, v2: Seq<Node>, s: Seq<u8>, fr: int, tr: int, c: int)
    requires
        holds_shift(v1, s, fr, tr, c),
        v1.len() <= v2.len(),
        forall|k: int| 0 <= k < v1.len() ==> v2[k] == v1[k],
    ensures
        holds_shift(v2, s, fr, tr, c),
{
    let k0 = choose|k: int| 0 <= k < v1.len() && (#[trigger] v1[k]).board@ == wd_shift(s, fr, tr, c);
    assert(0 <= k0 < v2.len() && v2[k0].board@ == wd_shift(s, fr, tr, c));
}

impl Node {
    /// The count boards one group shift away, each one move deeper:
    /// exactly the legal shifts into the first short row, rows below then
    /// above, columns in order.
    pub fn successors(&self) -> (r: Vec<Node>)
        requires
            wd_board_wf(self.board@),
            self.h < 255,
        ensures
            r@.len() <= 8,
            r@.map_values(|nd: Node| nd.board@) == wd_successor_views(self.board@),
            forall|k: int|
                0 <= k < r@.len() ==> {
                    &&& wd_board_wf((#[trigger] r@[k]).board@)
                    &&& r@[k].h == self.h + 1
                    &&& wd_step(self.board@, r@[k].board@)
                },
            forall|fr: int, tr: int, c: int|
                (0 <= fr < 4 && 0 <= tr < 4 && 0 <= c < 4 && (fr == tr + 1 || tr == fr + 1)
                    && wd_row_sum(self.board@, tr) == 3 && self.board@[4 * fr + c] > 0 && (
                forall|i: int| 0 <= i < tr ==> wd_row_sum(self.board@, i) != 3))
                    ==> #[trigger] holds_shift(r@, self.board@, fr, tr, c),
    {
        let ghost s = self.board@;
        let mut succs: Vec<Node> = Vec::new();
        // Locate the short row: the first row whose total count is 3.
        let mut empty_slot: usize = 0;
        let mut found = false;
        for i in 0..4usize
            invariant
                wd_board_wf(s),
                s == self.board@,
                found ==> empty_slot < 4 && wd_row_sum(s, empty_slot as int) == 3,
                found ==> forall|i2: int| 0 <= i2 < empty_slot ==> wd_row_sum(s, i2) != 3,
                !found ==> forall|i2: int| 0 <= i2 < i ==> wd_row_sum(s, i2) != 3,
        {
            if !found {
                let mut counter: u8 = 0;
                let mut q = 4 * i;
                proof {
                    assert(sum_range(4 * (i as int), 4 * (i as int), |q: int| s[q] as int) == 0);
                }
                while q < 4 * i + 4
                    invariant
                        wd_board_wf(s),
                        s == self.board@,
                        i < 4,
                        4 * i <= q <= 4 * i + 4,
                        counter as int == sum_range(4 * (i as int), q as int, |q: int| s[q] as int),
                        counter <= 16,
                    decreases 4 * i + 4 - q,
                {
                    proof {
                        let f = |q: int| s[q] as int;
                        assert(forall|m: int|
                            4 * (i as int) <= m < q as int ==> #[trigger] f(m) >= 0);
                        lemma_sum_range_nonneg(4 * (i as int), q as int, f);
                        assert(forall|m: int|
                            4 * (i as int) <= m < q as int ==> #[trigger] f(m) <= 4);
                        crate::counting::lemma_sum_range_bound(4 * (i as int), q as int, f, 4);
                    }
                    counter = counter + self.board[q];
                    q = q + 1;
                }
                proof {
                    assert(counter as int == wd_row_sum(s, i as int));
                }
                if counter == 3 {
                    empty_slot = i;
                    found = true;
                }
            }
        }
        if !found {
            proof {
                assert(first_short_row(s) == 4);
                assert(succs@.map_values(|nd: Node| nd.board@) =~= wd_successor_views(s));
            }
            return succs;
        }
        let ghost e = empty_slot as int;
        proof {
            assert(first_short_row(s) == e);
        }
        // Shift one unit of count from each adjacent row into the short row.
        if empty_slot != 3 {
            let fr = empty_slot + 1;
            let mut c: usize = 0;
            while c < 4
                invariant
                    c <= 4,
                    wd_board_wf(s),
                    s == self.board@,
                    self.h < 255,
                    fr == empty_slot + 1,
                    empty_slot < 3,
                    e == empty_slot as int,
                    wd_row_sum(s, empty_slot as int) == 3,
                    first_short_row(s) == e,
                    succs@.len() <= c,
                    succs@.map_values(|nd: Node| nd.board@) == shift_views_upto(
                        s,
                        e + 1,
                        e,
                        c as int,
                    ),
                    forall|k: int|
                        0 <= k < succs@.len() ==> {
                            &&& wd_board_wf((#[trigger] succs@[k]).board@)
                            &&& succs@[k].h == self.h + 1
                            &&& wd_step(s, succs@[k].board@)
                        },
                    forall|c2: int|
                        0 <= c2 < c && s[4 * (e + 1) + c2] > 0 ==> #[trigger] holds_shift(
                            succs@,
                            s,
                            e + 1,
                            e,
                            c2,
                        ),
                decreases 4 - c,
            {
                let ghost succs0 = succs@;
                let from_cell = self.board[4 * fr + c];
                if from_cell != 0 {
                    let mut tmp = self.board.clone();
                    let to_val = tmp[4 * empty_slot + c];
                    proof {
                        lemma_cell_le_row_sum(s, empty_slot as int, c as int);
                    }
                    tmp.set(4 * fr + c, from_cell - 1);
                    tmp.set(4 * empty_slot + c, to_val + 1);
                    proof {
                        assert(tmp@ =~= wd_shift(s, fr as int, empty_slot as int, c as int));
                    }
                    succs.push(Node { board: tmp, h: self.h + 1 });
                }
                proof {
                    assert forall|c2: int|
                        0 <= c2 < c as int + 1 && s[4 * (e + 1) + c2] > 0 implies #[trigger] holds_shift(
                        succs@,
                        s,
                        e + 1,
                        e,
                        c2,
                    ) by {
                        if c2 == c as int {
                            assert(0 <= succs@.len() - 1 < succs@.len() && succs@[succs@.len()
                                - 1].board@ == wd_shift(s, e + 1, e, c2));
                        } else {
                            lemma_holds_shift_extend(succs0, succs@, s, e + 1, e, c2);
                        }
                    }
                    assert(succs@.map_values(|nd: Node| nd.board@) =~= shift_views_upto(
                        s,
                        e + 1,
                        e,
                        c as int + 1,
                    ));
                }
                c = c + 1;
            }
        }
        if empty_slot != 0 {
            let fr = empty_slot - 1;
            let mut c: usize = 0;
            while c < 4
                invariant
                    c <= 4,
                    wd_board_wf(s),
                    s == self.board@,
                    self.h < 255,
                    fr == empty_slot - 1,
                    1 <= empty_slot < 4,
                    e == empty_slot as int,
                    wd_row_sum(s, empty_slot as int) == 3,
                    first_short_row(s) == e,
                    succs@.len() <= 4 + c,
                    succs@.map_values(|nd: Node| nd.board@) == (if e < 3 {
                        shift_views_upto(s, e + 1, e, 4)
                    } else {
                        Seq::<Seq<u8>>::empty()
                    }) + shift_views_upto(s, e - 1, e, c as int),
                    forall|k: int|
                        0 <= k < succs@.len() ==> {
                            &&& wd_board_wf((#[trigger] succs@[k]).board@)
                            &&& succs@[k].h == self.h + 1
                            &&& wd_step(s, succs@[k].board@)
                        },
                    e < 3 ==> forall|c2: int|
                        0 <= c2 < 4 && s[4 * (e + 1) + c2] > 0 ==> #[trigger] holds_shift(
                            succs@,
                            s,
                            e + 1,
                            e,
                            c2,
                        ),
                    forall|c2: int|
                        0 <= c2 < c && s[4 * (e - 1) + c2] > 0 ==> #[trigger] holds_shift(
                            succs@,
                            s,
                            e - 1,
                            e,
                            c2,
                        ),
                decreases 4 - c,
            {
                let ghost succs0 = succs@;
                let from_cell = self.board[4 * fr + c];
                if from_cell != 0 {
                    let mut tmp = self.board.clone();
                    let to_val = tmp[4 * empty_slot + c];
                    proof {
                        lemma_cell_le_row_sum(s, empty_slot as int, c as int);
                    }
                    tmp.set(4 * fr + c, from_cell - 1);
                    tmp.set(4 * empty_slot + c, to_val + 1);
                    proof {
                        assert(tmp@ =~= wd_shift(s, fr as int, empty_slot as int, c as int));
                    }
                    succs.push(Node { board: tmp, h: self.h + 1 });
                }
                proof {
                    if e < 3 {
                        assert forall|c2: int|
                            0 <= c2 < 4 && s[4 * (e + 1) + c2] > 0 implies #[trigger] holds_shift(
                            succs@,
                            s,
                            e + 1,
                            e,
                            c2,
                        ) by {
                            lemma_holds_shift_extend(succs0, succs@, s, e + 1, e, c2);
                        }
                    }
                    assert forall|c2: int|
                        0 <= c2 < c as int + 1 && s[4 * (e - 1) + c2] > 0 implies #[trigger] holds_shift(
                        succs@,
                        s,
                        e - 1,
                        e,
                        c2,
                    ) by {
                        if c2 == c as int {
                            assert(0 <= succs@.len() - 1 < succs@.len() && succs@[succs@.len()
                                - 1].board@ == wd_shift(s, e - 1, e, c2));
                        } else {
                            lemma_holds_shift_extend(succs0, succs@, s, e - 1, e, c2);
                        }
                    }
                    assert(shift_views_upto(s, e - 1, e, c as int + 1) =~= shift_views_upto(
                        s,
                        e - 1,
                        e,
                        c as int,
                    ) + (if s[4 * (e - 1) + c as int] > 0 {
                        seq![wd_shift(s, e - 1, e, c as int)]
                    } else {
                        Seq::<Seq<u8>>::empty()
                    }));
                    if s[4 * (e - 1) + c as int] > 0 {
                        assert(succs@.map_values(|nd: Node| nd.board@) =~= succs0.map_values(
                            |nd: Node| nd.board@,
                        ).push(wd_shift(s, e - 1, e, c as int)));
                    }
                    assert(succs@.map_values(|nd: Node| nd.board@) =~= (if e < 3 {
                        shift_views_upto(s, e + 1, e, 4)
                    } else {
                        Seq::<Seq<u8>>::empty()
                    }) + shift_views_upto(s, e - 1, e, c as int + 1));
                }
                c = c + 1;
            }
        }
        proof {
            assert(succs@.map_values(|nd: Node| nd.board@) =~= wd_successor_views(s));
            assert forall|fr: int, tr: int, c: int|
                (0 <= fr < 4 && 0 <= tr < 4 && 0 <= c < 4 && (fr == tr + 1 || tr == fr + 1)
                    && wd_row_sum(s, tr) == 3 && s[4 * fr + c] > 0 && (forall|i: int|
                    0 <= i < tr ==> wd_row_sum(s, i) != 3)) implies #[trigger] holds_shift(
                succs@,
                s,
                fr,
                tr,
                c,
            ) by {
                assert(tr == e) by {
                    if e < tr {
                        assert(wd_row_sum(s, e) != 3);
                    } else if tr < e {
                        assert(wd_row_sum(s, tr) != 3);
                    }
                }
            }
        }
        succs
    }
}

/// A count board is reachable from the goal count board in at most `k`
/// group shifts.
pub open spec fn wd_reachable_within(s: Seq<u8>, k: int) -> bool
    decreases k,
{
    if s == wd_goal_board() {
        true
    } else if k <= 0 {
        false
    } else {
        exists|t: Seq<u8>|
            #![auto]
            wd_reachable_within(t, k - 1) && wd_step(t, s)
    }
}

/// The table is layered under the decoding `dec` of keys back to count
/// boards: every entry decodes to a well-formed board behind its own key;
/// the entry at distance zero is the goal board; and every other entry has
/// a predecessor entry one group shift away at distance one less.
#[verifier::opaque]
pub open spec fn table_layered(t: Map<u64, u8>, dec: Map<u64, Seq<u8>>) -> bool {
    forall|k: u64|
        #[trigger] t.contains_key(k) ==> {
            &&& dec.contains_key(k)
            &&& key_of(dec[k]) == k as int
            &&& wd_board_wf(dec[k])
            &&& if t[k] == 0 {
                dec[k] == wd_goal_board()
            } else {
                exists|k2: u64|
                    #![auto]
                    t.contains_key(k2) && t[k2] as int + 1 == t[k] as int && wd_step(
                        dec[k2],
                        dec[k],
                    )
            }
        }
}

/// Law: in a layered table every entry's distance is realised by an actual
/// chain of that many group shifts from the goal count board, so the
/// breadth-first discovery depths are genuine shift distances.
pub proof fn lemma_layered_table_distances(t: Map<u64, u8>, dec: Map<u64, Seq<u8>>, k: u64)
    requires
        table_layered(t, dec),
        t.contains_key(k),
    ensures
        wd_reachable_within(dec[k], t[k] as int),
    decreases t[k],
{
    reveal(table_layered);
    if t[k] == 0 {
        assert(dec[k] == wd_goal_board());
    } else {
        let k2 = choose|k2: u64|
            #![auto]
            t.contains_key(k2) && t[k2] as int + 1 == t[k] as int && wd_step(dec[k2], dec[k]);
        lemma_layered_table_distances(t, dec, k2);
        assert(wd_reachable_within(dec[k2], t[k] as int - 1) && wd_step(dec[k2], dec[k]));
    }
}

/// Key `k` still awaits expansion: it sits in the unexplored part of the
/// breadth-first queue.
#[verifier::opaque]
pub open spec fn in_open_queue(queue: Seq<Node>, head: int, k: u64) -> bool {
    exists|j: int| head <= j < queue.len() && (key_of((#[trigger] queue[j]).board@) as u64) == k
}

/// Entry `k` is fully expanded: every count board one group shift from its
/// decoded board has an entry of distance at most one more.
#[verifier::opaque]
pub open spec fn entry_closed(t: Map<u64, u8>, dec: Map<u64, Seq<u8>>, k: u64) -> bool {
    forall|b2: Seq<u8>|
        #![auto]
        wd_step(dec[k], b2) ==> t.contains_key(key_of(b2) as u64) && (t[key_of(b2) as u64] as int)
            <= t[k] as int + 1
}

/// Every entry decodes to a search-shaped count board.
#[verifier::opaque]
pub open spec fn table_states(t: Map<u64, u8>, dec: Map<u64, Seq<u8>>) -> bool {
    forall|k: u64| #[trigger] t.contains_key(k) ==> wd_state_wf(dec[k])
}

/// Every entry below the distance ceiling is fully expanded.
pub open spec fn table_closed(t: Map<u64, u8>, dec: Map<u64, Seq<u8>>) -> bool {
    forall|k: u64| #[trigger] t.contains_key(k) && t[k] < 255 ==> entry_closed(t, dec, k)
}

/// Law: over a layered, closed table holding the goal at distance zero,
/// every count board reachable from the goal within `k` group shifts
/// (for `k` below the distance ceiling) has an entry of distance at most
/// `k` — together with the layering law, the recorded breadth-first depths
/// are exactly the minimum group-shift distances.
pub proof fn lemma_closed_table_complete(
    t: Map<u64, u8>,
    dec: Map<u64, Seq<u8>>,
    b: Seq<u8>,
    k: int,
)
    requires
        table_layered(t, dec),
        table_states(t, dec),
        table_closed(t, dec),
        t.contains_key(key_of(wd_goal_board()) as u64),
        t[key_of(wd_goal_board()) as u64] == 0,
        wd_reachable_within(b, k),
        0 <= k < 255,
    ensures
        wd_state_wf(b),
        t.contains_key(key_of(b) as u64),
        (t[key_of(b) as u64] as int) <= k,
    decreases k,
{
    reveal(table_layered);
    reveal(table_states);
    if b == wd_goal_board() {
        lemma_wd_goal_state_wf();
    } else {
        let pred = choose|p: Seq<u8>|
            #![auto]
            wd_reachable_within(p, k - 1) && wd_step(p, b);
        lemma_closed_table_complete(t, dec, pred, k - 1);
        lemma_wd_step_state_wf(pred, b);
        let kp = key_of(pred) as u64;
        assert(wd_state_wf(dec[kp]));
        lemma_key_of_u64(pred);
        lemma_key_of_injective(dec[kp], pred);
        assert(dec[kp] == pred);
        assert(entry_closed(t, dec, kp));
        assert(wd_step(dec[kp], b));
        reveal(entry_closed);
    }
}

/// Law: the recorded distances are exact.  For any entry of a layered,
/// closed table, the recorded value is realised by a shift chain, and no
/// shorter chain (of length below the ceiling) exists.
pub proof fn lemma_table_distance_exact(t: Map<u64, u8>, dec: Map<u64, Seq<u8>>, k: u64, j: int)
    requires
        table_layered(t, dec),
        table_states(t, dec),
        table_closed(t, dec),
        t.contains_key(key_of(wd_goal_board()) as u64),
        t[key_of(wd_goal_board()) as u64] == 0,
        t.contains_key(k),
        wd_reachable_within(dec[k], j),
        0 <= j < 255,
    ensures
        wd_reachable_within(dec[k], t[k] as int),
        t[k] as int <= j,
{
    lemma_layered_table_distances(t, dec, k);
    lemma_closed_table_complete(t, dec, dec[k], j);
    assert(key_of(dec[k]) == k as int) by {
        reveal(table_layered);
    }
    assert((key_of(dec[k]) as u64) == k);
}

/// After an expansion: if the successor list is complete for the expanded
/// board and every listed successor has a bounded entry, the expanded
/// entry is closed.
proof fn lemma_expansion_closes_entry(
    t: Map<u64, u8>,
    dec: Map<u64, Seq<u8>>,
    succs: Seq<Node>,
    nboard: Seq<u8>,
    cur_key: u64,
    node_h: u8,
)
    requires
        t.contains_key(cur_key),
        t[cur_key] == node_h,
        dec[cur_key] == nboard,
        wd_state_wf(nboard),
        forall|fr: int, tr: int, c: int|
            (0 <= fr < 4 && 0 <= tr < 4 && 0 <= c < 4 && (fr == tr + 1 || tr == fr + 1)
                && wd_row_sum(nboard, tr) == 3 && nboard[4 * fr + c] > 0 && (forall|i: int|
                0 <= i < tr ==> wd_row_sum(nboard, i) != 3)) ==> #[trigger] holds_shift(
                succs,
                nboard,
                fr,
                tr,
                c,
            ),
        forall|si2: int|
            0 <= si2 < succs.len() ==> {
                let sk = (key_of((#[trigger] succs[si2]).board@) as u64);
                t.contains_key(sk) && ((t[sk]) as int) <= node_h + 1
            },
    ensures
        entry_closed(t, dec, cur_key),
{
    reveal(entry_closed);
    assert forall|b2: Seq<u8>| #![auto] wd_step(dec[cur_key], b2) implies t.contains_key(
        key_of(b2) as u64,
    ) && (t[key_of(b2) as u64] as int) <= t[cur_key] as int + 1 by {
        let (fr, tr, c) = choose|fr: int, tr: int, c: int|
            #![trigger wd_shift(nboard, fr, tr, c)]
            {
                &&& 0 <= fr < 4
                &&& 0 <= tr < 4
                &&& 0 <= c < 4
                &&& (fr == tr + 1 || tr == fr + 1)
                &&& wd_row_sum(nboard, tr) == 3
                &&& nboard[4 * fr + c] > 0
                &&& b2 == wd_shift(nboard, fr, tr, c)
            };
        let e0 = choose|e: int|
            #![auto]
            0 <= e < 4 && wd_row_sum(nboard, e) == 3 && (forall|i: int|
                0 <= i < 4 && i != e ==> wd_row_sum(nboard, i) == 4);
        assert(tr == e0);
        assert(forall|i: int| 0 <= i < tr ==> wd_row_sum(nboard, i) != 3);
        assert(holds_shift(succs, nboard, fr, tr, c));
        let si2 = choose|si2: int|
            0 <= si2 < succs.len() && (#[trigger] succs[si2]).board@ == wd_shift(
                nboard,
                fr,
                tr,
                c,
            );
        assert(succs[si2].board@ == b2);
        assert(t.contains_key((key_of(succs[si2].board@) as u64)));
    }
}

/// Every queue node's board is well-formed and its entry records its depth
/// and decodes back to its board.
#[verifier::opaque]
pub open spec fn queue_linked(queue: Seq<Node>, t: Map<u64, u8>, dec: Map<u64, Seq<u8>>) -> bool {
    forall|j: int|
        0 <= j < queue.len() ==> {
            let nd = #[trigger] queue[j];
            &&& wd_board_wf(nd.board@)
            &&& t.contains_key((key_of(nd.board@) as u64))
            &&& t[(key_of(nd.board@) as u64)] == nd.h
            &&& dec[(key_of(nd.board@) as u64)] == nd.board@
        }
}

/// The recorded depths never decrease along the queue.
#[verifier::opaque]
pub open spec fn queue_sorted(queue: Seq<Node>) -> bool {
    forall|j1: int, j2: int|
        0 <= j1 <= j2 < queue.len() ==> (#[trigger] queue[j1]).h <= (#[trigger] queue[j2]).h
}

/// One breadth-first discovery step: a fresh successor is recorded one
/// deeper than the expanded node, appended to the queue, and every
/// invariant of the search is preserved.
proof fn lemma_bfs_insert_step(
    old_table: Map<u64, u8>,
    new_table: Map<u64, u8>,
    old_dec: Map<u64, Seq<u8>>,
    new_dec: Map<u64, Seq<u8>>,
    old_queue: Seq<Node>,
    new_queue: Seq<Node>,
    nd: Node,
    k: u64,
    nboard: Seq<u8>,
    cur_key: u64,
    node_h: u8,
    head: int,
    gkey: u64,
)
    requires
        old_table.contains_key(gkey),
        old_table[gkey] == 0,
        forall|k0: u64|
            old_table.contains_key(k0) && k0 != gkey ==> (#[trigger] old_table[k0]) >= 1,
        table_layered(old_table, old_dec),
        table_states(old_table, old_dec),
        old_dec.dom() == old_table.dom(),
        queue_linked(old_queue, old_table, old_dec),
        queue_sorted(old_queue),
        forall|k0: u64|
            old_table.contains_key(k0) ==> ((#[trigger] old_table[k0]) as int) <= node_h + 1,
        forall|k0: u64|
            (#[trigger] old_table.contains_key(k0)) && old_table[k0] < 255 ==> entry_closed(
                old_table,
                old_dec,
                k0,
            ) || in_open_queue(old_queue, head, k0) || k0 == cur_key,
        0 <= head <= old_queue.len(),
        old_table.contains_key(cur_key),
        old_table[cur_key] == node_h,
        old_dec[cur_key] == nboard,
        wd_state_wf(nboard),
        node_h < 255,
        !old_table.contains_key(k),
        k as int == key_of(nd.board@),
        wd_step(nboard, nd.board@),
        wd_board_wf(nd.board@),
        nd.h == node_h + 1,
        new_table == old_table.insert(k, nd.h),
        new_dec == old_dec.insert(k, nd.board@),
        new_queue == old_queue.push(nd),
    ensures
        new_table.contains_key(gkey),
        new_table[gkey] == 0,
        forall|k0: u64|
            new_table.contains_key(k0) && k0 != gkey ==> (#[trigger] new_table[k0]) >= 1,
        table_layered(new_table, new_dec),
        table_states(new_table, new_dec),
        new_dec.dom() == new_table.dom(),
        queue_linked(new_queue, new_table, new_dec),
        queue_sorted(new_queue),
        forall|k0: u64|
            new_table.contains_key(k0) ==> ((#[trigger] new_table[k0]) as int) <= node_h + 1,
        forall|k0: u64|
            (#[trigger] new_table.contains_key(k0)) && new_table[k0] < 255 ==> entry_closed(
                new_table,
                new_dec,
                k0,
            ) || in_open_queue(new_queue, head, k0) || k0 == cur_key,
        new_table.contains_key(cur_key),
        new_table[cur_key] == node_h,
        new_dec[cur_key] == nboard,
        new_table.contains_key(k),
        ((new_table[k]) as int) <= node_h + 1,
{
    assert(k != cur_key);
    assert(k != gkey);
    assert(new_dec.dom() =~= new_table.dom());
    assert(table_layered(new_table, new_dec)) by {
        reveal(table_layered);
        assert forall|k0: u64| #[trigger] new_table.contains_key(k0) implies {
            &&& new_dec.contains_key(k0)
            &&& key_of(new_dec[k0]) == k0 as int
            &&& wd_board_wf(new_dec[k0])
            &&& if new_table[k0] == 0 {
                new_dec[k0] == wd_goal_board()
            } else {
                exists|k2: u64|
                    #![auto]
                    new_table.contains_key(k2) && new_table[k2] as int + 1
                        == new_table[k0] as int && wd_step(new_dec[k2], new_dec[k0])
            }
        } by {
            if k0 == k {
                assert(new_table.contains_key(cur_key) && new_table[cur_key] as int + 1
                    == new_table[k0] as int && wd_step(new_dec[cur_key], new_dec[k0]));
            } else {
                assert(old_table.contains_key(k0));
                assert(new_dec[k0] == old_dec[k0]);
                if old_table[k0] != 0 {
                    let k2 = choose|k2: u64|
                        #![auto]
                        old_table.contains_key(k2) && old_table[k2] as int + 1
                            == old_table[k0] as int && wd_step(old_dec[k2], old_dec[k0]);
                    assert(new_table.contains_key(k2) && new_table[k2] as int + 1
                        == new_table[k0] as int && wd_step(new_dec[k2], new_dec[k0]));
                }
            }
        }
    }
    assert(table_states(new_table, new_dec)) by {
        reveal(table_states);
        lemma_wd_step_state_wf(nboard, nd.board@);
        assert forall|k0: u64| #[trigger] new_table.contains_key(k0) implies wd_state_wf(
            new_dec[k0],
        ) by {
            if k0 != k {
                assert(old_table.contains_key(k0) && new_dec[k0] == old_dec[k0]);
            }
        }
    }
    assert(queue_linked(new_queue, new_table, new_dec)) by {
        reveal(queue_linked);
        assert forall|j: int| 0 <= j < new_queue.len() implies {
            let nd0 = #[trigger] new_queue[j];
            &&& wd_board_wf(nd0.board@)
            &&& new_table.contains_key((key_of(nd0.board@) as u64))
            &&& new_table[(key_of(nd0.board@) as u64)] == nd0.h
            &&& new_dec[(key_of(nd0.board@) as u64)] == nd0.board@
        } by {
            if j < old_queue.len() {
                assert(new_queue[j] == old_queue[j]);
                let k0 = (key_of(old_queue[j].board@) as u64);
                assert(old_table.contains_key(k0));
                assert(k0 != k);
            } else {
                assert(new_queue[j] == nd);
            }
        }
    }
    assert(queue_sorted(new_queue)) by {
        reveal(queue_sorted);
        reveal(queue_linked);
        assert forall|j1: int, j2: int| 0 <= j1 <= j2 < new_queue.len() implies (
        #[trigger] new_queue[j1]).h <= (#[trigger] new_queue[j2]).h by {
            if j2 == new_queue.len() - 1 && j1 < j2 {
                let k0 = (key_of(old_queue[j1].board@) as u64);
                assert(old_table.contains_key(k0) && old_table[k0] == old_queue[j1].h);
                assert(old_queue[j1].h <= node_h + 1);
            }
        }
    }
    assert forall|k0: u64|
        (#[trigger] new_table.contains_key(k0)) && new_table[k0] < 255 implies entry_closed(
        new_table,
        new_dec,
        k0,
    ) || in_open_queue(new_queue, head, k0) || k0 == cur_key by {
        reveal(in_open_queue);
        if k0 == k {
            assert((key_of(new_queue[new_queue.len() - 1].board@) as u64) == k0);
            assert(in_open_queue(new_queue, head, k0));
        } else {
            assert(old_table.contains_key(k0));
            if entry_closed(old_table, old_dec, k0) {
                reveal(entry_closed);
                assert forall|b2: Seq<u8>| #![auto] wd_step(new_dec[k0], b2) implies
                    new_table.contains_key(key_of(b2) as u64) && (new_table[key_of(
                    b2,
                ) as u64] as int) <= new_table[k0] as int + 1 by {
                    assert(new_dec[k0] == old_dec[k0]);
                    assert(old_table.contains_key(key_of(b2) as u64));
                }
                assert(entry_closed(new_table, new_dec, k0));
            } else if in_open_queue(old_queue, head, k0) {
                let j = choose|j: int|
                    head <= j < old_queue.len() && (key_of(
                        (#[trigger] old_queue[j]).board@,
                    ) as u64) == k0;
                assert((key_of(new_queue[j].board@) as u64) == k0);
                assert(in_open_queue(new_queue, head, k0));
            }
        }
    }
}

/// Builds the Walking-Distance lookup table by breadth-first search from
/// the goal count board.  The table maps the goal count board to zero and
/// every other entry to at least one; a decoding witness shows the entries
/// layered (each distance realised by a shift chain) and closed (every
/// shift neighbour of an entry recorded at most one deeper).
#[verifier::rlimit(100)]
pub fn simulation() -> (t: HashMap<u64, u8>)
    ensures
        t@.contains_key(key_of(wd_goal_board()) as u64),
        t@[key_of(wd_goal_board()) as u64] == 0,
        forall|k: u64|
            t@.contains_key(k) && k != (key_of(wd_goal_board()) as u64) ==> (#[trigger] t@[k])
                >= 1,
        exists|dec: Map<u64, Seq<u8>>|
            table_layered(t@, dec) && table_states(t@, dec) && table_closed(t@, dec),
{
    let mut goal_vec: Vec<u8> = Vec::new();
    goal_vec.push(4);
    goal_vec.push(0);
    goal_vec.push(0);
    goal_vec.push(0);
    goal_vec.push(0);
    goal_vec.push(4);
    goal_vec.push(0);
    goal_vec.push(0);
    goal_vec.push(0);
    goal_vec.push(0);
    goal_vec.push(4);
    goal_vec.push(0);
    goal_vec.push(0);
    goal_vec.push(0);
    goal_vec.push(0);
    goal_vec.push(3);
    proof {
        assert(goal_vec@ =~= wd_goal_board());
    }
    let goal_key = encode_cells(&goal_vec);
    let ghost gkey = key_of(wd_goal_board()) as u64;
    proof {
        lemma_key_of_u64(wd_goal_board());
        assert(goal_key == gkey);
        lemma_wd_goal_state_wf();
    }
    let mut table: HashMap<u64, u8> = HashMap::new();
    table.insert(goal_key, 0);
    let ghost mut dec: Map<u64, Seq<u8>> = Map::empty();
    proof {
        dec = dec.insert(gkey, wd_goal_board());
        assert(dec.dom() =~= table@.dom());
    }
    let mut queue: Vec<Node> = Vec::new();
    queue.push(Node { board: goal_vec, h: 0 });
    proof {
        reveal(in_open_queue);
        assert((key_of(queue@[0].board@) as u64) == gkey);
        assert(in_open_queue(queue@, 0, gkey));
        reveal(table_layered);
        reveal(table_states);
        assert(table_layered(table@, dec));
        assert(table_states(table@, dec));
        reveal(queue_linked);
        reveal(queue_sorted);
        assert(queue_linked(queue@, table@, dec));
        assert(queue_sorted(queue@));
    }
    let mut head: usize = 0;
    while head < queue.len()
        invariant
            table@.contains_key(gkey),
            table@[gkey] == 0,
            forall|k: u64| table@.contains_key(k) && k != gkey ==> (#[trigger] table@[k]) >= 1,
            table_layered(table@, dec),
            table_states(table@, dec),
            dec.dom() == table@.dom(),
            table@.len() == vstd::std_specs::hash::spec_hash_map_len(&table),
            head <= queue@.len(),
            queue_linked(queue@, table@, dec),
            queue_sorted(queue@),
            head < queue@.len() ==> forall|k: u64|
                table@.contains_key(k) ==> ((#[trigger] table@[k]) as int) <= queue@[
                    head as int
                ].h + 1,
            forall|k: u64|
                (#[trigger] table@.contains_key(k)) && table@[k] < 255 ==> entry_closed(
                    table@,
                    dec,
                    k,
                ) || in_open_queue(queue@, head as int, k),
        decreases usize::MAX as int - table@.len(), queue@.len() - head,
    {
        let ghost pre_table_len = table@.len() as int;
        let ghost pre_queue_len = queue@.len() as int;
        let node_board = queue[head].board.clone();
        let node_h = queue[head].h;
        let ghost nboard = node_board@;
        proof {
            reveal(queue_linked);
            assert(queue@[head as int].board@ == nboard);
            assert(wd_board_wf(nboard));
            lemma_key_of_u64(nboard);
        }
        let ghost cur_key = key_of(nboard) as u64;
        let ghost old_head = head as int;
        proof {
            assert(table@.contains_key(cur_key) && table@[cur_key] == node_h && dec[cur_key]
                == nboard);
            assert(wd_state_wf(nboard)) by {
                reveal(table_states);
            }
        }
        head = head + 1;
        proof {
            // Witnesses for still-open entries sit past the popped node.
            assert forall|k: u64|
                (#[trigger] table@.contains_key(k)) && table@[k] < 255 implies entry_closed(
                table@,
                dec,
                k,
            ) || in_open_queue(queue@, head as int, k) || k == cur_key by {
                reveal(in_open_queue);
                if !entry_closed(table@, dec, k) && in_open_queue(queue@, old_head, k) && k
                    != cur_key {
                    let j = choose|j: int|
                        old_head <= j < queue@.len() && (key_of(
                            (#[trigger] queue@[j]).board@,
                        ) as u64) == k;
                    assert(j != old_head);
                    assert(in_open_queue(queue@, head as int, k));
                }
            }
        }
        if node_h < 255 {
            let current = Node { board: node_board, h: node_h };
            let succs = current.successors();
            proof {
                assert(current.board@ == nboard);
                assert forall|fr: int, tr: int, c: int|
                    (0 <= fr < 4 && 0 <= tr < 4 && 0 <= c < 4 && (fr == tr + 1 || tr == fr + 1)
                        && wd_row_sum(nboard, tr) == 3 && nboard[4 * fr + c] > 0 && (forall|
                        i: int,
                    | 0 <= i < tr ==> wd_row_sum(nboard, i) != 3)) implies #[trigger] holds_shift(
                    succs@,
                    nboard,
                    fr,
                    tr,
                    c,
                ) by {
                    assert(holds_shift(succs@, current.board@, fr, tr, c));
                }
            }
            let succ_count = succs.len();
            let mut si: usize = 0;
            while si < succ_count
                invariant
                    table@.contains_key(gkey),
                    table@[gkey] == 0,
                    forall|k: u64|
                        table@.contains_key(k) && k != gkey ==> (#[trigger] table@[k]) >= 1,
                    table_layered(table@, dec),
                    table_states(table@, dec),
                    dec.dom() == table@.dom(),
                    node_h < 255,
                    table@.contains_key(cur_key),
                    table@[cur_key] == node_h,
                    dec[cur_key] == nboard,
                    wd_state_wf(nboard),
                    si <= succ_count,
                    succ_count == succs@.len(),
                    0 <= old_head < queue@.len(),
                    queue@[old_head].h == node_h,
                    forall|fr: int, tr: int, c: int|
                        (0 <= fr < 4 && 0 <= tr < 4 && 0 <= c < 4 && (fr == tr + 1 || tr == fr
                            + 1) && wd_row_sum(nboard, tr) == 3 && nboard[4 * fr + c] > 0 && (
                        forall|i: int| 0 <= i < tr ==> wd_row_sum(nboard, i) != 3))
                            ==> #[trigger] holds_shift(succs@, nboard, fr, tr, c),
                    queue@.len() as int - pre_queue_len == table@.len() as int - pre_table_len,
                    table@.len() as int >= pre_table_len,
                    table@.len() == vstd::std_specs::hash::spec_hash_map_len(&table),
                    forall|k: int|
                        0 <= k < succs@.len() ==> {
                            &&& (#[trigger] succs@[k]).h == node_h + 1
                            &&& wd_board_wf(succs@[k].board@)
                            &&& wd_step(nboard, succs@[k].board@)
                        },
                    head <= queue@.len(),
                    queue_linked(queue@, table@, dec),
                    queue_sorted(queue@),
                    forall|k: u64|
                        table@.contains_key(k) ==> ((#[trigger] table@[k]) as int) <= node_h + 1,
                    forall|k: u64|
                        (#[trigger] table@.contains_key(k)) && table@[k] < 255 ==> entry_closed(
                            table@,
                            dec,
                            k,
                        ) || in_open_queue(queue@, head as int, k) || k == cur_key,
                    forall|si2: int|
                        0 <= si2 < si ==> {
                            let sk = (key_of((#[trigger] succs@[si2]).board@) as u64);
                            table@.contains_key(sk) && ((table@[sk]) as int) <= node_h + 1
                        },
                decreases succ_count - si,
            {
                let sb = succs[si].board.clone();
                let sh = succs[si].h;
                let k = encode_cells(&sb);
                if !table.contains_key(&k) {
                    let ghost old_table = table@;
                    let ghost old_dec = dec;
                    let ghost old_queue = queue@;
                    proof {
                        dec = dec.insert(k, sb@);
                    }
                    table.insert(k, sh);
                    let nd = Node { board: sb, h: sh };
                    let ghost nd_snapshot = nd;
                    queue.push(nd);
                    proof {
                        lemma_bfs_insert_step(
                            old_table,
                            table@,
                            old_dec,
                            dec,
                            old_queue,
                            queue@,
                            nd_snapshot,
                            k,
                            nboard,
                            cur_key,
                            node_h,
                            head as int,
                            gkey,
                        );
                    }
                }
                si = si + 1;
            }
            proof {
                // Every shift neighbour of the expanded board is recorded,
                // so its entry is now closed.
                lemma_expansion_closes_entry(table@, dec, succs@, nboard, cur_key, node_h);
                assert forall|k: u64|
                    (#[trigger] table@.contains_key(k)) && table@[k] < 255 implies entry_closed(
                    table@,
                    dec,
                    k,
                ) || in_open_queue(queue@, head as int, k) by {}
                // the next node to expand is at least as deep
                if head < queue.len() {
                    reveal(queue_sorted);
                    reveal(queue_linked);
                    assert(queue@[old_head].h == node_h);
                    assert(queue@[head as int].h >= node_h);
                }
            }
        } else {
            proof {
                if head < queue.len() {
                    reveal(queue_sorted);
                    reveal(queue_linked);
                    assert(queue@[old_head].h == node_h);
                    assert(queue@[head as int].h >= node_h);
                    assert forall|k: u64| table@.contains_key(k) implies ((
                    #[trigger] table@[k]) as int) <= queue@[head as int].h + 1 by {
                        assert(table@[k] <= 255);
                    }
                }
            }
        }
    }
    proof {
        assert forall|k: u64|
            (#[trigger] table@.contains_key(k)) && table@[k] < 255 implies entry_closed(
            table@,
            dec,
            k,
        ) by {
            reveal(in_open_queue);
            if in_open_queue(queue@, head as int, k) {
                let j = choose|j: int|
                    head as int <= j < queue@.len() && (key_of(
                        (#[trigger] queue@[j]).board@,
                    ) as u64) == k;
                assert(false);
            }
        }
        assert(table_layered(table@, dec) && table_states(table@, dec) && table_closed(
            table@,
            dec,
        ));
    }
    table
}

} // verus!
