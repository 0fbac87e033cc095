//! Injective packing of a cell sequence (each cell below 16, at most 16
//! cells) into a `u64`, used as the key of visited sets and of the
//! Walking-Distance lookup table.

use vstd::prelude::*;

verus! {

pub open spec fn pow16(e: nat) -> int
    decreases e,
{
    if e == 0 {
        1
    } else {
        16 * pow16((e - 1) as nat)
    }
}

/// The key of a cell sequence: its digits read in base 16, first cell most
/// significant.
pub open spec fn key_of(s: Seq<u8>) -> int
    decreases s.len(),
{
    if s.len() == 0 {
        0
    } else {
        key_of(s.drop_last()) * 16 + s.last()
    }
}

pub proof fn lemma_pow16_pos(e: nat)
    ensures
        pow16(e) >= 1,
    decreases e,
{
    if e > 0 {
        lemma_pow16_pos((e - 1) as nat);
    }
}

pub proof fn lemma_pow16_mono(a: nat, b: nat)
    requires
        a <= b,
    ensures
        pow16(a) <= pow16(b),
    decreases b,
{
    if a < b {
        lemma_pow16_mono(a, (b - 1) as nat);
        lemma_pow16_pos((b - 1) as nat);
    }
}

pub proof fn lemma_pow16_fifteen()
    ensures
        pow16(15) == 0x1000000000000000,
{
    reveal_with_fuel(pow16, 16);
}

pub proof fn lemma_key_of_bound(s: Seq<u8>)
    requires
        forall|i: int| 0 <= i < s.len() ==> (#[trigger] s[i]) < 16,
    ensures
        0 <= key_of(s) < pow16(s.len()),
    decreases s.len(),
{
    if s.len() > 0 {
        assert(forall|i: int|
            0 <= i < s.drop_last().len() ==> (#[trigger] s.drop_last()[i]) < 16);
        lemma_key_of_bound(s.drop_last());
    }
}

/// Keys are unique: sequences of the same length with cells below 16 and
/// the same key are equal, by uniqueness of base-16 digits.
pub proof fn lemma_key_of_injective(a: Seq<u8>, b: Seq<u8>)
    requires
        a.len() == b.len(),
        forall|i: int| 0 <= i < a.len() ==> (#[trigger] a[i]) < 16,
        forall|i: int| 0 <= i < b.len() ==> (#[trigger] b[i]) < 16,
        key_of(a) == key_of(b),
    ensures
        a == b,
    decreases a.len(),
{
    if a.len() == 0 {
        assert(a =~= b);
    } else {
        lemma_key_of_bound(a.drop_last());
        lemma_key_of_bound(b.drop_last());
        assert(a.last() as int == key_of(a) % 16 && key_of(a.drop_last()) == key_of(a) / 16) by {
            vstd::arithmetic::div_mod::lemma_fundamental_div_mod_converse(
                key_of(a),
                16,
                key_of(a.drop_last()),
                a.last() as int,
            );
        }
        assert(b.last() as int == key_of(b) % 16 && key_of(b.drop_last()) == key_of(b) / 16) by {
            vstd::arithmetic::div_mod::lemma_fundamental_div_mod_converse(
                key_of(b),
                16,
                key_of(b.drop_last()),
                b.last() as int,
            );
        }
        lemma_key_of_injective(a.drop_last(), b.drop_last());
        assert forall|i: int| 0 <= i < a.len() implies a[i] == b[i] by {
            if i < a.len() - 1 {
                assert(a.drop_last()[i] == b.drop_last()[i]);
            } else {
                assert(a.last() == b.last());
            }
        }
        assert(a =~= b);
    }
}

/// The key of a bounded cell sequence fits in a `u64`.
pub proof fn lemma_key_of_u64(s: Seq<u8>)
    requires
        s.len() <= 16,
        forall|i: int| 0 <= i < s.len() ==> (#[trigger] s[i]) < 16,
    ensures
        0 <= key_of(s) < 0x10000000000000000,
{
    lemma_key_of_bound(s);
    lemma_pow16_mono(s.len(), 16);
    assert(pow16(16) == 16 * pow16(15));
    lemma_pow16_fifteen();
}

/// Packs the cells into a `u64`, base 16, first cell most significant.
pub fn encode_cells(v: &Vec<u8>) -> (k: u64)
    requires
        v@.len() <= 16,
        forall|i: int| 0 <= i < v@.len() ==> (#[trigger] v@[i]) < 16,
    ensures
        k as int == key_of(v@),
{
    let n = v.len();
    let mut k: u64 = 0;
    for i in 0..n
        invariant
            n == v@.len(),
            n <= 16,
            forall|j: int| 0 <= j < n ==> (#[trigger] v@[j]) < 16,
            k as int == key_of(v@.take(i as int)),
    {
        proof {
            let pre = v@.take(i as int);
            assert(forall|j: int| 0 <= j < pre.len() ==> (#[trigger] pre[j]) < 16);
            lemma_key_of_bound(pre);
            lemma_pow16_mono(i as nat, 15);
            lemma_pow16_fifteen();
            let nxt = v@.take(i as int + 1);
            assert(nxt.drop_last() =~= pre);
            assert(nxt.last() == v@[i as int]);
        }
        k = k * 16 + (v[i] as u64);
    }
    proof {
        assert(v@.take(n as int) =~= v@);
    }
    k
}

} // verus!
