//! Token bitsets: little-endian `u32` words, bit `t` of the set is bit `t % 32` of word `t / 32`.

use vstd::prelude::*;

verus! {

/// Bit `t` of the set is on. Bits beyond the words are off.
pub open spec fn bit(words: Seq<u32>, t: int) -> bool {
    0 <= t < 32 * words.len() && words[t / 32] & (1u32 << ((t % 32) as u32)) != 0
}

/// Every bit is off.
pub proof fn lemma_zero_bits(words: Seq<u32>)
    requires
        forall|i: int| 0 <= i < words.len() ==> words[i] == 0,
    ensures
        forall|t: int| !bit(words, t),
{
    assert forall|t: int| !bit(words, t) by {
        if 0 <= t < 32 * words.len() {
            let k = (t % 32) as u32;
            assert(0u32 & (1u32 << k) == 0) by (bit_vector);
        }
    }
}

/// Turns bit `t` on.
pub fn set_bit(words: &mut Vec<u32>, t: usize)
    requires
        t < 32 * old(words)@.len(),
    ensures
        final(words)@.len() == old(words)@.len(),
        forall|u: int| #[trigger] bit(final(words)@, u) == (bit(old(words)@, u) || u == t),
{
    let ghost before = words@;
    let i: usize = t / 32;
    let k: u32 = (t % 32) as u32;
    let x: u32 = words[i];
    let y: u32 = x | (1u32 << k);
    words[i] = y;
    assert(words@ =~= before.update(i as int, y));
    assert forall|u: int| #[trigger] bit(words@, u) == (bit(before, u) || u == t) by {
        if 0 <= u < 32 * before.len() && u / 32 == i {
            let j = (u % 32) as u32;
            assert((y & (1u32 << j) != 0) == (x & (1u32 << j) != 0 || j == k)) by (bit_vector)
                requires
                    y == x | (1u32 << k),
                    j < 32,
                    k < 32,
            ;
            assert(j == k <==> u == t);
        }
    }
}

/// `n` words with every bit off.
pub fn zero_words(n: usize) -> (words: Vec<u32>)
    ensures
        words@ == Seq::new(n as nat, |k: int| 0u32),
        forall|t: int| !bit(words@, t),
{
    let words: Vec<u32> = vec![0u32; n];
    assert(words@ =~= Seq::new(n as nat, |k: int| 0u32));
    proof {
        lemma_zero_bits(words@);
    }
    words
}

} // verus!
