//! Slots: what each one remembers of the sequence that its state has consumed, and who holds it.

use vstd::prelude::*;

use crate::batch::prefix::ImageIdentity;

verus! {

/// Distance between two ring checkpoints of a slot, in tokens.
pub const RING_CKPT_STRIDE: usize = 512;

/// Ring checkpoints of a slot.
pub const RING_CKPT_K: usize = 16;

/// What the slots remember, by slot.
pub struct Slots {
    /// The tokens that the slot's state has consumed.
    pub cache: Vec<Vec<u32>>,
    pub cache_images: Vec<Vec<ImageIdentity>>,
    /// The tokens that the prompt checkpoint has consumed.
    pub ckpt_seq: Vec<Vec<u32>>,
    pub ckpt_images: Vec<Vec<ImageIdentity>>,
    /// Lengths at which the ring checkpoints were taken; zero for an empty one.
    pub ring_len: Vec<Vec<usize>>,
    /// The ring checkpoint that is overwritten next.
    pub ring_cursor: Vec<usize>,
    /// Rows of the block drafter's ring that belong to the slot.
    pub dspark_len: Vec<usize>,
}

impl Slots {
    pub open spec fn wf(&self, n: int) -> bool {
        &&& self.cache@.len() == n
        &&& self.cache_images@.len() == n
        &&& self.ckpt_seq@.len() == n
        &&& self.ckpt_images@.len() == n
        &&& self.ring_len@.len() == n
        &&& self.ring_cursor@.len() == n
        &&& self.dspark_len@.len() == n
        &&& forall|s: int|
            0 <= s < n ==> (#[trigger] self.ring_len@[s])@.len() == RING_CKPT_K && on_grid(
                self.ring_len@[s]@,
            )
        &&& forall|s: int| 0 <= s < n ==> #[trigger] self.ring_cursor@[s] < RING_CKPT_K
    }

    /// Slots that remember nothing.
    pub fn new(n: usize) -> (r: Slots)
        ensures
            r.wf(n as int),
            forall|s: int|
                0 <= s < n ==> (#[trigger] r.cache@[s])@.len() == 0 && r.cache_images@[s]@.len()
                    == 0 && r.ckpt_seq@[s]@.len() == 0 && r.ckpt_images@[s]@.len() == 0
                    && r.ring_cursor@[s] == 0 && r.dspark_len@[s] == 0,
            forall|s: int, j: int|
                0 <= s < n && 0 <= j < RING_CKPT_K ==> #[trigger] r.ring_len@[s]@[j] == 0,
    {
        let mut r = Slots {
            cache: Vec::new(),
            cache_images: Vec::new(),
            ckpt_seq: Vec::new(),
            ckpt_images: Vec::new(),
            ring_len: Vec::new(),
            ring_cursor: Vec::new(),
            dspark_len: Vec::new(),
        };
        let mut i: usize = 0;
        while i < n
            invariant
                i <= n,
                r.wf(i as int),
                forall|s: int|
                    0 <= s < i ==> (#[trigger] r.cache@[s])@.len() == 0
                        && r.cache_images@[s]@.len() == 0 && r.ckpt_seq@[s]@.len() == 0
                        && r.ckpt_images@[s]@.len() == 0 && r.ring_cursor@[s] == 0
                        && r.dspark_len@[s] == 0,
                forall|s: int, j: int|
                    0 <= s < i && 0 <= j < RING_CKPT_K ==> #[trigger] r.ring_len@[s]@[j] == 0,
            decreases n - i,
        {
            let ghost before = r;
            let tokens: Vec<u32> = Vec::new();
            let images: Vec<ImageIdentity> = Vec::new();
            let ckpt_tokens: Vec<u32> = Vec::new();
            let ckpt_images: Vec<ImageIdentity> = Vec::new();
            assert(tokens@.len() == 0 && images@.len() == 0);
            assert(ckpt_tokens@.len() == 0 && ckpt_images@.len() == 0);
            r.cache.push(tokens);
            r.cache_images.push(images);
            r.ckpt_seq.push(ckpt_tokens);
            r.ckpt_images.push(ckpt_images);
            let lens: Vec<usize> = vec![0usize; RING_CKPT_K];
            assert(lens@.len() == RING_CKPT_K);
            assert(forall|j: int| 0 <= j < RING_CKPT_K ==> #[trigger] lens@[j] == 0);
            r.ring_len.push(lens);
            r.ring_cursor.push(0);
            r.dspark_len.push(0);
            assert forall|s: int| 0 <= s < i + 1 implies (#[trigger] r.cache@[s])@.len() == 0
                && r.cache_images@[s]@.len() == 0 && r.ckpt_seq@[s]@.len() == 0
                && r.ckpt_images@[s]@.len() == 0 && r.ring_cursor@[s] == 0 && r.dspark_len@[s]
                == 0 by {
                if s < i {
                    assert(before.cache@[s]@.len() == 0);
                }
            }
            i += 1;
        }
        r
    }
}

/// Ring checkpoints are taken on the grid of the stride.
pub open spec fn on_grid(lens: Seq<usize>) -> bool {
    forall|j: int| 0 <= j < lens.len() ==> #[trigger] lens[j] % RING_CKPT_STRIDE == 0
}

/// How often slot `s` occurs in a list.
pub open spec fn held(v: Seq<usize>, s: usize) -> int
    decreases v.len(),
{
    if v.len() == 0 {
        0
    } else {
        held(v.drop_last(), s) + if v.last() == s {
            1int
        } else {
            0
        }
    }
}

pub proof fn lemma_held_push(v: Seq<usize>, x: usize, s: usize)
    ensures
        held(v.push(x), s) == held(v, s) + if x == s {
            1int
        } else {
            0
        },
{
    assert(v.push(x).drop_last() =~= v);
}

pub proof fn lemma_held_add(a: Seq<usize>, b: Seq<usize>, s: usize)
    ensures
        held(a + b, s) == held(a, s) + held(b, s),
    decreases b.len(),
{
    if b.len() == 0 {
        assert(a + b =~= a);
    } else {
        assert((a + b).drop_last() =~= a + b.drop_last());
        lemma_held_add(a, b.drop_last(), s);
    }
}

pub proof fn lemma_held_remove(v: Seq<usize>, i: int, s: usize)
    requires
        0 <= i < v.len(),
    ensures
        held(v, s) == held(v.remove(i), s) + if v[i] == s {
            1int
        } else {
            0
        },
{
    let a = v.take(i);
    let b = v.skip(i + 1);
    assert(v =~= a.push(v[i]) + b);
    assert(v.remove(i) =~= a + b);
    lemma_held_add(a.push(v[i]), b, s);
    lemma_held_add(a, b, s);
    lemma_held_push(a, v[i], s);
}

pub proof fn lemma_held_bounds(v: Seq<usize>, s: usize)
    ensures
        0 <= held(v, s) <= v.len(),
        held(v, s) > 0 <==> v.contains(s),
    decreases v.len(),
{
    if v.len() > 0 {
        lemma_held_bounds(v.drop_last(), s);
        if v.contains(s) {
            let i = choose|i: int| 0 <= i < v.len() && v[i] == s;
            if i < v.len() - 1 {
                assert(v.drop_last()[i] == s);
                assert(v.drop_last().contains(s));
            }
        }
        if v.drop_last().contains(s) {
            let i = choose|i: int| 0 <= i < v.drop_last().len() && v.drop_last()[i] == s;
            assert(v[i] == s);
        }
    }
}

/// A slot that is held twice stands in two places, and only then.
pub proof fn lemma_held_twice(v: Seq<usize>, i: int, j: int)
    requires
        0 <= i < j < v.len(),
        v[i] == v[j],
    ensures
        held(v, v[i]) >= 2,
{
    lemma_held_remove(v, j, v[j]);
    let w = v.remove(j);
    assert(w[i] == v[i]);
    assert(w.contains(v[i]));
    lemma_held_bounds(w, v[i]);
}


/// The number of times that a slot is held is how often it stands in the list.
pub proof fn law_held_counts(v: Seq<usize>, s: usize)
    ensures
        held(v, s) == v.to_multiset().count(s),
    decreases v.len(),
{
    if v.len() > 0 {
        law_held_counts(v.drop_last(), s);
        assert(v =~= v.drop_last().push(v.last()));
        v.drop_last().to_multiset_ensures();
    } else {
        v.to_multiset_ensures();
    }
}

} // verus!
