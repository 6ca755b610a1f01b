//! Choosing the slot for a prompt: the one whose state can be resumed furthest into it.
//!
//! A slot offers its live state, the checkpoint at the end of its last prompt, and its ring
//! checkpoints. A state stands immediately behind the tokens that it has consumed, so it can be
//! resumed only where all of them are a prefix of the prompt.

use vstd::prelude::*;

use crate::batch::prefix;
use crate::batch::prefix::ImageIdentity;
use crate::batch::slots;
use crate::batch::slots::{Slots, RING_CKPT_K, RING_CKPT_STRIDE};

verus! {

/// The state that a request resumes from.
#[derive(Clone, Copy, PartialEq, Eq, Structural, Debug)]
pub enum Origin {
    /// The slot's current state.
    Live,
    /// The checkpoint at the end of the last prompt.
    Ckpt,
    /// A ring checkpoint.
    Ring(usize),
}

/// A slot and the state to resume from.
#[derive(Clone, Copy, PartialEq, Eq, Structural, Debug)]
pub struct Pick {
    /// Place among the free slots.
    pub index: usize,
    pub slot: usize,
    /// Tokens of the prompt that need no prefill.
    pub reuse: usize,
    pub origin: Origin,
    /// Tokens of the prompt that the slot's live state has consumed.
    pub live: usize,
}

/// Offers of a slot: the live state, the prompt checkpoint, the ring checkpoints.
pub const OFFERS: usize = 18;

/// A state that has consumed `seq` can be resumed for a prompt: all of it is a proper prefix.
pub open spec fn resumes(seq: Seq<u32>, prompt: Seq<u32>) -> bool {
    0 < prefix::lcp(seq, prompt) == seq.len() < prompt.len()
}

/// Offer `k` of the slot at place `i` of the free slots. States that do not stand on the grid are
/// offered only where the reuse is not bound to it.
pub open spec fn offer(
    m: Slots,
    free: Seq<usize>,
    prompt: Seq<u32>,
    imgs: Seq<ImageIdentity>,
    grid: bool,
    i: int,
    k: int,
) -> Option<Pick> {
    let s = free[i];
    let cache = m.cache@[s as int]@;
    let ckpt = m.ckpt_seq@[s as int]@;
    let live = prefix::lcp(cache, prompt);
    if k == 0 {
        if !grid && resumes(cache, prompt) && prefix::compatible(
            m.cache_images@[s as int]@,
            imgs,
            cache.len() as usize,
        ) {
            Some(
                Pick {
                    index: i as usize,
                    slot: s,
                    reuse: cache.len() as usize,
                    origin: Origin::Live,
                    live: live as usize,
                },
            )
        } else {
            None
        }
    } else if k == 1 {
        if !grid && resumes(ckpt, prompt) && prefix::compatible(
            m.ckpt_images@[s as int]@,
            imgs,
            ckpt.len() as usize,
        ) {
            Some(
                Pick {
                    index: i as usize,
                    slot: s,
                    reuse: ckpt.len() as usize,
                    origin: Origin::Ckpt,
                    live: live as usize,
                },
            )
        } else {
            None
        }
    } else {
        let len = m.ring_len@[s as int]@[k - 2];
        if 0 < len <= live && len < prompt.len() && prefix::compatible(
            m.cache_images@[s as int]@,
            imgs,
            len,
        ) {
            Some(
                Pick {
                    index: i as usize,
                    slot: s,
                    reuse: len,
                    origin: Origin::Ring((k - 2) as usize),
                    live: live as usize,
                },
            )
        } else {
            None
        }
    }
}

/// The better of two offers: the longer one, the later one among equals.
pub open spec fn better(a: Option<Pick>, b: Option<Pick>) -> Option<Pick> {
    match b {
        None => a,
        Some(y) => match a {
            None => b,
            Some(x) => if y.reuse >= x.reuse {
                b
            } else {
                a
            },
        },
    }
}

/// The best offer of the first `i` free slots and of the first `k` offers of the next one.
pub open spec fn best(
    m: Slots,
    free: Seq<usize>,
    prompt: Seq<u32>,
    imgs: Seq<ImageIdentity>,
    grid: bool,
    i: int,
    k: int,
) -> Option<Pick>
    decreases i, k,
{
    if i < 0 || k < 0 {
        None
    } else if k == 0 {
        if i == 0 {
            None
        } else {
            best(m, free, prompt, imgs, grid, i - 1, OFFERS as int)
        }
    } else {
        better(
            best(m, free, prompt, imgs, grid, i, k - 1),
            offer(m, free, prompt, imgs, grid, i, k - 1),
        )
    }
}

/// The best offer of all free slots.
pub open spec fn best_pick(
    m: Slots,
    free: Seq<usize>,
    prompt: Seq<u32>,
    imgs: Seq<ImageIdentity>,
    grid: bool,
) -> Option<Pick> {
    best(m, free, prompt, imgs, grid, free.len() as int, 0)
}

/// `p` is one of the offers.
pub open spec fn is_offer(
    m: Slots,
    free: Seq<usize>,
    prompt: Seq<u32>,
    imgs: Seq<ImageIdentity>,
    grid: bool,
    i: int,
    k: int,
    p: Pick,
) -> bool {
    &&& 0 <= i < free.len()
    &&& 0 <= k < OFFERS
    &&& offer(m, free, prompt, imgs, grid, i, k) == Some(p)
}

proof fn lemma_best(
    m: Slots,
    free: Seq<usize>,
    prompt: Seq<u32>,
    imgs: Seq<ImageIdentity>,
    grid: bool,
    i: int,
    k: int,
)
    requires
        0 <= i <= free.len(),
        0 <= k <= OFFERS,
        i == free.len() ==> k == 0,
    ensures
        best(m, free, prompt, imgs, grid, i, k) matches Some(p) ==> exists|x: int, y: int|
            is_offer(m, free, prompt, imgs, grid, x, y, p),
        forall|x: int, y: int, p: Pick|
            #![trigger is_offer(m, free, prompt, imgs, grid, x, y, p)]
            is_offer(m, free, prompt, imgs, grid, x, y, p) && (x < i || (x == i && y < k)) ==> (
            best(m, free, prompt, imgs, grid, i, k) matches Some(b) && b.reuse >= p.reuse),
    decreases i, k,
{
    if k == 0 {
        if i > 0 {
            lemma_best(m, free, prompt, imgs, grid, i - 1, OFFERS as int);
        }
    } else {
        lemma_best(m, free, prompt, imgs, grid, i, k - 1);
        match offer(m, free, prompt, imgs, grid, i, k - 1) {
            Some(p) => {
                assert(is_offer(m, free, prompt, imgs, grid, i, k - 1, p));
            },
            None => {},
        }
    }
}

/// The chosen state is one of those that the slots offer, and none of them reaches further into
/// the prompt.
pub proof fn law_longest_reuse_is_chosen(
    m: Slots,
    free: Seq<usize>,
    prompt: Seq<u32>,
    imgs: Seq<ImageIdentity>,
    grid: bool,
    x: int,
    y: int,
    p: Pick,
)
    ensures
        is_offer(m, free, prompt, imgs, grid, x, y, p) ==> (best_pick(
            m,
            free,
            prompt,
            imgs,
            grid,
        ) matches Some(b) && b.reuse >= p.reuse),
        best_pick(m, free, prompt, imgs, grid) matches Some(b) ==> exists|i: int, k: int|
            is_offer(m, free, prompt, imgs, grid, i, k, b),
{
    lemma_best(m, free, prompt, imgs, grid, free.len() as int, 0);
}

/// What a chosen state guarantees: the reused tokens are those that the state has consumed and
/// are the start of the prompt, something is left to prefill, and the images agree.
pub open spec fn sound_pick(
    m: Slots,
    free: Seq<usize>,
    prompt: Seq<u32>,
    imgs: Seq<ImageIdentity>,
    grid: bool,
    p: Pick,
) -> bool {
    &&& p.index < free.len()
    &&& p.slot == free[p.index as int]
    &&& 0 < p.reuse < prompt.len()
    &&& p.live == prefix::lcp(m.cache@[p.slot as int]@, prompt)
    &&& match p.origin {
        Origin::Live => !grid && m.cache@[p.slot as int]@ == prompt.take(p.reuse as int),
        Origin::Ckpt => !grid && m.ckpt_seq@[p.slot as int]@ == prompt.take(p.reuse as int),
        Origin::Ring(j) => {
            &&& j < RING_CKPT_K
            &&& m.ring_len@[p.slot as int]@[j as int] == p.reuse
            &&& p.reuse <= m.cache@[p.slot as int]@.len()
            &&& m.cache@[p.slot as int]@.take(p.reuse as int) == prompt.take(p.reuse as int)
        },
    }
}

/// A chosen state can be resumed.
pub proof fn law_reuse_is_a_prefix(
    m: Slots,
    free: Seq<usize>,
    prompt: Seq<u32>,
    imgs: Seq<ImageIdentity>,
    grid: bool,
    n: int,
    p: Pick,
)
    requires
        m.wf(n),
        forall|i: int| 0 <= i < free.len() ==> #[trigger] free[i] < n,
        free.len() <= usize::MAX,
        prompt.len() <= usize::MAX,
        best_pick(m, free, prompt, imgs, grid) == Some(p),
    ensures
        sound_pick(m, free, prompt, imgs, grid, p),
        grid ==> p.reuse % RING_CKPT_STRIDE == 0,
{
    lemma_best(m, free, prompt, imgs, grid, free.len() as int, 0);
    let (i, k) = choose|i: int, k: int| is_offer(m, free, prompt, imgs, grid, i, k, p);
    let s = free[i] as int;
    prefix::lemma_lcp_prefix(m.cache@[s]@, prompt);
    prefix::lemma_lcp_prefix(m.ckpt_seq@[s]@, prompt);
    let cache = m.cache@[s]@;
    if k == 0 {
        assert(cache.take(cache.len() as int) =~= cache);
    } else if k == 1 {
        let ckpt = m.ckpt_seq@[s]@;
        assert(ckpt.take(ckpt.len() as int) =~= ckpt);
    } else {
        let r = p.reuse as int;
        let l = prefix::lcp(cache, prompt);
        assert(slots::on_grid(m.ring_len@[s]@));
        assert(cache.take(r) =~= cache.take(l).take(r));
        assert(prompt.take(r) =~= prompt.take(l).take(r));
    }
}

/// Finds the best state to resume from.
pub(crate) fn pick_slot(
    m: &Slots,
    free: &Vec<usize>,
    prompt: &Vec<u32>,
    imgs: &Vec<ImageIdentity>,
    grid: bool,
    Ghost(n): Ghost<int>,
) -> (r: Option<Pick>)
    requires
        m.wf(n),
        forall|i: int| 0 <= i < free@.len() ==> #[trigger] free@[i] < n,
    ensures
        r == best_pick(*m, free@, prompt@, imgs@, grid),
{
    let plen: usize = prompt.len();
    let mut r: Option<Pick> = None;
    let mut i: usize = 0;
    while i < free.len()
        invariant
            m.wf(n),
            forall|i: int| 0 <= i < free@.len() ==> #[trigger] free@[i] < n,
            plen == prompt@.len(),
            i <= free@.len(),
            r == best(*m, free@, prompt@, imgs@, grid, i as int, 0),
        decreases free@.len() - i,
    {
        let s: usize = free[i];
        assert(m.ring_len@[s as int]@.len() == RING_CKPT_K);
        let cache = &m.cache[s];
        let ckpt = &m.ckpt_seq[s];
        let live: usize = prefix::common_prefix_len(cache.as_slice(), prompt.as_slice());
        let held: usize = prefix::common_prefix_len(ckpt.as_slice(), prompt.as_slice());
        let mut k: usize = 0;
        while k < OFFERS
            invariant
                m.wf(n),
                s < n,
                i < free@.len(),
                s == free@[i as int],
                plen == prompt@.len(),
                m.ring_len@[s as int]@.len() == RING_CKPT_K,
                cache@ == m.cache@[s as int]@,
                ckpt@ == m.ckpt_seq@[s as int]@,
                live == prefix::lcp(cache@, prompt@),
                held == prefix::lcp(ckpt@, prompt@),
                k <= OFFERS,
                r == best(*m, free@, prompt@, imgs@, grid, i as int, k as int),
            decreases OFFERS - k,
        {
            let o: Option<Pick> = if k == 0 {
                if !grid && 0 < live && live == cache.len() && live < plen
                    && prefix::images_compatible(
                    m.cache_images[s].as_slice(),
                    imgs.as_slice(),
                    live,
                ) {
                    Some(Pick { index: i, slot: s, reuse: live, origin: Origin::Live, live })
                } else {
                    None
                }
            } else if k == 1 {
                if !grid && 0 < held && held == ckpt.len() && held < plen
                    && prefix::images_compatible(
                    m.ckpt_images[s].as_slice(),
                    imgs.as_slice(),
                    held,
                ) {
                    Some(Pick { index: i, slot: s, reuse: held, origin: Origin::Ckpt, live })
                } else {
                    None
                }
            } else {
                let len: usize = m.ring_len[s][k - 2];
                if 0 < len && len <= live && len < plen && prefix::images_compatible(
                    m.cache_images[s].as_slice(),
                    imgs.as_slice(),
                    len,
                ) {
                    Some(
                        Pick { index: i, slot: s, reuse: len, origin: Origin::Ring(k - 2), live },
                    )
                } else {
                    None
                }
            };
            assert(o == offer(*m, free@, prompt@, imgs@, grid, i as int, k as int));
            let next = match (r, o) {
                (a, None) => a,
                (None, b) => b,
                (Some(x), Some(y)) => if y.reuse >= x.reuse {
                    Some(y)
                } else {
                    Some(x)
                },
            };
            r = next;
            k += 1;
        }
        i += 1;
        assert(r == best(*m, free@, prompt@, imgs@, grid, i as int, 0));
    }
    r
}


/// No state that could be resumed is passed over: the chosen one reaches at least as far into the
/// prompt as the live state of a free slot, its checkpoint, and its ring checkpoint `j`, wherever
/// these hold a start of the prompt and its images.
pub proof fn law_every_resumable_state_is_considered(
    m: Slots,
    free: Seq<usize>,
    prompt: Seq<u32>,
    imgs: Seq<ImageIdentity>,
    grid: bool,
    n: int,
    i: int,
    j: int,
)
    requires
        m.wf(n),
        forall|k: int| 0 <= k < free.len() ==> #[trigger] free[k] < n,
        prompt.len() <= usize::MAX,
        0 <= i < free.len() <= usize::MAX,
        0 <= j < 16,
    ensures
        ({
            let s = free[i] as int;
            let cache = m.cache@[s]@;
            let ckpt = m.ckpt_seq@[s]@;
            let len = m.ring_len@[s]@[j];
            let chosen = best_pick(m, free, prompt, imgs, grid);
            &&& !grid && 0 < cache.len() < prompt.len() && cache == prompt.take(cache.len() as int)
                && prefix::compatible(m.cache_images@[s]@, imgs, cache.len() as usize) ==> chosen
                is Some && chosen->0.reuse >= cache.len()
            &&& !grid && 0 < ckpt.len() < prompt.len() && ckpt == prompt.take(ckpt.len() as int)
                && prefix::compatible(m.ckpt_images@[s]@, imgs, ckpt.len() as usize) ==> chosen
                is Some && chosen->0.reuse >= ckpt.len()
            &&& 0 < len < prompt.len() && len <= cache.len() && cache.take(len as int)
                == prompt.take(len as int) && prefix::compatible(m.cache_images@[s]@, imgs, len)
                ==> chosen is Some && chosen->0.reuse >= len
        }),
{
    let s = free[i] as int;
    let cache = m.cache@[s]@;
    let ckpt = m.ckpt_seq@[s]@;
    let len = m.ring_len@[s]@[j];
    lemma_best(m, free, prompt, imgs, grid, free.len() as int, 0);
    prefix::law_the_common_prefix_is_the_longest(cache, prompt, cache.len() as int);
    prefix::law_the_common_prefix_is_the_longest(ckpt, prompt, ckpt.len() as int);
    prefix::law_the_common_prefix_is_the_longest(cache, prompt, len as int);
    assert(cache.take(cache.len() as int) =~= cache);
    assert(ckpt.take(ckpt.len() as int) =~= ckpt);
    let first = offer(m, free, prompt, imgs, grid, i, 0);
    let second = offer(m, free, prompt, imgs, grid, i, 1);
    let third = offer(m, free, prompt, imgs, grid, i, j + 2);
    if first is Some {
        assert(is_offer(m, free, prompt, imgs, grid, i, 0, first->0));
    }
    if second is Some {
        assert(is_offer(m, free, prompt, imgs, grid, i, 1, second->0));
    }
    if third is Some {
        assert(is_offer(m, free, prompt, imgs, grid, i, j + 2, third->0));
    }
}

/// The images of what is reused are those of the request, up to the reused length.
pub proof fn law_reuse_keeps_the_images(
    m: Slots,
    free: Seq<usize>,
    prompt: Seq<u32>,
    imgs: Seq<ImageIdentity>,
    grid: bool,
    n: int,
    p: Pick,
)
    requires
        m.wf(n),
        forall|i: int| 0 <= i < free.len() ==> #[trigger] free[i] < n,
        free.len() <= usize::MAX,
        prompt.len() <= usize::MAX,
        best_pick(m, free, prompt, imgs, grid) == Some(p),
    ensures
        prefix::compatible(
            if p.origin is Ckpt {
                m.ckpt_images@[p.slot as int]@
            } else {
                m.cache_images@[p.slot as int]@
            },
            imgs,
            p.reuse,
        ),
{
    lemma_best(m, free, prompt, imgs, grid, free.len() as int, 0);
}

proof fn lemma_last_of_the_best(
    m: Slots,
    free: Seq<usize>,
    prompt: Seq<u32>,
    imgs: Seq<ImageIdentity>,
    grid: bool,
    i: int,
    k: int,
)
    requires
        0 <= i <= free.len() <= usize::MAX,
        0 <= k <= OFFERS,
        i == free.len() ==> k == 0,
    ensures
        best(m, free, prompt, imgs, grid, i, k) matches Some(b) ==> b.index <= i && forall|
            x: int,
            y: int,
            p: Pick,
        |
            #![trigger is_offer(m, free, prompt, imgs, grid, x, y, p)]
            is_offer(m, free, prompt, imgs, grid, x, y, p) && (x < i || (x == i && y < k))
                && p.reuse == b.reuse ==> x <= b.index,
    decreases i, k,
{
    if k == 0 {
        if i > 0 {
            lemma_last_of_the_best(m, free, prompt, imgs, grid, i - 1, OFFERS as int);
        }
    } else {
        lemma_last_of_the_best(m, free, prompt, imgs, grid, i, k - 1);
        lemma_best(m, free, prompt, imgs, grid, i, k - 1);
    }
}

/// Of the states that reach equally far, one of the last slot is taken.
pub proof fn law_the_last_of_the_best_slots_is_taken(
    m: Slots,
    free: Seq<usize>,
    prompt: Seq<u32>,
    imgs: Seq<ImageIdentity>,
    grid: bool,
    i: int,
    k: int,
    p: Pick,
    b: Pick,
)
    requires
        free.len() <= usize::MAX,
        best_pick(m, free, prompt, imgs, grid) == Some(b),
        is_offer(m, free, prompt, imgs, grid, i, k, p),
        p.reuse == b.reuse,
    ensures
        i <= b.index,
{
    lemma_last_of_the_best(m, free, prompt, imgs, grid, free.len() as int, 0);
}

} // verus!
