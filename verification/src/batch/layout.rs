//! Where the states of the model stand in memory, and when decode graphs are worth capturing.

use vstd::prelude::*;

use crate::batch::draft::MAX_VERIFY;
use crate::batch::policy::MAX_AUTO_DEPTH;
use crate::batch::slots::RING_CKPT_K;

verus! {

/// The regions of the state slots. The first `max_batch` slots belong to lanes.
#[derive(Clone, Copy, PartialEq, Eq, Structural, Debug)]
pub struct StateLayout {
    /// Checkpoints of the columns of a verify.
    pub n_ckpt: usize,
    pub snapshot_slot: usize,
    /// One prompt checkpoint per lane slot.
    pub prompt_ckpt_slot: usize,
    /// `RING_CKPT_K` ring checkpoints per lane slot.
    pub ring_ckpt_slot: usize,
    pub n_state_slots: usize,
}

/// Column checkpoints: none without a drafter, enough for the deepest chain of the head, and one
/// per column where a wide verify can occur.
pub open spec fn checkpoints(has_head: bool, dflash_v1: bool, wide: bool) -> int {
    if !has_head && !dflash_v1 {
        0
    } else if wide || dflash_v1 {
        MAX_VERIFY as int
    } else {
        MAX_AUTO_DEPTH - 1
    }
}

/// The layout for `max_batch` lanes.
pub open spec fn layout_of(
    max_batch: int,
    has_head: bool,
    dflash_v1: bool,
    wide: bool,
    prefix_cache: bool,
    l: StateLayout,
) -> bool {
    &&& l.n_ckpt == checkpoints(has_head, dflash_v1, wide)
    &&& l.snapshot_slot == max_batch
    &&& l.prompt_ckpt_slot == max_batch + l.n_ckpt
    &&& l.ring_ckpt_slot == l.prompt_ckpt_slot + max_batch
    &&& l.n_state_slots == max_batch + l.n_ckpt + if prefix_cache {
        max_batch * (1 + RING_CKPT_K)
    } else {
        0
    }
}

/// Lays the state slots out. `wide`: a verify may have more columns than the deepest chain.
pub fn state_layout(
    max_batch: usize,
    has_head: bool,
    dflash_v1: bool,
    wide: bool,
    prefix_cache: bool,
) -> (l: StateLayout)
    requires
        max_batch * 18 + 16 <= usize::MAX,
    ensures
        layout_of(max_batch as int, has_head, dflash_v1, wide, prefix_cache, l),
{
    let n_ckpt: usize = if !has_head && !dflash_v1 {
        0
    } else if wide || dflash_v1 {
        MAX_VERIFY
    } else {
        MAX_AUTO_DEPTH - 1
    };
    assert(max_batch * (1 + RING_CKPT_K) == max_batch * 17) by {
        assert(1 + RING_CKPT_K == 17);
    }
    let cached: usize = if prefix_cache {
        max_batch * 17
    } else {
        0
    };
    StateLayout {
        n_ckpt,
        snapshot_slot: max_batch,
        prompt_ckpt_slot: max_batch + n_ckpt,
        ring_ckpt_slot: max_batch + n_ckpt + max_batch,
        n_state_slots: max_batch + n_ckpt + cached,
    }
}

/// The slot of ring checkpoint `j` of lane slot `s`.
pub open spec fn ring_slot_of(l: StateLayout, s: int, j: int) -> int {
    l.ring_ckpt_slot + s * RING_CKPT_K + j
}

/// The regions of the lanes, of the column checkpoints, of the prompt checkpoints and of the ring
/// checkpoints do not overlap, and with the prefix cache every checkpoint exists.
pub proof fn law_regions_are_apart(
    max_batch: int,
    has_head: bool,
    dflash_v1: bool,
    wide: bool,
    l: StateLayout,
    s: int,
    t: int,
    j: int,
    k: int,
    c: int,
)
    requires
        layout_of(max_batch, has_head, dflash_v1, wide, true, l),
        0 <= s < max_batch,
        0 <= t < max_batch,
        0 <= j < RING_CKPT_K,
        0 <= k < RING_CKPT_K,
        0 <= c < l.n_ckpt,
    ensures
        s < l.snapshot_slot,
        l.snapshot_slot + c < l.prompt_ckpt_slot,
        l.prompt_ckpt_slot + s < l.ring_ckpt_slot,
        l.ring_ckpt_slot <= ring_slot_of(l, s, j) < l.n_state_slots,
        ring_slot_of(l, s, j) == ring_slot_of(l, t, k) ==> s == t && j == k,
{
}

/// There is a checkpoint for every column of a chain of the head that a rejection can go back to,
/// and for every column of a wide verify.
pub proof fn law_every_column_has_a_checkpoint(
    max_batch: int,
    dflash_v1: bool,
    wide: bool,
    prefix_cache: bool,
    l: StateLayout,
    width: int,
    n: int,
)
    requires
        layout_of(max_batch, true, dflash_v1, wide, prefix_cache, l),
        if wide || dflash_v1 {
            width <= MAX_VERIFY
        } else {
            width <= MAX_AUTO_DEPTH
        },
        0 <= n < width - 1,
    ensures
        l.snapshot_slot + n < l.prompt_ckpt_slot,
{
}

/// Shared memory of the attention kernel, in bytes.
pub const ATTENTION_SMEM: usize = 8256;

/// Shared memory of the selection of the next token, in bytes.
pub const ARGMAX_SMEM: usize = 8192;

/// Shared memory that a captured kernel may use, in bytes.
pub const GRAPH_SMEM_LIMIT: usize = 49152;

/// True when decode graphs are captured: every kernel of the region fits the limit, and capture is
/// not switched off.
pub fn captures_graphs(gdn_smem: usize, switched_off: bool) -> (r: bool)
    ensures
        r == (!switched_off && gdn_smem <= GRAPH_SMEM_LIMIT && ATTENTION_SMEM <= GRAPH_SMEM_LIMIT
            && ARGMAX_SMEM <= GRAPH_SMEM_LIMIT),
{
    let mut most: usize = gdn_smem;
    if most < ATTENTION_SMEM {
        most = ATTENTION_SMEM;
    }
    if most < ARGMAX_SMEM {
        most = ARGMAX_SMEM;
    }
    !switched_off && most <= GRAPH_SMEM_LIMIT
}

/// Graphs are kept only where every batch size was captured.
pub fn keeps_graphs(captured: &Vec<bool>) -> (r: bool)
    ensures
        r == forall|b: int| 0 <= b < captured@.len() ==> #[trigger] captured@[b],
{
    let mut b: usize = 0;
    while b < captured.len()
        invariant
            b <= captured@.len(),
            forall|i: int| 0 <= i < b ==> #[trigger] captured@[i],
        decreases captured@.len() - b,
    {
        if !captured[b] {
            return false;
        }
        b += 1;
    }
    true
}


/// No state slot is left over: live states, checkpoints of columns, and, where prefixes are kept, a
/// prompt checkpoint and sixteen ring checkpoints for each slot fill the pool.
pub proof fn law_no_state_slot_is_left_over(
    max_batch: int,
    has_head: bool,
    dflash_v1: bool,
    wide: bool,
    prefix_cache: bool,
    l: StateLayout,
)
    requires
        layout_of(max_batch, has_head, dflash_v1, wide, prefix_cache, l),
        0 < max_batch,
    ensures
        prefix_cache ==> l.n_state_slots == ring_slot_of(l, max_batch - 1, 15) + 1,
        !prefix_cache ==> l.n_state_slots == l.prompt_ckpt_slot,
        l.snapshot_slot + l.n_ckpt == l.prompt_ckpt_slot,
        l.prompt_ckpt_slot + max_batch == l.ring_ckpt_slot,
        l.n_ckpt == 0 || l.n_ckpt == 7 || l.n_ckpt == 16,
{
    assert(max_batch * (1 + RING_CKPT_K) == max_batch + (max_batch - 1) * RING_CKPT_K + 16)
        by (nonlinear_arith);
}

} // verus!
