//! Speculative steps of the drafters that keep a context of their own: the selector round and the
//! two block drafters. They serve a lane that is alone.

use vstd::prelude::*;

use crate::batch::commit;
use crate::batch::commit::{Drafter, Emission};
use crate::batch::lane_steps;
use crate::batch::rings::Df2Ring;
use crate::batch::scheduler;
use crate::batch::scheduler::{BatchScheduler, DflashLane, Stats};
use crate::batch::steps;
use crate::batch::steps::LaneStep;
use crate::dflash::config::MAX_BLOCK;
use crate::dspark::round;
use crate::dspark::round::DsparkRound;
use crate::single::Single;

verus! {

/// The selector's ring after a step on slot `phys` that committed `n` drafts: it has taken in the
/// committed token and the drafts, and is bound to the slot.
pub open spec fn ring_advanced(ring: Df2Ring, phys: usize, n: int) -> Df2Ring {
    Df2Ring {
        nprev: (ring.nprev + n + 1) as usize,
        ring_slot: Some(phys),
        ring_len: (ring.nprev + n + 1) as usize,
    }
}

/// Acceptance counts by column after a step: a column was reached when every draft before it was
/// accepted.
pub open spec fn columns_reached(counts: Seq<u64>, drafts: int, n: int) -> Seq<u64> {
    Seq::new(
        counts.len(),
        |k: int|
            if k < drafts && n >= k {
                (counts[k] + 1) as u64
            } else {
                counts[k]
            },
    )
}

/// Acceptance counts by column after a step: the drafts that were accepted.
pub open spec fn columns_accepted(counts: Seq<u64>, drafts: int, n: int) -> Seq<u64> {
    Seq::new(
        counts.len(),
        |k: int|
            if k < drafts && n > k {
                (counts[k] + 1) as u64
            } else {
                counts[k]
            },
    )
}

impl BatchScheduler {
    /// The selector's ring reaches up to lane `i`.
    pub open spec fn df2_ready(&self, i: int) -> bool {
        &&& self.df2 is Some
        &&& self.df2->0.nprev == self.lanes@[i].pos
        &&& self.stats.df2.room()
    }

    /// The block drafter's ring reaches up to lane `i`.
    pub open spec fn dspark_ready(&self, i: int, drafts: Seq<u32>) -> bool {
        &&& self.dspark is Some
        &&& self.dspark->0.nprev == self.lanes@[i].pos
        &&& drafts.len() == round::BLOCK
        &&& self.stats.dspark.room()
    }

    /// The drafter's context reaches up to lane `i`.
    pub open spec fn dflash_ready(&self, i: int, drafts: Seq<u32>) -> bool {
        &&& self.dflash is Some
        &&& self.dflash->0.row0 + self.dflash->0.ncols == self.lanes@[i].pos
        &&& drafts.len() + 1 == self.dflash->0.block
        &&& self.stats.dflash.room()
        &&& forall|k: int|
            0 <= k < MAX_BLOCK ==> #[trigger] self.stats.dflash_acc_a@[k] < u64::MAX
        &&& forall|k: int|
            0 <= k < MAX_BLOCK ==> #[trigger] self.stats.dflash_acc_n@[k] < u64::MAX
    }

    /// Only the selector's ring and its counts have moved, besides the lane.
    pub open spec fn df2_moved(&self, before: &BatchScheduler, i: int, drafts: int, e: Emission) -> bool {
        &&& steps::others_kept(*before, *self, i)
        &&& self.mtp == before.mtp
        &&& self.dspark == before.dspark
        &&& self.dflash == before.dflash
        &&& self.slots.dspark_len == before.slots.dspark_len
        &&& self.stats == (Stats {
            df2: scheduler::stepped(
                before.stats.df2,
                drafts,
                e.accepted as int,
                e.tokens@.len() as int,
            ),
            ..before.stats
        })
        &&& self.df2 == Some(
            ring_advanced(before.df2->0, before.lanes@[i].phys, e.accepted as int),
        )
    }

    /// Only the block drafter's ring and its counts have moved, besides the lane.
    pub open spec fn dspark_moved(
        &self,
        before: &BatchScheduler,
        i: int,
        drafts: int,
        e: Emission,
    ) -> bool {
        &&& steps::others_kept(*before, *self, i)
        &&& self.mtp == before.mtp
        &&& self.df2 == before.df2
        &&& self.dflash == before.dflash
        &&& self.stats == (Stats {
            dspark: scheduler::stepped(
                before.stats.dspark,
                drafts,
                e.accepted as int,
                e.tokens@.len() as int,
            ),
            ..before.stats
        })
        &&& self.dspark is Some
        &&& self.dspark->0.nprev == before.dspark->0.nprev + e.accepted + 1
        &&& self.dspark->0.max_c == before.dspark->0.max_c
    }

    fn advance_df2(&mut self, phys: usize, n: usize, drafts: usize, emitted: usize)
        requires
            old(self).df2 is Some,
            old(self).df2->0.nprev + n + 1 <= usize::MAX,
            old(self).stats.df2.room(),
            drafts <= 0x1_0000,
            n <= 0x1_0000,
            emitted <= 0x1_0000,
        ensures
            *final(self) == (BatchScheduler {
                df2: Some(ring_advanced(old(self).df2->0, phys, n as int)),
                stats: final(self).stats,
                ..*old(self)
            }),
            final(self).stats == (Stats {
                df2: scheduler::stepped(old(self).stats.df2, drafts as int, n as int, emitted as int),
                ..old(self).stats
            }),
    {
        match &mut self.df2 {
            Some(d) => {
                let frontier: usize = d.nprev + n + 1;
                d.rewind(frontier);
                d.note_ring(phys);
            },
            None => {},
        }
        self.stats.df2.count(drafts, n, emitted);
    }

    fn advance_dspark(&mut self, n: usize, drafts: usize, emitted: usize)
        requires
            old(self).dspark is Some,
            old(self).dspark->0.nprev + n + 1 <= usize::MAX,
            old(self).stats.dspark.room(),
            drafts <= 0x1_0000,
            n <= 0x1_0000,
            emitted <= 0x1_0000,
        ensures
            *final(self) == (BatchScheduler {
                dspark: Some(
                    DsparkRound {
                        nprev: (old(self).dspark->0.nprev + n + 1) as usize,
                        ..old(self).dspark->0
                    },
                ),
                stats: final(self).stats,
                ..*old(self)
            }),
            final(self).stats == (Stats {
                dspark: scheduler::stepped(
                    old(self).stats.dspark,
                    drafts as int,
                    n as int,
                    emitted as int,
                ),
                ..old(self).stats
            }),
    {
        match &mut self.dspark {
            Some(d) => {
                let frontier: usize = d.nprev + n + 1;
                d.rewind(frontier);
            },
            None => {},
        }
        self.stats.dspark.count(drafts, n, emitted);
    }

    /// A greedy step of the selector round.
    pub fn df2_lane_step(&mut self, i: usize, drafts: &Vec<u32>, preds: &Vec<u32>) -> (r: LaneStep)
        requires
            old(self).steppable(i as int, drafts@),
            old(self).df2_ready(i as int),
            drafts@.len() < preds@.len(),
        ensures
            final(self).wf(),
            final(self).df2_moved(old(self), i as int, drafts@.len() as int, r.emission),
            lane_steps::stand_drafts(drafts@, preds@, None, r.emission.accepted as int),
            steps::greedy_step(
                *old(self),
                *final(self),
                i as int,
                Drafter::Selector,
                drafts@,
                r.emission.accepted as int,
                preds@[r.emission.accepted as int],
                false,
                r.emission,
            ),
            r.restore == steps::restored(
                old(self).setup.layout.snapshot_slot as int,
                r.emission.accepted as int,
                drafts@.len() as int + 1,
            ),
            r.fed@ == steps::fed_tokens(
                old(self).lanes@[i as int].last_tok,
                drafts@,
                r.emission.accepted as int,
            ),
    {
        let n: usize = lane_steps::accepted(drafts, preds, None);
        let committed: u32 = self.lanes[i].last_tok;
        let phys: usize = self.lanes[i].phys;
        assert(self.lane_ok(self.lanes@[i as int]));
        let emission = self.greedy_lane(i, Drafter::Selector, drafts, n, preds[n], false);
        let ghost moved = *self;
        self.advance_df2(phys, n, drafts.len(), emission.tokens.len());
        proof {
            BatchScheduler::lemma_counts_keep_wf(moved, *self);
        }
        LaneStep {
            restore: lane_steps::restore_slot(self.setup.layout.snapshot_slot, n, drafts.len() + 1),
            fed: lane_steps::fed(committed, drafts, n),
            emission,
        }
    }

    /// A sampled step of the selector round. `ratios` holds the ratio of the target's probability
    /// of each draft to the drafter's.
    fn df2_sampled(
        &mut self,
        i: usize,
        drafts: &Vec<u32>,
        ratios: &Vec<Single>,
        resid: &Vec<u32>,
        bonus: u32,
    ) -> (r: LaneStep)
        requires
            old(self).steppable(i as int, drafts@),
            old(self).df2_ready(i as int),
            drafts@.len() <= ratios@.len(),
            drafts@.len() <= resid@.len(),
        ensures
            final(self).wf(),
            final(self).df2_moved(old(self), i as int, drafts@.len() as int, r.emission),
            commit::draws_accept(
                old(self).lanes@[i as int].seed,
                ratios@,
                drafts@.len() as int,
                r.emission.accepted as int,
            ),
            steps::sampled_step(
                *old(self),
                *final(self),
                i as int,
                Drafter::Selector,
                drafts@,
                commit::resampled(drafts@, resid@, bonus, r.emission.accepted as int),
                r.emission.accepted as int,
                r.emission,
            ),
            r.restore == steps::restored(
                old(self).setup.layout.snapshot_slot as int,
                r.emission.accepted as int,
                drafts@.len() as int + 1,
            ),
            r.fed@ == steps::fed_tokens(
                old(self).lanes@[i as int].last_tok,
                drafts@,
                r.emission.accepted as int,
            ),
    {
        let (list, n) = commit::reject_sample(self.lanes[i].seed, drafts, ratios, resid, bonus);
        let committed: u32 = self.lanes[i].last_tok;
        let phys: usize = self.lanes[i].phys;
        assert(self.lane_ok(self.lanes@[i as int]));
        let emission = self.sampled_lane(i, Drafter::Selector, drafts, &list, n);
        let ghost moved = *self;
        self.advance_df2(phys, n, drafts.len(), emission.tokens.len());
        proof {
            BatchScheduler::lemma_counts_keep_wf(moved, *self);
        }
        LaneStep {
            restore: lane_steps::restore_slot(self.setup.layout.snapshot_slot, n, drafts.len() + 1),
            fed: lane_steps::fed(committed, drafts, n),
            emission,
        }
    }

    /// A sampled step of the selector round with greedy drafts: the ratio is the target's
    /// probability `p` of the draft.
    pub fn df2_lane_step_sample(
        &mut self,
        i: usize,
        drafts: &Vec<u32>,
        p: &Vec<Single>,
        resid: &Vec<u32>,
        bonus: u32,
    ) -> (r: LaneStep)
        requires
            old(self).steppable(i as int, drafts@),
            old(self).df2_ready(i as int),
            drafts@.len() <= p@.len(),
            drafts@.len() <= resid@.len(),
        ensures
            final(self).wf(),
            final(self).df2_moved(old(self), i as int, drafts@.len() as int, r.emission),
            commit::draws_accept(
                old(self).lanes@[i as int].seed,
                p@,
                drafts@.len() as int,
                r.emission.accepted as int,
            ),
            steps::sampled_step(
                *old(self),
                *final(self),
                i as int,
                Drafter::Selector,
                drafts@,
                commit::resampled(drafts@, resid@, bonus, r.emission.accepted as int),
                r.emission.accepted as int,
                r.emission,
            ),
            r.restore == steps::restored(
                old(self).setup.layout.snapshot_slot as int,
                r.emission.accepted as int,
                drafts@.len() as int + 1,
            ),
            r.fed@ == steps::fed_tokens(
                old(self).lanes@[i as int].last_tok,
                drafts@,
                r.emission.accepted as int,
            ),
    {
        self.df2_sampled(i, drafts, p, resid, bonus)
    }

    /// A sampled step of the selector round with sampled drafts: `ratios` holds the target's
    /// probability over the selector's, at most one.
    pub fn df2_lane_step_sample_rq(
        &mut self,
        i: usize,
        drafts: &Vec<u32>,
        ratios: &Vec<Single>,
        resid: &Vec<u32>,
        bonus: u32,
    ) -> (r: LaneStep)
        requires
            old(self).steppable(i as int, drafts@),
            old(self).df2_ready(i as int),
            drafts@.len() <= ratios@.len(),
            drafts@.len() <= resid@.len(),
        ensures
            final(self).wf(),
            final(self).df2_moved(old(self), i as int, drafts@.len() as int, r.emission),
            commit::draws_accept(
                old(self).lanes@[i as int].seed,
                ratios@,
                drafts@.len() as int,
                r.emission.accepted as int,
            ),
            steps::sampled_step(
                *old(self),
                *final(self),
                i as int,
                Drafter::Selector,
                drafts@,
                commit::resampled(drafts@, resid@, bonus, r.emission.accepted as int),
                r.emission.accepted as int,
                r.emission,
            ),
            r.restore == steps::restored(
                old(self).setup.layout.snapshot_slot as int,
                r.emission.accepted as int,
                drafts@.len() as int + 1,
            ),
            r.fed@ == steps::fed_tokens(
                old(self).lanes@[i as int].last_tok,
                drafts@,
                r.emission.accepted as int,
            ),
    {
        self.df2_sampled(i, drafts, ratios, resid, bonus)
    }

    /// A greedy step of the block drafter with a ring. The ring is bound to the lane's slot, over
    /// the whole sequence that the slot has consumed.
    pub fn dspark_lane_step(&mut self, i: usize, drafts: &Vec<u32>, preds: &Vec<u32>) -> (r:
        LaneStep)
        requires
            old(self).steppable(i as int, drafts@),
            old(self).dspark_ready(i as int, drafts@),
            drafts@.len() < preds@.len(),
            forall|n: int| #[trigger]
                lane_steps::stand_drafts(drafts@, preds@, None, n) ==> old(self).dspark->0.nprev + n
                    + 1 <= old(self).dspark->0.max_c,
        ensures
            final(self).wf(),
            final(self).dspark_moved(old(self), i as int, drafts@.len() as int, r.emission),
            final(self).dspark->0.nprev <= final(self).dspark->0.max_c,
            final(self).dspark->0.ring_slot == Some(old(self).lanes@[i as int].phys),
            final(self).slots.dspark_len@ == old(self).slots.dspark_len@.update(
                old(self).lanes@[i as int].phys as int,
                final(self).dspark->0.nprev,
            ),
            final(self).slots.cache@[old(self).lanes@[i as int].phys as int]@.len()
                == final(self).dspark->0.nprev,
            lane_steps::stand_drafts(drafts@, preds@, None, r.emission.accepted as int),
            steps::greedy_step(
                *old(self),
                *final(self),
                i as int,
                Drafter::Spark,
                drafts@,
                r.emission.accepted as int,
                preds@[r.emission.accepted as int],
                false,
                r.emission,
            ),
            r.restore == steps::restored(
                old(self).setup.layout.snapshot_slot as int,
                r.emission.accepted as int,
                drafts@.len() as int + 1,
            ),
            r.fed@ == steps::fed_tokens(
                old(self).lanes@[i as int].last_tok,
                drafts@,
                r.emission.accepted as int,
            ),
    {
        let n: usize = lane_steps::accepted(drafts, preds, None);
        let committed: u32 = self.lanes[i].last_tok;
        let phys: usize = self.lanes[i].phys;
        assert(self.lane_ok(self.lanes@[i as int]));
        proof {
            self.lemma_lane_slot(i as int);
        }
        let emission = self.greedy_lane(i, Drafter::Spark, drafts, n, preds[n], false);
        let ghost moved = *self;
        self.advance_dspark(n, drafts.len(), emission.tokens.len());
        let len: usize = self.slots.cache[phys].len();
        self.slots.dspark_len.set(phys, len);
        match &mut self.dspark {
            Some(d) => {
                d.note_ring(phys);
            },
            None => {},
        }
        proof {
            BatchScheduler::lemma_counts_keep_wf(moved, *self);
        }
        LaneStep {
            restore: lane_steps::restore_slot(self.setup.layout.snapshot_slot, n, drafts.len() + 1),
            fed: lane_steps::fed(committed, drafts, n),
            emission,
        }
    }

    /// A sampled step of the block drafter with a ring. Neither the claim on the ring nor the key
    /// of the draws moves.
    pub fn dspark_lane_step_sample(
        &mut self,
        i: usize,
        drafts: &Vec<u32>,
        p: &Vec<Single>,
        resid: &Vec<u32>,
        bonus: u32,
    ) -> (r: LaneStep)
        requires
            old(self).steppable(i as int, drafts@),
            old(self).dspark_ready(i as int, drafts@),
            drafts@.len() <= p@.len(),
            drafts@.len() <= resid@.len(),
            forall|n: int| #[trigger]
                commit::draws_accept(
                    old(self).lanes@[i as int].seed,
                    p@,
                    drafts@.len() as int,
                    n,
                ) ==> old(self).dspark->0.nprev + n + 1 <= old(self).dspark->0.max_c,
        ensures
            final(self).wf(),
            final(self).dspark_moved(old(self), i as int, drafts@.len() as int, r.emission),
            final(self).dspark->0.nprev <= final(self).dspark->0.max_c,
            final(self).dspark->0.ring_slot == old(self).dspark->0.ring_slot,
            final(self).slots.dspark_len == old(self).slots.dspark_len,
            commit::draws_accept(
                old(self).lanes@[i as int].seed,
                p@,
                drafts@.len() as int,
                r.emission.accepted as int,
            ),
            steps::sampled_step(
                *old(self),
                *final(self),
                i as int,
                Drafter::Spark,
                drafts@,
                commit::resampled(drafts@, resid@, bonus, r.emission.accepted as int),
                r.emission.accepted as int,
                r.emission,
            ),
            r.restore == steps::restored(
                old(self).setup.layout.snapshot_slot as int,
                r.emission.accepted as int,
                drafts@.len() as int + 1,
            ),
            r.fed@ == steps::fed_tokens(
                old(self).lanes@[i as int].last_tok,
                drafts@,
                r.emission.accepted as int,
            ),
    {
        let (list, n) = commit::reject_sample(self.lanes[i].seed, drafts, p, resid, bonus);
        let committed: u32 = self.lanes[i].last_tok;
        assert(self.lane_ok(self.lanes@[i as int]));
        let emission = self.sampled_lane(i, Drafter::Spark, drafts, &list, n);
        let ghost moved = *self;
        self.advance_dspark(n, drafts.len(), emission.tokens.len());
        proof {
            BatchScheduler::lemma_counts_keep_wf(moved, *self);
        }
        LaneStep {
            restore: lane_steps::restore_slot(self.setup.layout.snapshot_slot, n, drafts.len() + 1),
            fed: lane_steps::fed(committed, drafts, n),
            emission,
        }
    }

    /// The tokens of a draft block: the committed token, then masks.
    pub fn dflash_block(&self, i: usize) -> (v: Vec<u32>)
        requires
            i < self.lanes@.len(),
            self.dflash is Some,
        ensures
            v@ == seq![self.lanes@[i as int].last_tok] + Seq::new(
                (if self.dflash->0.block > 0 {
                    self.dflash->0.block - 1
                } else {
                    0
                }) as nat,
                |k: int| self.dflash->0.mask,
            ),
    {
        let mut v: Vec<u32> = Vec::new();
        v.push(self.lanes[i].last_tok);
        match &self.dflash {
            Some(d) => {
                let ghost first = self.lanes@[i as int].last_tok;
                while v.len() < d.block
                    invariant
                        1 <= v@.len(),
                        v@.len() <= d.block || v@.len() == 1,
                        v@ == seq![first] + Seq::new((v@.len() - 1) as nat, |k: int| d.mask),
                    decreases d.block - v@.len(),
                {
                    v.push(d.mask);
                    assert(v@ =~= seq![first] + Seq::new((v@.len() - 1) as nat, |k: int| d.mask));
                }
            },
            None => {},
        }
        v
    }

    /// A greedy step of the block drafter with a context feature. The columns that stand are what
    /// its context is extended by next.
    pub fn dflash_lane_step(&mut self, i: usize, drafts: &Vec<u32>, preds: &Vec<u32>) -> (r:
        LaneStep)
        requires
            old(self).steppable(i as int, drafts@),
            old(self).dflash_ready(i as int, drafts@),
            drafts@.len() < preds@.len(),
        ensures
            final(self).wf(),
            steps::others_kept(*old(self), *final(self), i as int),
            final(self).mtp == old(self).mtp,
            final(self).df2 == old(self).df2,
            final(self).dspark == old(self).dspark,
            final(self).slots.dspark_len == old(self).slots.dspark_len,
            final(self).dflash == Some(
                DflashLane {
                    row0: old(self).lanes@[i as int].pos,
                    ncols: (r.emission.accepted + 1) as usize,
                    ..old(self).dflash->0
                },
            ),
            final(self).stats == (Stats {
                dflash: scheduler::stepped(
                    old(self).stats.dflash,
                    drafts@.len() as int,
                    r.emission.accepted as int,
                    r.emission.tokens@.len() as int,
                ),
                dflash_acc_a: final(self).stats.dflash_acc_a,
                dflash_acc_n: final(self).stats.dflash_acc_n,
                ..old(self).stats
            }),
            final(self).stats.dflash_acc_n@ == columns_reached(
                old(self).stats.dflash_acc_n@,
                drafts@.len() as int,
                r.emission.accepted as int,
            ),
            final(self).stats.dflash_acc_a@ == columns_accepted(
                old(self).stats.dflash_acc_a@,
                drafts@.len() as int,
                r.emission.accepted as int,
            ),
            lane_steps::stand_drafts(drafts@, preds@, None, r.emission.accepted as int),
            steps::greedy_step(
                *old(self),
                *final(self),
                i as int,
                Drafter::Block,
                drafts@,
                r.emission.accepted as int,
                preds@[r.emission.accepted as int],
                false,
                r.emission,
            ),
            r.restore == steps::restored(
                old(self).setup.layout.snapshot_slot as int,
                r.emission.accepted as int,
                drafts@.len() as int + 1,
            ),
            r.fed@ == steps::fed_tokens(
                old(self).lanes@[i as int].last_tok,
                drafts@,
                r.emission.accepted as int,
            ),
    {
        let n: usize = lane_steps::accepted(drafts, preds, None);
        let committed: u32 = self.lanes[i].last_tok;
        let main_pos: usize = self.lanes[i].pos;
        let emission = self.greedy_lane(i, Drafter::Block, drafts, n, preds[n], false);
        let ghost moved = *self;
        match &mut self.dflash {
            Some(d) => {
                d.row0 = main_pos;
                d.ncols = n + 1;
            },
            None => {},
        }
        self.stats.dflash.count(drafts.len(), n, emission.tokens.len());
        let ghost a0 = self.stats.dflash_acc_a@;
        let ghost n0 = self.stats.dflash_acc_n@;
        let ghost counted = *self;
        let mut k: usize = 0;
        while k < drafts.len()
            invariant
                k <= drafts@.len() < MAX_BLOCK,
                a0.len() == MAX_BLOCK,
                n0.len() == MAX_BLOCK,
                forall|x: int| 0 <= x < MAX_BLOCK ==> #[trigger] a0[x] < u64::MAX,
                forall|x: int| 0 <= x < MAX_BLOCK ==> #[trigger] n0[x] < u64::MAX,
                self.stats.dflash_acc_a@ == columns_accepted(a0, k as int, n as int),
                self.stats.dflash_acc_n@ == columns_reached(n0, k as int, n as int),
                *self == (BatchScheduler { stats: self.stats, ..counted }),
                self.stats == (Stats {
                    dflash_acc_a: self.stats.dflash_acc_a,
                    dflash_acc_n: self.stats.dflash_acc_n,
                    ..counted.stats
                }),
            decreases drafts@.len() - k,
        {
            if n >= k {
                let c: u64 = self.stats.dflash_acc_n[k];
                assert(c == n0[k as int]);
                self.stats.dflash_acc_n.set(k, c + 1);
            }
            if n > k {
                let c: u64 = self.stats.dflash_acc_a[k];
                assert(c == a0[k as int]);
                self.stats.dflash_acc_a.set(k, c + 1);
            }
            k += 1;
            assert(self.stats.dflash_acc_a@ =~= columns_accepted(a0, k as int, n as int));
            assert(self.stats.dflash_acc_n@ =~= columns_reached(n0, k as int, n as int));
        }
        proof {
            BatchScheduler::lemma_counts_keep_wf(moved, *self);
        }
        LaneStep {
            restore: lane_steps::restore_slot(self.setup.layout.snapshot_slot, n, drafts.len() + 1),
            fed: lane_steps::fed(committed, drafts, n),
            emission,
        }
    }
}

/// A step of the block drafter makes the claim on its ring true: where the rows were those of what
/// the slot had consumed, they are again, and the claim covers all of it.
pub proof fn law_step_makes_the_claim_true(
    before: BatchScheduler,
    after: BatchScheduler,
    i: int,
    drafts: Seq<u32>,
    n: int,
    bonus: u32,
    e: Emission,
    rows: Seq<u32>,
)
    requires
        before.steppable(i, drafts),
        0 <= n <= drafts.len(),
        steps::greedy_step(before, after, i, Drafter::Spark, drafts, n, bonus, false, e),
        after.slots.dspark_len@[before.lanes@[i].phys as int]
            == after.slots.cache@[before.lanes@[i].phys as int]@.len(),
        rows == before.slots.cache@[before.lanes@[i].phys as int]@,
    ensures
        crate::batch::admission::claim_holds(
            after,
            rows + steps::fed_tokens(before.lanes@[i].last_tok, drafts, n),
            before.lanes@[i].phys,
        ),
{
    let l = before.lanes@[i];
    let now = after.slots.cache@[l.phys as int]@;
    assert(now =~= rows + steps::fed_tokens(l.last_tok, drafts, n));
}


/// A ring that was in step with its lane stays in step: behind a step that accepts `n` drafts it
/// holds the rows of one token more than that, and lays claim to all of them for the lane's slot.
pub proof fn law_rings_stay_in_step(ring: Df2Ring, phys: usize, n: int)
    requires
        0 <= n,
        ring.nprev + n + 1 <= usize::MAX,
    ensures
        ring_advanced(ring, phys, n).nprev == ring.nprev + n + 1,
        ring_advanced(ring, phys, n).ring_len == ring_advanced(ring, phys, n).nprev,
        ring_advanced(ring, phys, n).ring_slot == Some(phys),
{
}

/// A column counts as accepted where its draft was, and as reached where it is the first or the one
/// before it was accepted: `n` columns are accepted, and one more is reached unless all drafts were.
pub proof fn law_columns_are_reached_behind_accepted_ones(
    counts: Seq<u64>,
    drafts: int,
    n: int,
    k: int,
)
    requires
        0 <= n <= drafts <= counts.len(),
        0 <= k < counts.len(),
        forall|j: int| 0 <= j < counts.len() ==> #[trigger] counts[j] < u64::MAX,
    ensures
        columns_accepted(counts, drafts, n)[k] - counts[k] == if k < n {
            1int
        } else {
            0
        },
        columns_reached(counts, drafts, n)[k] - counts[k] == if k == 0 {
            if drafts > 0 {
                1int
            } else {
                0
            }
        } else if k < drafts {
            columns_accepted(counts, drafts, n)[k - 1] - counts[k - 1]
        } else {
            0
        },
{
    assert(counts[k] < u64::MAX);
    if k > 0 {
        assert(counts[k - 1] < u64::MAX);
    }
}

} // verus!
