//! Speculative steps: what a verify that came back from the device changes.
//!
//! The device drafts and verifies; what stands, what is emitted and what is remembered is decided
//! here. Every emitted token is the target's own choice behind the tokens before it.

use vstd::prelude::*;

use crate::batch::commit;
use crate::batch::commit::{Drafter, MaskChain};
use crate::batch::draft::MAX_VERIFY;
use crate::batch::lane;
use crate::batch::policy;
use crate::batch::scheduler;
use crate::batch::scheduler::BatchScheduler;
use crate::batch::steps;
use crate::batch::steps::LaneStep;
use crate::batch::tree;
use crate::dflash::config::MAX_BLOCK;
use crate::single::Single;

verus! {

/// `n` drafts stand: the longest prefix that the target chose, as far as a schema admits it.
pub open spec fn stand_drafts(
    drafts: Seq<u32>,
    preds: Seq<u32>,
    valid: Option<usize>,
    n: int,
) -> bool {
    let limit = match valid {
        Some(v) => v as int,
        None => drafts.len() as int,
    };
    tree::accepted_prefix(drafts.take(limit), preds, n)
}

pub(crate) fn accepted(drafts: &Vec<u32>, preds: &Vec<u32>, valid: Option<usize>) -> (n: usize)
    requires
        drafts@.len() < preds@.len(),
        valid matches Some(v) ==> v <= drafts@.len(),
    ensures
        stand_drafts(drafts@, preds@, valid, n as int),
        n <= drafts@.len(),
{
    let all: usize = tree::accept_prefix(drafts, preds);
    match valid {
        Some(v) => {
            let n: usize = if all < v {
                all
            } else {
                v
            };
            let ghost part = drafts@.take(v as int);
            assert forall|j: int| 0 <= j < n implies #[trigger] preds@[j] == part[j] by {
                assert(preds@[j] == drafts@[j]);
            }
            n
        },
        None => {
            assert(drafts@.take(drafts@.len() as int) =~= drafts@);
            all
        },
    }
}

/// The tokens that a step fed and that stand.
pub(crate) fn fed(committed: u32, drafts: &Vec<u32>, n: usize) -> (v: Vec<u32>)
    requires
        n <= drafts@.len(),
    ensures
        v@ == steps::fed_tokens(committed, drafts@, n as int),
{
    let mut v: Vec<u32> = Vec::new();
    v.push(committed);
    let mut k: usize = 0;
    assert(v@ =~= steps::fed_tokens(committed, drafts@, 0));
    while k < n
        invariant
            k <= n <= drafts@.len(),
            v@ == steps::fed_tokens(committed, drafts@, k as int),
        decreases n - k,
    {
        v.push(drafts[k]);
        k += 1;
        assert(v@ =~= steps::fed_tokens(committed, drafts@, k as int));
    }
    v
}

/// The checkpoint to go back to.
pub(crate) fn restore_slot(snapshot: usize, column: usize, width: usize) -> (r: Option<usize>)
    requires
        snapshot + column <= usize::MAX,
        column < width,
    ensures
        r == steps::restored(snapshot as int, column as int, width as int),
{
    if column == width - 1 {
        None
    } else {
        Some(snapshot + column)
    }
}

impl BatchScheduler {
    /// The counts of the policy and of the head can take another step.
    pub open spec fn head_room(&self) -> bool {
        &&& self.mtp.room()
        &&& self.stats.mtp.room()
        &&& self.stats.mtp_verify_fwds < u64::MAX
    }

    /// The drafters and their counts are as before.
    pub open spec fn drafters_kept(&self, before: &BatchScheduler) -> bool {
        &&& self.df2 == before.df2
        &&& self.dspark == before.dspark
        &&& self.dflash == before.dflash
        &&& self.slots.dspark_len == before.slots.dspark_len
        &&& self.stats.df2 == before.stats.df2
        &&& self.stats.tree_steps == before.stats.tree_steps
        &&& self.stats.tree_nodes == before.stats.tree_nodes
        &&& self.stats.tree_rescues == before.stats.tree_rescues
        &&& self.stats.dspark == before.stats.dspark
        &&& self.stats.dflash == before.stats.dflash
        &&& self.stats.dflash_acc_a == before.stats.dflash_acc_a
        &&& self.stats.dflash_acc_n == before.stats.dflash_acc_n
    }

    /// A step of the head was counted.
    pub open spec fn head_counted(
        &self,
        before: &BatchScheduler,
        drafts: int,
        n: int,
        emitted: int,
    ) -> bool {
        &&& self.stats.mtp == scheduler::stepped(before.stats.mtp, drafts, n, emitted)
        &&& self.stats.mtp_verify_fwds == before.stats.mtp_verify_fwds + 1
        &&& policy::recorded(before.mtp, self.mtp, drafts as u64, n as u64, emitted as u64)
    }

    pub(crate) fn count_head(&mut self, drafts: usize, n: usize, emitted: usize)
        requires
            old(self).head_room(),
            old(self).mtp.wf(),
            drafts <= MAX_VERIFY,
            n <= MAX_VERIFY,
            emitted <= MAX_VERIFY,
        ensures
            final(self).mtp.wf(),
            final(self).head_counted(old(self), drafts as int, n as int, emitted as int),
            *final(self) == (BatchScheduler {
                mtp: final(self).mtp,
                stats: final(self).stats,
                ..*old(self)
            }),
            final(self).drafters_kept(old(self)),
    {
        self.stats.mtp.count(drafts, n, emitted);
        self.stats.mtp_verify_fwds = self.stats.mtp_verify_fwds + 1;
        self.mtp.record_step(drafts as u64, n as u64, emitted as u64);
    }

    /// Masks the columns of lane `i`'s verify along the drafts, where the lane has a schema.
    pub fn lane_masks(&mut self, i: usize, drafts: &Vec<u32>, words: usize) -> (r: Option<
        MaskChain,
    >)
        requires
            old(self).steppable(i as int, drafts@),
        ensures
            final(self).wf(),
            steps::only_lane(*old(self), *final(self), i as int),
            final(self).slots.cache == old(self).slots.cache,
            final(self).done == old(self).done,
            final(self).lanes@[i as int] == (lane::Lane {
                schema: final(self).lanes@[i as int].schema,
                ..old(self).lanes@[i as int]
            }),
            match old(self).lanes@[i as int].schema {
                None => r is None && final(self).lanes@[i as int].schema is None,
                Some(m) => r is Some && final(self).lanes@[i as int].schema is Some
                    && commit::masks_columns(
                    m,
                    final(self).lanes@[i as int].schema->0,
                    old(self).lanes@[i as int].schema_state,
                    drafts@,
                    words as int,
                    r->0,
                ),
            },
    {
        let ghost before = *self;
        assert(before.lane_known(before.lanes@[i as int]));
        assert(before.lane_ok(before.lanes@[i as int]));
        let state: u32 = self.lanes[i].schema_state;
        let r = match &mut self.lanes[i].schema {
            Some(m) => Some(commit::mask_chain(m, state, drafts, words)),
            None => None,
        };
        proof {
            assert(self.lane_ok(self.lanes@[i as int]));
            BatchScheduler::lemma_step_keeps_wf(before, *self, i as int);
        }
        r
    }

    /// A greedy step of the head's chain: the drafts that the target chose stand, up to what the
    /// schema admits, and the target's choice behind them is emitted too.
    pub fn mtp_lane_step(
        &mut self,
        i: usize,
        drafts: &Vec<u32>,
        preds: &Vec<u32>,
        valid: Option<usize>,
    ) -> (r: LaneStep)
        requires
            old(self).steppable(i as int, drafts@),
            old(self).head_room(),
            drafts@.len() < preds@.len(),
            valid matches Some(v) ==> v <= drafts@.len(),
        ensures
            final(self).wf(),
            steps::others_kept(*old(self), *final(self), i as int),
            final(self).drafters_kept(old(self)),
            stand_drafts(drafts@, preds@, valid, r.emission.accepted as int),
            steps::greedy_step(
                *old(self),
                *final(self),
                i as int,
                Drafter::Head,
                drafts@,
                r.emission.accepted as int,
                preds@[r.emission.accepted as int],
                true,
                r.emission,
            ),
            r.restore == steps::restored(
                old(self).setup.layout.snapshot_slot as int,
                r.emission.accepted as int,
                drafts@.len() as int + 1,
            ),
            r.fed@ == steps::fed_tokens(
                old(self).lanes@[i as int].last_tok,
                drafts@,
                r.emission.accepted as int,
            ),
            final(self).head_counted(
                old(self),
                drafts@.len() as int,
                r.emission.accepted as int,
                r.emission.tokens@.len() as int,
            ),
    {
        let n: usize = accepted(drafts, preds, valid);
        let committed: u32 = self.lanes[i].last_tok;
        let emission = self.greedy_lane(i, Drafter::Head, drafts, n, preds[n], true);
        let ghost moved = *self;
        self.count_head(drafts.len(), n, emission.tokens.len());
        proof {
            BatchScheduler::lemma_counts_keep_wf(moved, *self);
        }
        LaneStep {
            restore: restore_slot(self.setup.layout.snapshot_slot, n, drafts.len() + 1),
            fed: fed(committed, drafts, n),
            emission,
        }
    }

    /// The invariant does not look at the counts and the frontiers of the drafters.
    pub proof fn lemma_counts_keep_wf(before: BatchScheduler, after: BatchScheduler)
        requires
            before.wf(),
            after == (BatchScheduler {
                mtp: after.mtp,
                stats: after.stats,
                df2: after.df2,
                dspark: after.dspark,
                dflash: after.dflash,
                slots: after.slots,
                ..before
            }),
            after.slots == (crate::batch::slots::Slots {
                dspark_len: after.slots.dspark_len,
                ..before.slots
            }),
            after.slots.dspark_len@.len() == before.slots.dspark_len@.len(),
            after.mtp.wf(),
            before.df2 is Some <==> after.df2 is Some,
            before.dspark is Some <==> after.dspark is Some,
            after.stats.dflash_acc_a@.len() == MAX_BLOCK,
            after.stats.dflash_acc_n@.len() == MAX_BLOCK,
        ensures
            after.wf(),
    {
        assert forall|s: usize| #[trigger] after.holders(s) == before.holders(s) by {}
        assert forall|i: int| 0 <= i < after.lanes@.len() implies after.lane_known(
            #[trigger] after.lanes@[i],
        ) by {
            assert(before.lane_known(before.lanes@[i]));
        }
        assert forall|i: int| 0 <= i < after.lanes@.len() && !after.done@[i] implies after.lane_ok(
            #[trigger] after.lanes@[i],
        ) by {
            assert(before.lane_ok(before.lanes@[i]));
        }
        match after.pf {
            Some(c) => {
                assert(before.cursor_ok(c));
            },
            None => {},
        }
    }

    /// A sampled step of the head's chain. `p` holds the target's probability of each draft,
    /// `resid` the replacements.
    pub fn mtp_lane_step_sample(
        &mut self,
        i: usize,
        drafts: &Vec<u32>,
        p: &Vec<Single>,
        resid: &Vec<u32>,
        bonus: u32,
    ) -> (r: LaneStep)
        requires
            old(self).steppable(i as int, drafts@),
            old(self).head_room(),
            drafts@.len() <= p@.len(),
            drafts@.len() <= resid@.len(),
        ensures
            final(self).wf(),
            steps::others_kept(*old(self), *final(self), i as int),
            final(self).drafters_kept(old(self)),
            commit::draws_accept(
                old(self).lanes@[i as int].seed,
                p@.map_values(|x: Single| x.at_most_one()),
                drafts@.len() as int,
                r.emission.accepted as int,
            ),
            steps::sampled_step(
                *old(self),
                *final(self),
                i as int,
                Drafter::Head,
                drafts@,
                commit::resampled(drafts@, resid@, bonus, r.emission.accepted as int),
                r.emission.accepted as int,
                r.emission,
            ),
            r.restore == steps::restored(
                old(self).setup.layout.snapshot_slot as int,
                r.emission.accepted as int,
                drafts@.len() as int + 1,
            ),
            r.fed@ == steps::fed_tokens(
                old(self).lanes@[i as int].last_tok,
                drafts@,
                r.emission.accepted as int,
            ),
            final(self).head_counted(
                old(self),
                drafts@.len() as int,
                r.emission.accepted as int,
                r.emission.tokens@.len() as int,
            ),
    {
        let ratios = commit::point_ratios(p);
        let (list, n) = commit::reject_sample(self.lanes[i].seed, drafts, &ratios, resid, bonus);
        let committed: u32 = self.lanes[i].last_tok;
        let emission = self.sampled_lane(i, Drafter::Head, drafts, &list, n);
        let ghost moved = *self;
        self.count_head(drafts.len(), n, emission.tokens.len());
        proof {
            BatchScheduler::lemma_counts_keep_wf(moved, *self);
        }
        LaneStep {
            restore: restore_slot(self.setup.layout.snapshot_slot, n, drafts.len() + 1),
            fed: fed(committed, drafts, n),
            emission,
        }
    }
}


/// The drafts that stand are as many as can: any number of drafts that the target chose, and that
/// the schema admits, is at most that.
pub proof fn law_as_many_drafts_stand_as_can(
    drafts: Seq<u32>,
    preds: Seq<u32>,
    valid: Option<usize>,
    n: int,
    m: int,
)
    requires
        stand_drafts(drafts, preds, valid, n),
        drafts.len() <= preds.len(),
        valid matches Some(v) ==> v <= drafts.len(),
        0 <= m <= drafts.len(),
    ensures
        (m <= n) == (drafts.take(m) == preds.take(m) && (valid is Some ==> m <= valid->0)),
{
    let limit = match valid {
        Some(v) => v as int,
        None => drafts.len() as int,
    };
    let part = drafts.take(limit);
    if m <= limit {
        tree::law_the_accepted_prefix_is_the_longest(part, preds, n, m);
        assert(part.take(m) =~= drafts.take(m));
    }
}


/// The other drafters, their claims and their counts are not touched by a step of the head, which
/// counts one step and one verify.
pub proof fn law_a_step_of_the_head_counts_for_the_head(
    before: BatchScheduler,
    after: BatchScheduler,
    drafts: int,
    n: int,
    emitted: int,
)
    requires
        after.drafters_kept(&before),
        after.head_counted(&before, drafts, n, emitted),
        before.stats.mtp.room(),
        0 <= n <= drafts <= 0x1_0000,
        0 <= emitted <= 0x1_0000,
    ensures
        after.df2 == before.df2 && after.dspark == before.dspark && after.dflash == before.dflash,
        after.slots.dspark_len == before.slots.dspark_len,
        after.stats.df2 == before.stats.df2 && after.stats.dspark == before.stats.dspark
            && after.stats.dflash == before.stats.dflash,
        after.stats.mtp.steps == before.stats.mtp.steps + 1,
        after.stats.mtp.drafts == before.stats.mtp.drafts + drafts,
        after.stats.mtp.accepted == before.stats.mtp.accepted + n,
        after.stats.mtp.emitted == before.stats.mtp.emitted + emitted,
        after.stats.mtp_verify_fwds == before.stats.mtp_verify_fwds + 1,
        after.mtp.win_steps == before.mtp.win_steps + 1,
        after.mtp.win_drafts == before.mtp.win_drafts + drafts,
        after.mtp.win_accepted == before.mtp.win_accepted + n,
        after.mtp.win_emitted == before.mtp.win_emitted + emitted,
        after.mtp.depth == before.mtp.depth && after.mtp.active == before.mtp.active,
{
    scheduler::law_steps_are_counted(before.stats.mtp, drafts, n, emitted);
}

} // verus!
