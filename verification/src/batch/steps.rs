//! Committing a step to a lane of the scheduler.

use vstd::prelude::*;

use crate::batch::commit;
use crate::batch::commit::{Drafter, Emission};
use crate::batch::draft::MAX_VERIFY;
use crate::batch::scheduler;
use crate::batch::scheduler::BatchScheduler;
use crate::dflash::config;

verus! {

/// What a step yields, and what the device does next.
pub struct LaneStep {
    pub emission: Emission,
    /// The checkpoint that the slot's state goes back to.
    pub restore: Option<usize>,
    /// Tokens that the verify fed and that stand.
    pub fed: Vec<u32>,
}

/// The tokens that a step fed and that stand.
pub open spec fn fed_tokens(committed: u32, drafts: Seq<u32>, n: int) -> Seq<u32> {
    seq![committed] + drafts.take(n)
}

/// The checkpoint to go back to: the last column that stands, unless the verify ended there.
pub open spec fn restored(snapshot: int, column: int, width: int) -> Option<usize> {
    if column + 1 == width {
        None
    } else {
        Some((snapshot + column) as usize)
    }
}

/// What a step of lane `i` leaves alone besides the drafters, the policy and the counts.
pub open spec fn others_kept(before: BatchScheduler, after: BatchScheduler, i: int) -> bool {
    &&& after.setup == before.setup
    &&& after.pf == before.pf
    &&& after.free_slots == before.free_slots
    &&& after.df2_prime == before.df2_prime
    &&& after.dspark_prime == before.dspark_prime
    &&& after.dflash_prime_armed == before.dflash_prime_armed
    &&& after.dflash_prime_done == before.dflash_prime_done
    &&& after.resident_dirty == before.resident_dirty
    &&& after.pen_had == before.pen_had
    &&& after.pen_key == before.pen_key
    &&& after.lanes@.len() == before.lanes@.len()
    &&& forall|j: int|
        0 <= j < before.lanes@.len() && j != i ==> #[trigger] after.lanes@[j] == before.lanes@[j]
    &&& after.slots.cache_images == before.slots.cache_images
    &&& after.slots.ckpt_seq == before.slots.ckpt_seq
    &&& after.slots.ckpt_images == before.slots.ckpt_images
    &&& after.slots.ring_len == before.slots.ring_len
    &&& after.slots.ring_cursor == before.slots.ring_cursor
    &&& after.slots.cache@.len() == before.slots.cache@.len()
    &&& forall|s: int|
        0 <= s < before.slots.cache@.len() && s != before.lanes@[i].phys
            ==> #[trigger] after.slots.cache@[s] == before.slots.cache@[s]
}

/// Everything but lane `i` and the tokens of its slot is as before.
pub open spec fn only_lane(before: BatchScheduler, after: BatchScheduler, i: int) -> bool {
    &&& others_kept(before, after, i)
    &&& after.mtp == before.mtp
    &&& after.df2 == before.df2
    &&& after.dspark == before.dspark
    &&& after.dflash == before.dflash
    &&& after.stats == before.stats
    &&& after.slots.dspark_len == before.slots.dspark_len
}

/// A greedy step of lane `i` with `n` accepted drafts.
pub open spec fn greedy_step(
    before: BatchScheduler,
    after: BatchScheduler,
    i: int,
    drafter: Drafter,
    drafts: Seq<u32>,
    n: int,
    bonus: u32,
    masked: bool,
    e: Emission,
) -> bool {
    let l = before.lanes@[i];
    &&& commit::commits_greedy(
        l,
        after.lanes@[i],
        before.setup.eos@,
        drafter,
        drafts,
        n,
        bonus,
        masked,
        e,
    )
    &&& after.slots.cache@[l.phys as int]@ == commit::consumed(
        before.slots.cache@[l.phys as int]@,
        l.last_tok,
        drafts,
        n,
    )
    &&& after.done@ == before.done@.update(i, e.finished)
}

/// A sampled step of lane `i` with `n` accepted drafts.
pub open spec fn sampled_step(
    before: BatchScheduler,
    after: BatchScheduler,
    i: int,
    drafter: Drafter,
    drafts: Seq<u32>,
    list: Seq<u32>,
    n: int,
    e: Emission,
) -> bool {
    let l = before.lanes@[i];
    &&& commit::commits_sampled(l, after.lanes@[i], before.setup.eos@, drafter, list, n, e)
    &&& after.slots.cache@[l.phys as int]@ == commit::consumed(
        before.slots.cache@[l.phys as int]@,
        l.last_tok,
        drafts,
        n,
    )
    &&& after.done@ == before.done@.update(i, e.finished)
}

impl BatchScheduler {
    /// Lane `i` can take a step with so many drafts.
    pub open spec fn steppable(&self, i: int, drafts: Seq<u32>) -> bool {
        &&& self.wf()
        &&& 0 <= i < self.lanes@.len()
        &&& !self.done@[i]
        &&& drafts.len() < MAX_VERIFY
    }

    /// The invariant survives a step that moves lane `i` and the tokens of its slot.
    pub proof fn lemma_step_keeps_wf(before: BatchScheduler, after: BatchScheduler, i: int)
        requires
            before.wf(),
            0 <= i < before.lanes@.len(),
            others_kept(before, after, i),
            after.lanes@[i].phys == before.lanes@[i].phys,
            after.lane_known(after.lanes@[i]),
            after.done@.len() == before.done@.len(),
            forall|j: int|
                0 <= j < before.done@.len() && j != i ==> #[trigger] after.done@[j]
                    == before.done@[j],
            !after.done@[i] ==> after.lane_ok(after.lanes@[i]),
            after.mtp.wf(),
            after.slots.dspark_len@.len() == before.slots.dspark_len@.len(),
            before.df2 is Some <==> after.df2 is Some,
            before.dspark is Some <==> after.dspark is Some,
            after.stats.dflash_acc_a@.len() == config::MAX_BLOCK,
            after.stats.dflash_acc_n@.len() == config::MAX_BLOCK,
        ensures
            after.wf(),
    {
        before.lemma_lane_slot(i);
        assert(scheduler::lane_slots(after.lanes@) =~= scheduler::lane_slots(before.lanes@)) by {
            assert forall|j: int| 0 <= j < before.lanes@.len() implies after.lanes@[j].phys
                == before.lanes@[j].phys by {
                if j != i {
                    assert(after.lanes@[j] == before.lanes@[j]);
                }
            }
        }
        assert(after.slots_held()) by {
            assert forall|s: usize| #[trigger] after.holders(s) == if s < after.setup.max_batch {
                1int
            } else {
                0
            } by {
                assert(after.holders(s) == before.holders(s));
            }
        }
        assert forall|j: int| 0 <= j < after.lanes@.len() implies after.lane_known(
            #[trigger] after.lanes@[j],
        ) by {
            if j != i {
                assert(after.lanes@[j] == before.lanes@[j]);
                assert(before.lane_known(before.lanes@[j]));
            }
        }
        assert forall|j: int| 0 <= j < after.lanes@.len() && !after.done@[j] implies after.lane_ok(
            #[trigger] after.lanes@[j],
        ) by {
            if j != i {
                assert(after.lanes@[j] == before.lanes@[j]);
                assert(after.done@[j] == before.done@[j]);
                assert(before.lane_ok(before.lanes@[j]));
                before.lemma_lane_slot(j);
                let p = before.lanes@[j].phys as int;
                assert(after.slots.cache@[p] == before.slots.cache@[p]);
            }
        }
        assert(after.slots.wf(after.setup.max_batch as int)) by {
            assert forall|s: int| 0 <= s < after.setup.max_batch implies (
            #[trigger] after.slots.ring_len@[s])@.len() == crate::batch::slots::RING_CKPT_K
                && crate::batch::slots::on_grid(after.slots.ring_len@[s]@) by {
                assert(before.slots.ring_len@[s]@.len() == crate::batch::slots::RING_CKPT_K);
            }
        }
        match after.pf {
            Some(c) => {
                assert(before.cursor_ok(c));
            },
            None => {},
        }
    }

    /// Commits a greedy step to lane `i`.
    pub(crate) fn greedy_lane(
        &mut self,
        i: usize,
        drafter: Drafter,
        drafts: &Vec<u32>,
        n: usize,
        bonus: u32,
        masked: bool,
    ) -> (e: Emission)
        requires
            old(self).steppable(i as int, drafts@),
            n <= drafts@.len(),
        ensures
            final(self).wf(),
            only_lane(*old(self), *final(self), i as int),
            greedy_step(
                *old(self),
                *final(self),
                i as int,
                drafter,
                drafts@,
                n as int,
                bonus,
                masked,
                e,
            ),
            e.tokens@.len() <= n + 1,
    {
        let ghost before = *self;
        proof {
            before.lemma_lane_slot(i as int);
            assert(before.lane_ok(before.lanes@[i as int]));
            assert(before.lane_known(before.lanes@[i as int]));
        }
        let phys: usize = self.lanes[i].phys;
        let e = commit::commit_greedy(
            &mut self.lanes[i],
            &mut self.slots.cache[phys],
            &self.setup.eos,
            drafter,
            drafts,
            n,
            bonus,
            masked,
        );
        self.done.set(i, e.finished);
        proof {
            let l0 = before.lanes@[i as int];
            let l1 = self.lanes@[i as int];
            assert(others_kept(before, *self, i as int));
            if !e.finished {
                let list = commit::offered(drafts@, n as int, bonus);
                commit::law_unfinished_emits_everything(
                    list,
                    l0.generated as int,
                    l0.params,
                    before.setup.eos@,
                    e.tokens@.len() as int,
                );
                assert(self.lane_ok(l1));
            }
            BatchScheduler::lemma_step_keeps_wf(before, *self, i as int);
        }
        e
    }

    /// Commits a sampled step to lane `i`.
    pub(crate) fn sampled_lane(
        &mut self,
        i: usize,
        drafter: Drafter,
        drafts: &Vec<u32>,
        list: &Vec<u32>,
        n: usize,
    ) -> (e: Emission)
        requires
            old(self).steppable(i as int, drafts@),
            n <= drafts@.len(),
            list@.len() == n + 1,
        ensures
            final(self).wf(),
            only_lane(*old(self), *final(self), i as int),
            sampled_step(
                *old(self),
                *final(self),
                i as int,
                drafter,
                drafts@,
                list@,
                n as int,
                e,
            ),
            e.tokens@.len() <= n + 1,
    {
        let ghost before = *self;
        proof {
            before.lemma_lane_slot(i as int);
            assert(before.lane_ok(before.lanes@[i as int]));
            assert(before.lane_known(before.lanes@[i as int]));
        }
        let phys: usize = self.lanes[i].phys;
        let e = commit::commit_sampled(
            &mut self.lanes[i],
            &mut self.slots.cache[phys],
            &self.setup.eos,
            drafter,
            drafts,
            list,
            n,
        );
        self.done.set(i, e.finished);
        proof {
            let l0 = before.lanes@[i as int];
            let l1 = self.lanes@[i as int];
            assert(others_kept(before, *self, i as int));
            if !e.finished {
                commit::law_unfinished_emits_everything(
                    list@,
                    l0.generated as int,
                    l0.params,
                    before.setup.eos@,
                    e.tokens@.len() as int,
                );
                assert(self.lane_ok(l1));
            }
            BatchScheduler::lemma_step_keeps_wf(before, *self, i as int);
        }
        e
    }
}


/// What the verify feeds of a lane is what its slot then has consumed: the committed token and the
/// drafts that stand, behind what was there.
pub proof fn law_what_is_fed_is_consumed(cache: Seq<u32>, committed: u32, drafts: Seq<u32>, n: int)
    requires
        0 <= n <= drafts.len(),
    ensures
        commit::consumed(cache, committed, drafts, n) == cache + fed_tokens(committed, drafts, n),
        fed_tokens(committed, drafts, n).len() == n + 1,
        fed_tokens(committed, drafts, n)[0] == committed,
        forall|k: int| 0 <= k < n ==> #[trigger] fed_tokens(committed, drafts, n)[k + 1] == drafts[k],
{
    assert(commit::consumed(cache, committed, drafts, n) =~= cache + fed_tokens(
        committed,
        drafts,
        n,
    ));
}

/// The state is set back exactly where columns of the verify do not stand, and then to the one
/// behind the last column that does.
pub proof fn law_the_state_is_set_back_behind_what_stands(snapshot: int, column: int, width: int)
    requires
        0 <= snapshot,
        0 <= column < width,
        snapshot + width <= usize::MAX,
    ensures
        restored(snapshot, column, width) is None <==> column == width - 1,
        column < width - 1 ==> restored(snapshot, column, width) == Some(
            (snapshot + column) as usize,
        ),
{
}

/// Behind a greedy step of a lane that goes on, the position of the lane is the length of what its
/// slot has consumed, if it was before.
pub proof fn law_positions_follow_what_was_consumed(
    before: BatchScheduler,
    after: BatchScheduler,
    i: int,
    drafter: Drafter,
    drafts: Seq<u32>,
    n: int,
    bonus: u32,
    masked: bool,
    e: Emission,
)
    requires
        greedy_step(before, after, i, drafter, drafts, n, bonus, masked, e),
        0 <= i < before.lanes@.len(),
        0 <= n <= drafts.len(),
        !e.finished,
        before.slots.cache@[before.lanes@[i].phys as int]@.len() == before.lanes@[i].pos,
    ensures
        after.slots.cache@[after.lanes@[i].phys as int]@.len() == after.lanes@[i].pos,
        after.slots.cache@[after.lanes@[i].phys as int]@
            == before.slots.cache@[before.lanes@[i].phys as int]@ + fed_tokens(
            before.lanes@[i].last_tok,
            drafts,
            n,
        ),
        after.lanes@[i].last_tok == bonus,
        e.tokens@ == drafts.take(n).push(bonus),
{
    let l = before.lanes@[i];
    let list = commit::offered(drafts, n, bonus);
    law_what_is_fed_is_consumed(
        before.slots.cache@[l.phys as int]@,
        l.last_tok,
        drafts,
        n,
    );
    assert(e.tokens@.len() == list.len());
    assert(list.take(list.len() as int) =~= list);
}


/// A step leaves alone what is not its lane's: the other lanes and what their slots have consumed,
/// the free slots, the prefill, the settings, and every checkpoint.
pub proof fn law_a_step_leaves_the_others_alone(
    before: BatchScheduler,
    after: BatchScheduler,
    i: int,
    j: int,
    s: int,
)
    requires
        others_kept(before, after, i),
        0 <= j < before.lanes@.len(),
        j != i,
        0 <= s < before.slots.cache@.len(),
        s != before.lanes@[i].phys,
    ensures
        after.lanes@.len() == before.lanes@.len(),
        after.lanes@[j] == before.lanes@[j],
        after.slots.cache@[s]@ == before.slots.cache@[s]@,
        after.free_slots@ == before.free_slots@,
        after.pf == before.pf,
        after.setup == before.setup,
        after.slots.ckpt_seq@ == before.slots.ckpt_seq@,
        after.slots.ckpt_images@ == before.slots.ckpt_images@,
        after.slots.cache_images@ == before.slots.cache_images@,
        after.slots.ring_len@ == before.slots.ring_len@,
        after.slots.ring_cursor@ == before.slots.ring_cursor@,
{
}

/// Only the lane's own answer ends by its step.
pub proof fn law_a_step_ends_no_other_answer(
    before: BatchScheduler,
    after: BatchScheduler,
    i: int,
    drafter: Drafter,
    drafts: Seq<u32>,
    n: int,
    bonus: u32,
    masked: bool,
    e: Emission,
    j: int,
)
    requires
        greedy_step(before, after, i, drafter, drafts, n, bonus, masked, e),
        0 <= i < before.done@.len(),
        0 <= j < before.done@.len(),
    ensures
        after.done@[i] == e.finished,
        j != i ==> after.done@[j] == before.done@[j],
{
}

} // verus!
