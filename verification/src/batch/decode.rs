//! The batched part of a decode step, and its end.

use vstd::prelude::*;

use crate::batch::lane;
use crate::batch::lane::{Lane, SchemaStep, TokEvent};
use crate::batch::scheduler;
use crate::batch::scheduler::BatchScheduler;
use crate::batch::slots;
use crate::batch::steps;

verus! {

/// Lane `l` was served by the batch and got token `t`: the token that was fed is consumed, `t` is
/// fed next, and neither drafter has seen it. A lane whose budget is used up emits nothing and is
/// done.
pub open spec fn batch_served(before: Lane, after: Lane, eos: Seq<u32>, t: u32, finished: bool) -> bool {
    if spent(before) {
        &&& after == (Lane { mtp_stale: true, df2_stale: true, ..before })
        &&& finished
    } else {
        &&& after.params == before.params
        &&& after.phys == before.phys
        &&& after.pos == before.pos + 1
        &&& after.last_tok == t
        &&& after.generated == before.generated + 1
        &&& after.history@ == lane::remembered(before.history@, t)
        &&& after.mtp_pos == before.mtp_pos
        &&& after.mtp_primed == before.mtp_primed
        &&& after.mtp_stale
        &&& after.df2_primed == before.df2_primed
        &&& after.df2_stale
        &&& after.seed == before.seed
        &&& after.tp_cancelled == before.tp_cancelled
        &&& match before.schema {
            Some(m) => {
                &&& after.schema is Some
                &&& exists|s: SchemaStep|
                    {
                        &&& #[trigger] lane::advances(
                            m,
                            after.schema->0,
                            before.schema_state,
                            seq![t],
                            s,
                        )
                        &&& after.schema_state == s.state
                        &&& finished == (answered(before, eos, t) || s.done)
                    }
            },
            None => {
                &&& after.schema is None
                &&& after.schema_state == before.schema_state
                &&& finished == answered(before, eos, t)
            },
        }
    }
}

/// The budget of the lane is used up.
pub open spec fn spent(l: Lane) -> bool {
    l.generated >= l.params.max_new
}

/// The answer is over with token `t`.
pub open spec fn answered(l: Lane, eos: Seq<u32>, t: u32) -> bool {
    lane::ends(eos, l.params, t, l.generated + 1) || l.generated + 1 >= l.params.max_new
}

/// The batch stops a lane where a chain would: it emits what a chain of the one token emits, and
/// the answer is over where it is over for the chain.
pub proof fn law_the_batch_stops_like_a_chain(l: Lane, eos: Seq<u32>, t: u32)
    ensures
        ({
            let n = if spent(l) {
                0int
            } else {
                1
            };
            &&& lane::emits(seq![t], l.generated as int, l.params, eos, n)
            &&& lane::over(seq![t], l.generated as int, l.params, eos, n) == (spent(l) || answered(
                l,
                eos,
                t,
            ))
        }),
{
}

fn serve(l: &mut Lane, cache: &mut Vec<u32>, eos: &Vec<u32>, t: u32) -> (finished: bool)
    requires
        old(l).schema_ok(),
        old(l).pos < usize::MAX,
        old(l).generated < usize::MAX,
        old(l).history@.len() <= lane::HISTORY_MAX,
        old(cache)@.len() < usize::MAX,
    ensures
        final(l).schema_ok(),
        final(l).history@.len() <= lane::HISTORY_MAX,
        batch_served(*old(l), *final(l), eos@, t, finished),
        final(cache)@ == old(cache)@.push(old(l).last_tok),
{
    let ghost before = *l;
    l.mtp_stale = true;
    l.df2_stale = true;
    let fed: u32 = l.last_tok;
    if l.generated >= l.params.max_new {
        cache.push(fed);
        return true;
    }
    l.last_tok = t;
    l.pos = l.pos + 1;
    l.generated = l.generated + 1;
    lane::remember(&mut l.history, t);
    cache.push(fed);
    let mut finished = (lane::holds(eos, t) && !l.params.ignore_eos && l.generated
        >= l.params.min_new) || l.generated >= l.params.max_new;
    assert(finished == answered(before, eos@, t));
    let state: u32 = l.schema_state;
    let mut toks: Vec<u32> = Vec::new();
    toks.push(t);
    assert(toks@ =~= seq![t]);
    let mut next: u32 = state;
    let ghost mut taken: SchemaStep = arbitrary();
    match &mut l.schema {
        Some(m) => {
            let step = lane::schema_advance(m, state, &toks);
            proof {
                taken = step;
            }
            next = step.state;
            finished = finished || step.done;
        },
        None => {},
    }
    l.schema_state = next;
    proof {
        if before.schema is Some {
            assert(lane::advances(before.schema->0, l.schema->0, state, seq![t], taken));
        }
    }
    finished
}

/// The batch has served lane `i`.
pub open spec fn lane_served(
    before: BatchScheduler,
    after: BatchScheduler,
    i: int,
    t: u32,
) -> bool {
    let l = before.lanes@[i];
    &&& batch_served(l, after.lanes@[i], before.setup.eos@, t, after.done@[i])
    &&& after.slots.cache@[l.phys as int]@ == before.slots.cache@[l.phys as int]@.push(l.last_tok)
}

/// The lanes of a batch are distinct, and no step has finished one of them.
pub open spec fn batchable(s: BatchScheduler, batch: Seq<usize>) -> bool {
    &&& batch.no_duplicates()
    &&& forall|k: int|
        0 <= k < batch.len() ==> (#[trigger] batch[k]) < s.lanes@.len() && !s.done@[batch[k] as int]
}

impl BatchScheduler {
    fn serve_lane(&mut self, i: usize, t: u32)
        requires
            old(self).steppable(i as int, Seq::empty()),
        ensures
            final(self).wf(),
            steps::only_lane(*old(self), *final(self), i as int),
            lane_served(*old(self), *final(self), i as int, t),
            final(self).done@ == old(self).done@.update(i as int, final(self).done@[i as int]),
    {
        let ghost before = *self;
        proof {
            before.lemma_lane_slot(i as int);
            assert(before.lane_ok(before.lanes@[i as int]));
            assert(before.lane_known(before.lanes@[i as int]));
        }
        let phys: usize = self.lanes[i].phys;
        let finished = serve(
            &mut self.lanes[i],
            &mut self.slots.cache[phys],
            &self.setup.eos,
            t,
        );
        self.done.set(i, finished);
        proof {
            assert(self.done@ =~= before.done@.update(i as int, finished));
            assert(steps::others_kept(before, *self, i as int));
            if !finished {
                assert(self.lane_ok(self.lanes@[i as int]));
            }
            BatchScheduler::lemma_step_keeps_wf(before, *self, i as int);
        }
    }

    /// Hands the tokens of a batched step to its lanes. Tells which lanes have emitted theirs: one
    /// whose budget was used up has not.
    pub fn commit_batch(&mut self, batch: &Vec<usize>, next: &Vec<u32>) -> (sent: Vec<bool>)
        requires
            old(self).wf(),
            batchable(*old(self), batch@),
            batch@.len() <= next@.len(),
        ensures
            final(self).wf(),
            sent@ == Seq::new(
                batch@.len(),
                |k: int| !spent(old(self).lanes@[batch@[k] as int]),
            ),
            final(self).pack_kept(old(self), batch@),
            final(self).drafters_kept(old(self)),
            final(self).stats == old(self).stats,
            forall|k: int|
                0 <= k < batch@.len() ==> lane_served(
                    *old(self),
                    *final(self),
                    #[trigger] batch@[k] as int,
                    next@[k],
                ),
    {
        let ghost before = *self;
        let mut sent: Vec<bool> = Vec::new();
        let mut k: usize = 0;
        while k < batch.len()
            invariant
                k <= batch@.len(),
                sent@.len() == k,
                forall|x: int|
                    0 <= x < k ==> #[trigger] sent@[x] == !spent(before.lanes@[batch@[x] as int]),
                batch@.len() <= next@.len(),
                before == *old(self),
                before.wf(),
                batchable(before, batch@),
                self.wf(),
                self.pack_kept(&before, batch@),
                self.drafters_kept(&before),
                self.stats == before.stats,
                forall|x: int|
                    0 <= x < k ==> lane_served(
                        before,
                        *self,
                        #[trigger] batch@[x] as int,
                        next@[x],
                    ),
                forall|x: int|
                    k <= x < batch@.len() ==> self.lanes@[#[trigger] batch@[x] as int]
                        == before.lanes@[batch@[x] as int] && !self.done@[batch@[x] as int]
                        && self.slots.cache@[before.lanes@[batch@[x] as int].phys as int]
                        == before.slots.cache@[before.lanes@[batch@[x] as int].phys as int],
            decreases batch@.len() - k,
        {
            let i: usize = batch[k];
            let ghost prior = *self;
            sent.push(self.lanes[i].generated < self.lanes[i].params.max_new);
            self.serve_lane(i, next[k]);
            proof {
                before.lemma_lane_slot(i as int);
                assert(batch@.contains(i));
                assert forall|x: int| 0 <= x < batch@.len() && x != k implies self.lanes@[
                #[trigger] batch@[x] as int] == prior.lanes@[batch@[x] as int] && self.done@[
                batch@[x] as int] == prior.done@[batch@[x] as int] && self.slots.cache@[
                before.lanes@[batch@[x] as int].phys as int] == prior.slots.cache@[
                before.lanes@[batch@[x] as int].phys as int] by {
                    assert(batch@[x] != batch@[k as int]);
                    assert(before.lanes@[batch@[x] as int].phys != before.lanes@[i as int].phys);
                    before.lemma_lane_slot(batch@[x] as int);
                }
                assert forall|x: int| 0 <= x < k + 1 implies lane_served(
                    before,
                    *self,
                    #[trigger] batch@[x] as int,
                    next@[x],
                ) by {
                    if x < k {
                        assert(lane_served(before, prior, batch@[x] as int, next@[x]));
                    }
                }
                assert forall|j: int|
                    0 <= j < before.lanes@.len() && !batch@.contains(j as usize) implies
                    #[trigger] self.lanes@[j] == before.lanes@[j] && self.done@[j]
                    == before.done@[j] by {
                    assert(j != i);
                    assert(prior.lanes@[j] == before.lanes@[j]);
                }
                assert forall|j: int|
                    0 <= j < before.lanes@.len() && !batch@.contains(j as usize) implies self.slots.cache@[(
                #[trigger] before.lanes@[j]).phys as int] == before.slots.cache@[before.lanes@[j].phys as int] by {
                    assert(j != i);
                    before.lemma_lane_slot(j);
                    assert(prior.slots.cache@[before.lanes@[j].phys as int]
                        == before.slots.cache@[before.lanes@[j].phys as int]);
                }
            }
            k += 1;
        }
        assert(sent@ =~= Seq::new(
            batch@.len(),
            |k: int| !spent(before.lanes@[batch@[k] as int]),
        ));
        sent
    }

    /// The deepest live context.
    pub fn deepest(&self) -> (r: usize)
        ensures
            forall|i: int| 0 <= i < self.lanes@.len() ==> (#[trigger] self.lanes@[i]).pos <= r,
            self.lanes@.len() == 0 ==> r == 0,
            self.lanes@.len() > 0 ==> exists|i: int|
                0 <= i < self.lanes@.len() && (#[trigger] self.lanes@[i]).pos == r,
    {
        let mut r: usize = 0;
        let mut i: usize = 0;
        while i < self.lanes.len()
            invariant
                i <= self.lanes@.len(),
                forall|k: int| 0 <= k < i ==> (#[trigger] self.lanes@[k]).pos <= r,
                i == 0 ==> r == 0,
                i > 0 ==> exists|k: int| 0 <= k < i && (#[trigger] self.lanes@[k]).pos == r,
            decreases self.lanes@.len() - i,
        {
            let ghost r0 = r;
            if i == 0 || self.lanes[i].pos > r {
                r = self.lanes[i].pos;
                assert(self.lanes@[i as int].pos == r);
            } else {
                assert(exists|k: int| 0 <= k < i && (#[trigger] self.lanes@[k]).pos == r0);
            }
            i += 1;
        }
        r
    }
}

/// Lane `i` ends: it is cancelled, or a step has finished it.
pub open spec fn ends_now(done: Seq<bool>, cancelled: Seq<bool>, i: int) -> bool {
    cancelled[i] || done[i]
}

/// The lanes among the first `n` that go on, in order.
pub open spec fn staying(lanes: Seq<Lane>, ending: spec_fn(int) -> bool, n: int) -> Seq<Lane>
    decreases n,
{
    if n <= 0 {
        Seq::empty()
    } else if ending(n - 1) {
        staying(lanes, ending, n - 1)
    } else {
        staying(lanes, ending, n - 1).push(lanes[n - 1])
    }
}

/// The slots of the lanes among the first `n` that end, in order.
pub open spec fn released(lanes: Seq<Lane>, ending: spec_fn(int) -> bool, n: int) -> Seq<usize>
    decreases n,
{
    if n <= 0 {
        Seq::empty()
    } else if ending(n - 1) {
        released(lanes, ending, n - 1).push(lanes[n - 1].phys)
    } else {
        released(lanes, ending, n - 1)
    }
}

/// Why a lane ended, as its client is told.
pub open spec fn reason(l: Lane) -> Seq<char> {
    if l.generated >= l.params.max_new {
        "length"@
    } else {
        "stop"@
    }
}

/// The clients of the lanes among the first `n` that end, with the reasons.
pub open spec fn farewells(lanes: Seq<Lane>, ending: spec_fn(int) -> bool, n: int) -> Seq<(
    u64,
    Seq<char>,
)>
    decreases n,
{
    if n <= 0 {
        Seq::empty()
    } else if ending(n - 1) {
        farewells(lanes, ending, n - 1).push((lanes[n - 1].params.client, reason(lanes[n - 1])))
    } else {
        farewells(lanes, ending, n - 1)
    }
}

/// An event tells a client the reason.
pub open spec fn tells(e: (u64, TokEvent), f: (u64, Seq<char>)) -> bool {
    e.0 == f.0 && (e.1 matches TokEvent::Finish { reason } && reason@ == f.1)
}

/// Every slot of the lanes is either kept or released.
proof fn lemma_slots_conserved(lanes: Seq<Lane>, ending: spec_fn(int) -> bool, n: int, s: usize)
    requires
        0 <= n <= lanes.len(),
    ensures
        slots::held(scheduler::lane_slots(staying(lanes, ending, n)), s) + slots::held(
            released(lanes, ending, n),
            s,
        ) == slots::held(scheduler::lane_slots(lanes.take(n)), s),
        staying(lanes, ending, n).len() + released(lanes, ending, n).len() == n,
    decreases n,
{
    if n > 0 {
        lemma_slots_conserved(lanes, ending, n - 1, s);
        let all = scheduler::lane_slots(lanes.take(n - 1));
        let last = lanes[n - 1].phys;
        assert(scheduler::lane_slots(lanes.take(n)) =~= all.push(last));
        slots::lemma_held_push(all, last, s);
        if ending(n - 1) {
            slots::lemma_held_push(released(lanes, ending, n - 1), last, s);
        } else {
            let kept = staying(lanes, ending, n - 1);
            assert(scheduler::lane_slots(kept.push(lanes[n - 1])) =~= scheduler::lane_slots(
                kept,
            ).push(last));
            slots::lemma_held_push(scheduler::lane_slots(kept), last, s);
        }
    } else {
        assert(scheduler::lane_slots(staying(lanes, ending, 0)) =~= Seq::<usize>::empty());
        assert(scheduler::lane_slots(lanes.take(0)) =~= Seq::<usize>::empty());
    }
}

/// Each lane that stays is one of the lanes that do not end.
pub proof fn lemma_staying(lanes: Seq<Lane>, ending: spec_fn(int) -> bool, n: int, k: int)
    requires
        0 <= n <= lanes.len(),
        0 <= k < staying(lanes, ending, n).len(),
    ensures
        exists|i: int|
            0 <= i < n && !ending(i) && #[trigger] lanes[i] == staying(lanes, ending, n)[k],
    decreases n,
{
    if n > 0 {
        if ending(n - 1) {
            lemma_staying(lanes, ending, n - 1, k);
        } else if k < staying(lanes, ending, n - 1).len() {
            lemma_staying(lanes, ending, n - 1, k);
        } else {
            assert(lanes[n - 1] == staying(lanes, ending, n)[k]);
        }
    }
}

impl BatchScheduler {
    /// Ends a decode step: lanes that are cancelled or finished give their slots back, and the
    /// others move together without changing slots. Returns what the clients are told.
    pub fn compact(&mut self, cancelled: &Vec<bool>) -> (events: Vec<(u64, TokEvent)>)
        requires
            old(self).wf(),
            cancelled@.len() == old(self).lanes@.len(),
        ensures
            final(self).wf(),
            final(self).settled(),
            ({
                let b = *old(self);
                let n = b.lanes@.len() as int;
                let ending = |i: int| ends_now(b.done@, cancelled@, i);
                &&& final(self).lanes@ == staying(b.lanes@, ending, n)
                &&& final(self).free_slots@ == b.free_slots@ + released(b.lanes@, ending, n)
                &&& events@.len() == farewells(b.lanes@, ending, n).len()
                &&& forall|k: int|
                    0 <= k < events@.len() ==> tells(
                        #[trigger] events@[k],
                        farewells(b.lanes@, ending, n)[k],
                    )
                &&& final(self).resident_dirty == (b.resident_dirty || events@.len() > 0)
            }),
            *final(self) == (BatchScheduler {
                lanes: final(self).lanes,
                done: final(self).done,
                free_slots: final(self).free_slots,
                resident_dirty: final(self).resident_dirty,
                ..*old(self)
            }),
    {
        let ghost before = *self;
        let ghost all = self.lanes@;
        let ghost free = self.free_slots@;
        let ghost ending = |i: int| ends_now(before.done@, cancelled@, i);
        let n: usize = self.lanes.len();
        let mut events: Vec<(u64, TokEvent)> = Vec::new();
        let mut w: usize = 0;
        let mut i: usize = 0;
        assert(all.skip(0) =~= all);
        assert(staying(all, ending, 0) + all.skip(0) =~= all);
        assert(free + released(all, ending, 0) =~= free);
        while i < n
            invariant
                i <= n,
                n == all.len(),
                all == before.lanes@,
                free == before.free_slots@,
                before.wf(),
                cancelled@.len() == n,
                ending == (|i: int| ends_now(before.done@, cancelled@, i)),
                self.done@ == before.done@,
                self.done@.len() == n,
                *self == (BatchScheduler {
                    lanes: self.lanes,
                    free_slots: self.free_slots,
                    ..before
                }),
                w == staying(all, ending, i as int).len(),
                w <= i,
                self.lanes@ == staying(all, ending, i as int) + all.skip(i as int),
                self.free_slots@ == free + released(all, ending, i as int),
                self.free_slots@.len() <= before.setup.max_batch,
                self.free_slots@.len() + self.lanes@.len() <= before.setup.max_batch,
                events@.len() == farewells(all, ending, i as int).len(),
                events@.len() == i - w,
                forall|k: int|
                    0 <= k < events@.len() ==> tells(
                        #[trigger] events@[k],
                        farewells(all, ending, i as int)[k],
                    ),
            decreases n - i,
        {
            let ghost kept = staying(all, ending, i as int);
            let ghost rest = all.skip(i as int);
            assert(self.lanes@[w as int] == all[i as int]);
            assert(ending(i as int) == (cancelled@[i as int] || self.done@[i as int]));
            assert(ending(i + 1 - 1) == ending(i as int));
            if cancelled[i] || self.done[i] {
                let l = self.lanes.remove(w);
                assert(self.lanes@ =~= kept + all.skip(i + 1));
                let ghost freed = self.free_slots@;
                self.free_slots.push(l.phys);
                assert(self.free_slots@ =~= free + released(all, ending, i + 1));
                let reason = if l.generated >= l.params.max_new {
                    String::from_str("length")
                } else {
                    String::from_str("stop")
                };
                let ghost told = events@;
                events.push((l.params.client, TokEvent::Finish { reason }));
                assert forall|k: int| 0 <= k < events@.len() implies tells(
                    #[trigger] events@[k],
                    farewells(all, ending, i + 1)[k],
                ) by {
                    if k < told.len() {
                        assert(tells(told[k], farewells(all, ending, i as int)[k]));
                    }
                }
            } else {
                assert(staying(all, ending, i + 1) =~= kept.push(all[i as int]));
                assert(self.lanes@ =~= kept.push(all[i as int]) + all.skip(i + 1));
                w += 1;
            }
            i += 1;
        }
        assert(all.skip(n as int) =~= Seq::<Lane>::empty());
        assert(self.lanes@ =~= staying(all, ending, n as int));
        let done: Vec<bool> = vec![false; w];
        self.done = done;
        if w < n {
            self.resident_dirty = true;
        }
        proof {
            before.lemma_compact_keeps_wf(*self, ending);
        }
        events
    }

    proof fn lemma_compact_keeps_wf(&self, after: BatchScheduler, ending: spec_fn(int) -> bool)
        requires
            self.wf(),
            forall|i: int| 0 <= i < self.lanes@.len() && self.done@[i] ==> #[trigger] ending(i),
            after == (BatchScheduler {
                lanes: after.lanes,
                done: after.done,
                free_slots: after.free_slots,
                resident_dirty: after.resident_dirty,
                ..*self
            }),
            after.lanes@ == staying(self.lanes@, ending, self.lanes@.len() as int),
            after.free_slots@ == self.free_slots@ + released(
                self.lanes@,
                ending,
                self.lanes@.len() as int,
            ),
            after.done@.len() == after.lanes@.len(),
        ensures
            after.wf(),
    {
        let n = self.lanes@.len() as int;
        assert(self.lanes@.take(n) =~= self.lanes@);
        assert forall|x: usize| #[trigger] after.holders(x) == if x < after.setup.max_batch {
            1int
        } else {
            0
        } by {
            lemma_slots_conserved(self.lanes@, ending, n, x);
            slots::lemma_held_add(self.free_slots@, released(self.lanes@, ending, n), x);
            assert(after.holders(x) == self.holders(x));
        }
        lemma_slots_conserved(self.lanes@, ending, n, 0);
        assert forall|k: int| 0 <= k < after.lanes@.len() implies after.lane_known(
            #[trigger] after.lanes@[k],
        ) && after.lane_ok(after.lanes@[k]) by {
            lemma_staying(self.lanes@, ending, n, k);
            let i = choose|i: int|
                0 <= i < n && !ending(i) && #[trigger] self.lanes@[i] == after.lanes@[k];
            assert(self.lane_known(self.lanes@[i]));
            assert(!self.done@[i]);
            assert(self.lane_ok(self.lanes@[i]));
        }
        match after.pf {
            Some(c) => {
                assert(self.cursor_ok(c));
            },
            None => {},
        }
    }
}


/// Every lane either goes on or is ended: its slot is then given back and its client told, with the
/// reason. As many slots are given back as clients are told.
pub proof fn law_every_lane_goes_on_or_ends(
    lanes: Seq<Lane>,
    ending: spec_fn(int) -> bool,
    n: int,
    i: int,
)
    requires
        0 <= i < n <= lanes.len(),
    ensures
        staying(lanes, ending, n).len() + released(lanes, ending, n).len() == n,
        released(lanes, ending, n).len() == farewells(lanes, ending, n).len(),
        !ending(i) ==> staying(lanes, ending, n).contains(lanes[i]),
        ending(i) ==> exists|k: int|
            0 <= k < released(lanes, ending, n).len() && #[trigger] released(lanes, ending, n)[k]
                == lanes[i].phys && farewells(lanes, ending, n)[k] == (
                lanes[i].params.client,
                if lanes[i].generated >= lanes[i].params.max_new {
                    "length"@
                } else {
                    "stop"@
                },
            ),
    decreases n,
{
    lemma_lanes_split(lanes, ending, n);
    lemma_lanes_split(lanes, ending, n - 1);
    let s = staying(lanes, ending, n);
    let r = released(lanes, ending, n);
    let f = farewells(lanes, ending, n);
    if i == n - 1 {
        if ending(i) {
            assert(r[r.len() - 1] == lanes[i].phys);
        } else {
            assert(s.contains(s.last()));
        }
    } else {
        law_every_lane_goes_on_or_ends(lanes, ending, n - 1, i);
        let s0 = staying(lanes, ending, n - 1);
        let r0 = released(lanes, ending, n - 1);
        let f0 = farewells(lanes, ending, n - 1);
        if ending(i) {
            let k = choose|k: int|
                0 <= k < r0.len() && #[trigger] r0[k] == lanes[i].phys && f0[k] == (
                    lanes[i].params.client,
                    if lanes[i].generated >= lanes[i].params.max_new {
                        "length"@
                    } else {
                        "stop"@
                    },
                );
            assert(r[k] == r0[k] && f[k] == f0[k]);
        } else {
            let k = choose|k: int| 0 <= k < s0.len() && s0[k] == lanes[i];
            assert(s[k] == s0[k]);
        }
    }
}

proof fn lemma_lanes_split(lanes: Seq<Lane>, ending: spec_fn(int) -> bool, n: int)
    requires
        0 <= n <= lanes.len(),
    ensures
        staying(lanes, ending, n).len() + released(lanes, ending, n).len() == n,
        released(lanes, ending, n).len() == farewells(lanes, ending, n).len(),
    decreases n,
{
    if n > 0 {
        lemma_lanes_split(lanes, ending, n - 1);
    }
}

/// A lane ends where it was cancelled or has its answer, and only there.
pub proof fn law_lanes_end_where_cancelled_or_done(done: Seq<bool>, cancelled: Seq<bool>, i: int)
    ensures
        ends_now(done, cancelled, i) <==> cancelled[i] || done[i],
{
}

/// A batched step moves a lane by one token: the slot consumes the token that was to be fed, and the
/// chosen one is fed next, counted and remembered. The drafters missed it. A lane without budget
/// stays where it is and is done.
pub proof fn law_a_batched_step_is_one_token(
    before: Lane,
    after: Lane,
    eos: Seq<u32>,
    t: u32,
    finished: bool,
)
    requires
        batch_served(before, after, eos, t, finished),
        before.history@.len() <= 256,
    ensures
        after.mtp_stale && after.df2_stale,
        before.generated >= before.params.max_new ==> finished && after.pos == before.pos
            && after.last_tok == before.last_tok && after.generated == before.generated,
        before.generated < before.params.max_new ==> {
            &&& after.pos == before.pos + 1
            &&& after.last_tok == t
            &&& after.generated == before.generated + 1
            &&& after.history@.len() > 0 && after.history@.last() == t
            &&& before.history@.len() < 256 ==> after.history@ == before.history@.push(t)
            &&& after.generated >= before.params.max_new ==> finished
            &&& eos.contains(t) && !before.params.ignore_eos && after.generated
                >= before.params.min_new ==> finished
            &&& finished && before.schema is None ==> after.generated >= before.params.max_new || (
            eos.contains(t) && !before.params.ignore_eos && after.generated
                >= before.params.min_new)
        },
{
}

} // verus!
