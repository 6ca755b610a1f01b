//! Which drafter serves which lane in a decode step.
//!
//! The drafters that keep a context of their own serve a lane that is alone; above one lane,
//! batching is worth more than drafting, unless the lanes share one verify. A drafter that missed
//! a token is never trusted again for that request.

use vstd::prelude::*;

use crate::batch::draft::MAX_PACK;
use crate::batch::lane::Lane;
use crate::batch::scheduler::BatchScheduler;
use crate::batch::sources;
use crate::batch::sources::SpecSource;

verus! {

/// How a lane is served in a step.
#[derive(Clone, Copy, PartialEq, Eq, Structural, Debug)]
pub enum Route {
    /// One token, in a batch with the other lanes on this route.
    Batch,
    /// The head's chain.
    Head,
    /// The head's tree.
    HeadTree,
    /// The head's chain, sampled.
    HeadSample,
    /// The head's chain, in one verify with other lanes.
    Pack,
    Selector,
    SelectorTree,
    SelectorSample,
    /// The selector's sampled walk.
    SelectorRq,
    /// The block drafter with a ring.
    Spark,
    SparkSample,
    /// The block drafter with a context feature.
    Block,
}

/// Routes on which the head drafts.
pub open spec fn by_head(r: Route) -> bool {
    r is Head || r is HeadTree || r is HeadSample || r is Pack
}

/// Routes whose tokens a schema does not mask.
pub open spec fn schema_blind(r: Route) -> bool {
    !(r is Batch || r is Head)
}

/// The head's route for a lane: only its chain masks a schema.
pub open spec fn head_route(s: BatchScheduler, l: Lane) -> Route {
    if !l.params.greedy {
        Route::HeadSample
    } else if s.setup.tree_draft && s.mtp.depth >= 3 && l.schema is None {
        Route::HeadTree
    } else {
        Route::Head
    }
}

/// The head serves the lane where it can.
pub open spec fn fallback(s: BatchScheduler, l: Lane) -> Route {
    if l.mtp_able() {
        head_route(s, l)
    } else {
        Route::Batch
    }
}

/// The lane is alone and has no schema.
pub open spec fn alone_and_plain(s: BatchScheduler) -> bool {
    s.lanes@.len() == 1 && s.lanes@[0].schema is None
}

/// The selector round drafts in this step.
pub open spec fn df2_live(s: BatchScheduler) -> bool {
    s.mtp.active && sources::df2_family(s.mtp.spec_source) && s.df2 is Some && alone_and_plain(s)
}

/// The block drafter with a ring drafts in this step.
pub open spec fn dspark_live(s: BatchScheduler) -> bool {
    s.mtp.active && s.mtp.spec_source == SpecSource::Dspark && s.dspark is Some
        && alone_and_plain(s)
}

/// The block drafter with a context feature drafts in this step.
pub open spec fn dflash_live(s: BatchScheduler) -> bool {
    s.mtp.active && s.mtp.spec_source == SpecSource::DFlash && s.dflash is Some
        && alone_and_plain(s)
}

/// The lane can share a verify.
pub open spec fn packs(l: Lane) -> bool {
    l.params.greedy && l.mtp_able() && l.schema is None
}

/// Lanes among the first `n` that can share a verify.
pub open spec fn pack_count(lanes: Seq<Lane>, n: int) -> int
    decreases n,
{
    if n <= 0 {
        0
    } else {
        pack_count(lanes, n - 1) + if packs(lanes[n - 1]) {
            1int
        } else {
            0
        }
    }
}

/// Lane `i` shares a verify: it is among the first five that can, and it is not the only one.
pub open spec fn packed(s: BatchScheduler, i: int) -> bool {
    s.mtp.depth > 0 && packs(s.lanes@[i]) && pack_count(s.lanes@, s.lanes@.len() as int) >= 2
        && pack_count(s.lanes@, i) < MAX_PACK
}

/// How lane `i` is served.
pub open spec fn route_of(s: BatchScheduler, i: int) -> Route {
    let l = s.lanes@[i];
    if df2_live(s) {
        if l.df2_primed && !l.df2_stale {
            match sources::effective(
                s.mtp.spec_source,
                l.params.domain,
                s.setup.prose_lane_greedy,
                l.params.greedy,
            ) {
                SpecSource::DFlash2Rq => Route::SelectorRq,
                SpecSource::DFlash2Tree => if l.params.greedy {
                    Route::SelectorTree
                } else {
                    Route::SelectorSample
                },
                _ => if l.params.greedy {
                    Route::Selector
                } else {
                    Route::SelectorSample
                },
            }
        } else {
            fallback(s, l)
        }
    } else if dspark_live(s) {
        if l.df2_primed && !l.df2_stale {
            if l.params.greedy {
                Route::Spark
            } else {
                Route::SparkSample
            }
        } else {
            fallback(s, l)
        }
    } else if dflash_live(s) {
        if l.params.greedy && (l.df2_primed || s.dflash_prime_done) && !l.df2_stale {
            Route::Block
        } else {
            fallback(s, l)
        }
    } else if s.mtp.active && s.mtp.spec_source != SpecSource::Plain {
        if s.setup.mtp_lanes {
            if packed(s, i) {
                Route::Pack
            } else {
                fallback(s, l)
            }
        } else if s.lanes@.len() == 1 {
            fallback(s, l)
        } else {
            Route::Batch
        }
    } else {
        Route::Batch
    }
}

/// A lane that the head serves has a hole in the ring of its other drafter.
pub open spec fn marked(l: Lane, r: Route) -> Lane {
    Lane { df2_stale: l.df2_stale || (by_head(r) && l.df2_primed), ..l }
}

/// Lane `i` is cancelled: over the wire, or, outside a tensor-parallel group, because its client
/// is gone.
pub open spec fn cancelled(s: BatchScheduler, closed: Seq<bool>, i: int) -> bool {
    s.lanes@[i].tp_cancelled || (!s.setup.tp_serving && closed[i])
}

/// What a step does with the lanes.
pub struct StepPlan {
    pub routes: Vec<Route>,
    /// Lanes that end with this step, whatever they emit.
    pub cancelled: Vec<bool>,
}

/// A lane with a schema is never served by a route that does not mask it.
pub proof fn law_schemas_are_always_masked(s: BatchScheduler, i: int)
    requires
        0 <= i < s.lanes@.len(),
        s.lanes@[i].schema is Some,
    ensures
        !schema_blind(route_of(s, i)),
{
}

/// A head or a ring that missed a token is not used again.
pub proof fn law_stale_drafters_are_not_used(s: BatchScheduler, i: int)
    requires
        0 <= i < s.lanes@.len(),
    ensures
        s.lanes@[i].mtp_stale || !s.lanes@[i].mtp_primed ==> !by_head(route_of(s, i)),
        s.lanes@[i].df2_stale ==> by_head(route_of(s, i)) || route_of(s, i) is Batch,
{
}

/// Where drafting is switched off, every lane is served by the batch.
pub proof fn law_plain_serves_by_batch(s: BatchScheduler, i: int)
    requires
        0 <= i < s.lanes@.len(),
        !s.mtp.active || s.mtp.spec_source == SpecSource::Plain,
    ensures
        route_of(s, i) is Batch,
{
}

/// Above one lane, only lanes that share their verify or have one of their own with the head are
/// drafted for; the drafters with a context of their own serve one lane.
pub proof fn law_ring_drafters_serve_one_lane(s: BatchScheduler, i: int)
    requires
        0 <= i < s.lanes@.len(),
        s.lanes@.len() >= 2,
    ensures
        by_head(route_of(s, i)) || route_of(s, i) is Batch,
        !s.setup.mtp_lanes ==> route_of(s, i) is Batch,
{
}

impl BatchScheduler {
    fn head_serves(&self, i: usize) -> (r: Route)
        requires
            i < self.lanes@.len(),
        ensures
            r == fallback(*self, self.lanes@[i as int]),
    {
        let l = &self.lanes[i];
        if !l.use_mtp(true) {
            Route::Batch
        } else if !l.params.greedy {
            Route::HeadSample
        } else if self.setup.tree_draft && self.mtp.depth() >= 3 && l.schema.is_none() {
            Route::HeadTree
        } else {
            Route::Head
        }
    }

    fn can_pack(&self, i: usize) -> (r: bool)
        requires
            i < self.lanes@.len(),
        ensures
            r == packs(self.lanes@[i as int]),
    {
        let l = &self.lanes[i];
        l.params.greedy && l.use_mtp(true) && l.schema.is_none()
    }

    /// Routes of the lanes. `before` counts the lanes in front that can share a verify.
    fn route(&self, i: usize, total: usize, before: usize) -> (r: Route)
        requires
            i < self.lanes@.len(),
            total == pack_count(self.lanes@, self.lanes@.len() as int),
            before == pack_count(self.lanes@, i as int),
        ensures
            r == route_of(*self, i as int),
    {
        let l = &self.lanes[i];
        let active = self.mtp.active();
        let src = self.mtp.spec_source();
        let alone = self.lanes.len() == 1 && self.lanes[0].schema.is_none();
        if active && sources::is_df2_src(src) && self.df2.is_some() && alone {
            if l.df2_primed && !l.df2_stale {
                return match sources::df2_effective_src(
                    src,
                    l.params.domain,
                    self.setup.prose_lane_greedy,
                    l.params.greedy,
                ) {
                    SpecSource::DFlash2Rq => Route::SelectorRq,
                    SpecSource::DFlash2Tree => if l.params.greedy {
                        Route::SelectorTree
                    } else {
                        Route::SelectorSample
                    },
                    _ => if l.params.greedy {
                        Route::Selector
                    } else {
                        Route::SelectorSample
                    },
                };
            }
            return self.head_serves(i);
        }
        if active && src == SpecSource::Dspark && self.dspark.is_some() && alone {
            if l.df2_primed && !l.df2_stale {
                return if l.params.greedy {
                    Route::Spark
                } else {
                    Route::SparkSample
                };
            }
            return self.head_serves(i);
        }
        if active && src == SpecSource::DFlash && self.dflash.is_some() && alone {
            if l.params.greedy && (l.df2_primed || self.dflash_prime_done) && !l.df2_stale {
                return Route::Block;
            }
            return self.head_serves(i);
        }
        if active && src != SpecSource::Plain {
            if self.setup.mtp_lanes {
                if self.mtp.depth() > 0 && total >= 2 && before < MAX_PACK && self.can_pack(i) {
                    return Route::Pack;
                }
                return self.head_serves(i);
            }
            if self.lanes.len() == 1 {
                return self.head_serves(i);
            }
        }
        Route::Batch
    }

    /// Starts a decode step: decides how each lane is served, and marks the rings that will miss
    /// it. A step with drafts moves lanes by more than one token, so the next batch is uploaded
    /// in full.
    pub fn plan_step(&mut self, closed: &Vec<bool>) -> (p: StepPlan)
        requires
            old(self).wf(),
            closed@.len() == old(self).lanes@.len(),
        ensures
            final(self).wf(),
            p.routes@ == Seq::new(
                old(self).lanes@.len(),
                |i: int| route_of(*old(self), i),
            ),
            p.cancelled@ == Seq::new(
                old(self).lanes@.len(),
                |i: int| cancelled(*old(self), closed@, i),
            ),
            *final(self) == (BatchScheduler {
                lanes: final(self).lanes,
                resident_dirty: old(self).resident_dirty || old(self).mtp.active,
                ..*old(self)
            }),
            final(self).lanes@ == Seq::new(
                old(self).lanes@.len(),
                |i: int| marked(old(self).lanes@[i], route_of(*old(self), i)),
            ),
    {
        let ghost before = *self;
        let n: usize = self.lanes.len();
        let mut total: usize = 0;
        let mut i: usize = 0;
        while i < n
            invariant
                i <= n,
                n == self.lanes@.len(),
                total == pack_count(self.lanes@, i as int),
                total <= i,
            decreases n - i,
        {
            if self.can_pack(i) {
                total += 1;
            }
            i += 1;
        }
        let mut routes: Vec<Route> = Vec::new();
        let mut stops: Vec<bool> = Vec::new();
        let mut seen: usize = 0;
        i = 0;
        while i < n
            invariant
                i <= n,
                n == self.lanes@.len(),
                closed@.len() == n,
                before == *self,
                total == pack_count(self.lanes@, n as int),
                seen == pack_count(self.lanes@, i as int),
                seen <= i,
                routes@.len() == i,
                stops@.len() == i,
                forall|k: int| 0 <= k < i ==> #[trigger] routes@[k] == route_of(*self, k),
                forall|k: int| 0 <= k < i ==> #[trigger] stops@[k] == cancelled(*self, closed@, k),
            decreases n - i,
        {
            let r = self.route(i, total, seen);
            routes.push(r);
            stops.push(self.lanes[i].tp_cancelled || (!self.setup.tp_serving && closed[i]));
            if self.can_pack(i) {
                seen += 1;
            }
            i += 1;
        }
        i = 0;
        while i < n
            invariant
                i <= n,
                n == self.lanes@.len(),
                n == before.lanes@.len(),
                routes@.len() == n,
                forall|k: int| 0 <= k < n ==> #[trigger] routes@[k] == route_of(before, k),
                *self == (BatchScheduler { lanes: self.lanes, ..before }),
                forall|k: int|
                    0 <= k < i ==> #[trigger] self.lanes@[k] == marked(
                        before.lanes@[k],
                        route_of(before, k),
                    ),
                forall|k: int| i <= k < n ==> #[trigger] self.lanes@[k] == before.lanes@[k],
            decreases n - i,
        {
            assert(routes@[i as int] == route_of(before, i as int));
            let head = match routes[i] {
                Route::Head => true,
                Route::HeadTree => true,
                Route::HeadSample => true,
                Route::Pack => true,
                _ => false,
            };
            let ghost prior = self.lanes@;
            if head && self.lanes[i].df2_primed {
                self.lanes[i].df2_stale = true;
            }
            assert(self.lanes@[i as int] == marked(
                before.lanes@[i as int],
                route_of(before, i as int),
            ));
            i += 1;
        }
        let dirty = self.resident_dirty || self.mtp.active();
        self.resident_dirty = dirty;
        assert(self.lanes@ =~= Seq::new(
            before.lanes@.len(),
            |i: int| marked(before.lanes@[i], route_of(before, i)),
        ));
        assert(routes@ =~= Seq::new(before.lanes@.len(), |i: int| route_of(before, i)));
        assert(stops@ =~= Seq::new(before.lanes@.len(), |i: int| cancelled(before, closed@, i)));
        proof {
            before.lemma_marks_keep_wf(*self);
        }
        StepPlan { routes, cancelled: stops }
    }

    proof fn lemma_marks_keep_wf(&self, after: BatchScheduler)
        requires
            self.wf(),
            after == (BatchScheduler {
                lanes: after.lanes,
                resident_dirty: after.resident_dirty,
                ..*self
            }),
            after.lanes@.len() == self.lanes@.len(),
            forall|i: int|
                0 <= i < self.lanes@.len() ==> #[trigger] after.lanes@[i] == (Lane {
                    df2_stale: after.lanes@[i].df2_stale,
                    ..self.lanes@[i]
                }),
        ensures
            after.wf(),
    {
        use_lane_slots(*self, after);
        assert forall|x: usize| #[trigger] after.holders(x) == if x < after.setup.max_batch {
            1int
        } else {
            0
        } by {
            assert(after.holders(x) == self.holders(x));
        }
        assert forall|i: int| 0 <= i < after.lanes@.len() implies after.lane_known(
            #[trigger] after.lanes@[i],
        ) by {
            assert(self.lane_known(self.lanes@[i]));
        }
        assert forall|i: int| 0 <= i < after.lanes@.len() && !after.done@[i] implies after.lane_ok(
            #[trigger] after.lanes@[i],
        ) by {
            assert(self.lane_ok(self.lanes@[i]));
        }
        match after.pf {
            Some(c) => {
                assert(self.cursor_ok(c));
            },
            None => {},
        }
    }
}

proof fn use_lane_slots(a: BatchScheduler, b: BatchScheduler)
    requires
        a.lanes@.len() == b.lanes@.len(),
        forall|i: int|
            0 <= i < a.lanes@.len() ==> #[trigger] b.lanes@[i] == (Lane {
                df2_stale: b.lanes@[i].df2_stale,
                ..a.lanes@[i]
            }),
    ensures
        crate::batch::scheduler::lane_slots(a.lanes@) == crate::batch::scheduler::lane_slots(
            b.lanes@,
        ),
{
    assert(crate::batch::scheduler::lane_slots(a.lanes@) =~= crate::batch::scheduler::lane_slots(
        b.lanes@,
    ));
}


/// A drafter with a context of its own serves the lane that is alone, has no schema, and whose
/// context it has kept up with, whenever drafting is active and it is the chosen source: greedy
/// lanes by its greedy form, others by its sampling form.
pub proof fn law_the_chosen_drafter_serves(s: BatchScheduler)
    requires
        s.mtp.active,
        s.lanes@.len() == 1,
        s.lanes@[0].schema is None,
        s.lanes@[0].df2_primed,
        !s.lanes@[0].df2_stale,
    ensures
        ({
            let l = s.lanes@[0];
            let r = route_of(s, 0);
            let src = s.mtp.spec_source;
            &&& src is Dspark && s.dspark is Some ==> r == if l.params.greedy {
                Route::Spark
            } else {
                Route::SparkSample
            }
            &&& src is DFlash && s.dflash is Some && l.params.greedy ==> r == Route::Block
            &&& src is DFlash2 && s.df2 is Some ==> r == if l.params.greedy {
                Route::Selector
            } else {
                Route::SelectorSample
            }
            &&& src is DFlash2Rq && s.df2 is Some ==> r == Route::SelectorRq
            &&& src is DFlash2Tree && s.df2 is Some ==> r == if l.params.greedy {
                Route::SelectorTree
            } else {
                Route::SelectorSample
            }
        }),
{
}

/// The model's own head serves a lane that is alone and that it has kept up with wherever no other
/// drafter does: by sampling where the lane samples, by a tree where trees are asked for, the chain
/// is at least three deep and there is no schema, and by a chain otherwise. It masks a schema only in
/// a greedy chain.
pub proof fn law_the_head_serves_what_is_left(s: BatchScheduler)
    requires
        s.mtp.active,
        s.mtp.spec_source is Mtp,
        !s.setup.mtp_lanes,
        s.lanes@.len() == 1,
    ensures
        ({
            let l = s.lanes@[0];
            let r = route_of(s, 0);
            let kept_up = l.mtp_primed && !l.mtp_stale;
            &&& kept_up && !l.params.greedy && l.schema is None ==> r == Route::HeadSample
            &&& kept_up && l.params.greedy && l.schema is None ==> r == if s.setup.tree_draft
                && s.mtp.depth >= 3 {
                Route::HeadTree
            } else {
                Route::Head
            }
            &&& kept_up && l.params.greedy && l.schema is Some ==> r == Route::Head
            &&& !kept_up || (l.schema is Some && !l.params.greedy) ==> r == Route::Batch
        }),
{
}

/// The lanes that can share a verify, as a list.
pub open spec fn packable_lanes(lanes: Seq<Lane>) -> Seq<Lane> {
    lanes.filter(
        |l: Lane|
            l.params.greedy && l.mtp_primed && !l.mtp_stale && l.schema is None,
    )
}

proof fn lemma_pack_count(lanes: Seq<Lane>, n: int)
    requires
        0 <= n <= lanes.len(),
    ensures
        pack_count(lanes, n) == packable_lanes(lanes.take(n)).len(),
    decreases n,
{
    reveal(Seq::filter);
    if n > 0 {
        lemma_pack_count(lanes, n - 1);
        assert(lanes.take(n).drop_last() =~= lanes.take(n - 1));
        assert(lanes.take(n).last() == lanes[n - 1]);
    }
}

/// A lane is packed exactly where it can share a verify, at least one other can too, and fewer than
/// five that can stand before it: a pack holds the first two to five of them.
pub proof fn law_packs_hold_the_first_lanes_that_can(s: BatchScheduler, i: int)
    requires
        0 <= i < s.lanes@.len(),
        s.mtp.active,
        s.mtp.spec_source is Mtp,
        s.mtp.depth > 0,
        s.setup.mtp_lanes,
    ensures
        ({
            let l = s.lanes@[i];
            route_of(s, i) is Pack <==> (l.params.greedy && l.mtp_primed && !l.mtp_stale && l.schema
                is None && packable_lanes(s.lanes@).len() >= 2 && packable_lanes(
                s.lanes@.take(i),
            ).len() < 5)
        }),
{
    lemma_pack_count(s.lanes@, s.lanes@.len() as int);
    lemma_pack_count(s.lanes@, i);
    assert(s.lanes@.take(s.lanes@.len() as int) =~= s.lanes@);
}

/// A lane that the head serves misses the other drafters' contexts: they are not used for it again.
/// Nothing else about a lane changes by being routed.
pub proof fn law_a_missed_context_is_stale(l: Lane, r: Route)
    ensures
        (r is Head || r is HeadTree || r is HeadSample || r is Pack) && l.df2_primed ==> marked(
            l,
            r,
        ).df2_stale,
        !(r is Head || r is HeadTree || r is HeadSample || r is Pack) ==> marked(l, r) == l,
        marked(l, r) == (Lane { df2_stale: marked(l, r).df2_stale, ..l }),
        l.df2_stale ==> marked(l, r).df2_stale,
{
}

/// A lane is cancelled where its client has gone. Where several devices serve, only the word that
/// all of them heard counts.
pub proof fn law_cancelling_goes_by_one_word(s: BatchScheduler, closed: Seq<bool>, i: int)
    ensures
        s.setup.tp_serving ==> cancelled(s, closed, i) == s.lanes@[i].tp_cancelled,
        !s.setup.tp_serving && closed[i] ==> cancelled(s, closed, i),
        s.lanes@[i].tp_cancelled ==> cancelled(s, closed, i),
        !closed[i] && !s.lanes@[i].tp_cancelled ==> !cancelled(s, closed, i),
{
}

} // verus!
