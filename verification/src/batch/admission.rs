//! Admitting a request: which slot it gets, how much of its prompt is reused, which drafters it may
//! use, how much it may generate, and when it is turned away.

use vstd::prelude::*;

use crate::batch::lane::Params;
use crate::batch::pick;
use crate::batch::pick::{Origin, Pick};
use crate::batch::prefix;
use crate::batch::prefix::{ImageIdentity, ImageSpan};
use crate::batch::rings::Df2Ring;
use crate::batch::scheduler;
use crate::batch::scheduler::{BatchScheduler, PfCursor, DRAFT_RESERVE};
use crate::batch::slots;
use crate::batch::slots::{Slots, RING_CKPT_K};
use crate::batch::sources;
use crate::batch::sources::{Domain, SpecSource};
use crate::dspark::round::DsparkRound;
use crate::json_schema::mask::SchemaMask;
use crate::single;
use crate::single::{Single, MICRO_BITS, SINGLE_INFINITY};

verus! {

/// A request.
pub struct BatchRequest {
    pub prompt: Vec<u32>,
    pub max_new: usize,
    pub temperature: Single,
    pub top_p: Single,
    pub top_k: usize,
    pub rep_penalty: Single,
    pub presence_penalty: Single,
    pub frequency_penalty: Single,
    pub min_new: usize,
    pub ignore_eos: bool,
    /// Where the tokens go.
    pub client: u64,
    pub seed: Option<u64>,
    /// Token behind the last message: the longest prefix that the next turn will repeat.
    pub ckpt_at: Option<usize>,
    pub domain: Domain,
    /// Bits of the image embeddings.
    pub image_embeds: Option<Vec<u32>>,
    pub image_spans: Vec<ImageSpan>,
    pub schema: Option<SchemaMask>,
}

/// Switches that hold for one admission.
#[derive(Clone, Copy, PartialEq, Eq, Structural, Debug)]
pub struct AdmitOptions {
    /// Reuse only at ring checkpoints.
    pub grid_reuse: bool,
    /// Carry the block drafter's ring by length alone, for diagnostics.
    pub dspark_ring_blind: bool,
    /// Carry the selector's ring past the prompt, for diagnostics.
    pub df2_len_only: bool,
    /// The key of the draws where the request names none.
    pub derived_seed: u64,
}

/// What is decided for a request that got a slot.
#[derive(Clone, Copy, PartialEq, Eq, Structural, Debug)]
pub struct Plan {
    pub phys: usize,
    pub reuse: usize,
    pub origin: Option<Origin>,
    pub greedy: bool,
    pub dspark_carry: bool,
    pub df2_carry: bool,
    /// The claim on the selector's ring stays true.
    pub claim_survives: bool,
    pub will_use_mtp: bool,
    pub will_use_df2: bool,
    pub will_use_dspark: bool,
    pub will_use_dflash: bool,
    /// Tokens that may be generated; zero where the prompt leaves no room.
    pub max_new: usize,
}

/// How an admission ended.
pub struct Admitted {
    /// Checkpoint that the slot's state is taken back from.
    pub restore: Option<usize>,
    /// The reason where the request was turned away.
    pub refused: Option<String>,
}

/// Identities of a request's images.
pub open spec fn images_of(req: BatchRequest) -> Seq<ImageIdentity> {
    match req.image_embeds {
        None => Seq::empty(),
        Some(e) => Seq::new(
            req.image_spans@.len(),
            |k: int| prefix::identity(e@, req.image_spans@, k),
        ),
    }
}

/// The state that a request resumes from; none without the prefix cache.
pub open spec fn resumed(s: BatchScheduler, req: BatchRequest, grid: bool) -> Option<Pick> {
    if s.setup.prefix_cache {
        pick::best_pick(s.slots, s.free_slots@, req.prompt@, images_of(req), grid)
    } else {
        None
    }
}

/// The slot that a request gets: the one it resumes from, else the last free one.
pub open spec fn slot_for(s: BatchScheduler, req: BatchRequest, grid: bool) -> usize {
    match resumed(s, req, grid) {
        Some(p) => p.slot,
        None => s.free_slots@.last(),
    }
}

/// The free slots behind that.
pub open spec fn free_after(s: BatchScheduler, req: BatchRequest, grid: bool) -> Seq<usize> {
    match resumed(s, req, grid) {
        Some(p) => s.free_slots@.remove(p.index as int),
        None => s.free_slots@.drop_last(),
    }
}

/// What is decided for a request, where a slot is free.
#[verifier::opaque]
pub open spec fn plan_for(s: BatchScheduler, req: BatchRequest, o: AdmitOptions) -> Plan {
    let picked = resumed(s, req, o.grid_reuse);
    let phys = slot_for(s, req, o.grid_reuse);
    let reuse = match picked {
        Some(p) => p.reuse,
        None => 0,
    };
    let plen = req.prompt@.len();
    let src = s.mtp.spec_source;
    let greedy = req.temperature.lt(Single { bits: MICRO_BITS });
    let live = prefix::lcp(s.slots.cache@[phys as int]@, req.prompt@);
    let dspark_carry = reuse > 0 && src == SpecSource::Dspark && s.slots.dspark_len@[phys as int]
        >= reuse && ((s.dspark is Some && s.dspark->0.ring_slot == Some(phys))
        || o.dspark_ring_blind);
    let ring_len = if s.df2 is Some {
        s.df2->0.ring_len as int
    } else {
        0
    };
    let df2_carry = s.df2 is Some && prefix::carries(
        s.setup.df2_carry_enabled,
        sources::df2_family(src),
        reuse,
        plen as usize,
        phys,
        s.df2->0.ring_slot,
        s.df2->0.ring_len,
        o.df2_len_only,
    );
    let drafting = s.mtp.active;
    let plain = req.schema is None;
    let room = s.setup.kv_stride - plen - scheduler::reserve(drafting);
    Plan {
        phys,
        reuse,
        origin: match picked {
            Some(p) => Some(p.origin),
            None => None,
        },
        greedy,
        dspark_carry,
        df2_carry,
        claim_survives: ring_len > 0 && live >= if ring_len < plen {
            ring_len
        } else {
            plen as int
        },
        will_use_mtp: drafting,
        will_use_df2: drafting && sources::df2_family(src) && s.df2 is Some && s.df2_prime && (reuse
            == 0 || df2_carry) && plain,
        will_use_dspark: drafting && src == SpecSource::Dspark && s.dspark is Some
            && s.dspark_prime && (reuse == 0 || dspark_carry) && plain,
        will_use_dflash: drafting && src == SpecSource::DFlash && s.dflash is Some && reuse == 0
            && greedy && plain,
        max_new: if room <= 0 {
            0
        } else if req.max_new < room {
            req.max_new
        } else {
            room as usize
        },
    }
}

/// The checkpoint that goes with an origin.
pub open spec fn checkpoint_of(s: BatchScheduler, phys: usize, origin: Option<Origin>) -> Option<
    usize,
> {
    match origin {
        Some(Origin::Ckpt) => Some((s.setup.layout.prompt_ckpt_slot + phys) as usize),
        Some(Origin::Ring(j)) => Some(
            (s.setup.layout.ring_ckpt_slot + phys * RING_CKPT_K + j) as usize,
        ),
        _ => None,
    }
}

/// Ring checkpoints behind the reused tokens are dropped: their positions are taken again.
pub open spec fn kept_lens(lens: Seq<usize>, reuse: usize) -> Seq<usize> {
    Seq::new(
        lens.len(),
        |j: int|
            if lens[j] > reuse {
                0
            } else {
                lens[j]
            },
    )
}

impl BatchScheduler {
    pub(crate) fn plan_request(
        &self,
        req: &BatchRequest,
        imgs: &Vec<ImageIdentity>,
        o: &AdmitOptions,
    ) -> (r: (Plan, Option<usize>))
        requires
            self.wf(),
            self.free_slots@.len() > 0,
            imgs@ == images_of(*req),
        ensures
            r.0 == plan_for(*self, *req, *o),
            r.1 == match resumed(*self, *req, o.grid_reuse) {
                Some(p) => Some(p.index),
                None => None,
            },
    {
        proof {
            reveal(plan_for);
            assert forall|i: int| 0 <= i < self.free_slots@.len() implies
                #[trigger] self.free_slots@[i] < self.setup.max_batch by {
                self.lemma_free_slot(i);
            }
        }
        let picked = if self.setup.prefix_cache {
            pick::pick_slot(
                &self.slots,
                &self.free_slots,
                &req.prompt,
                imgs,
                o.grid_reuse,
                Ghost(self.setup.max_batch as int),
            )
        } else {
            None
        };
        let plen: usize = req.prompt.len();
        assert(self.free_slots.len() == self.free_slots@.len());
        proof {
            if picked is Some {
                pick::law_reuse_is_a_prefix(
                    self.slots,
                    self.free_slots@,
                    req.prompt@,
                    imgs@,
                    o.grid_reuse,
                    self.setup.max_batch as int,
                    picked->0,
                );
            }
        }
        let (phys, reuse, origin, index): (usize, usize, Option<Origin>, Option<usize>) =
            match picked {
            Some(p) => (p.slot, p.reuse, Some(p.origin), Some(p.index)),
            None => (self.free_slots[self.free_slots.len() - 1], 0, None, None),
        };
        let live: usize = prefix::common_prefix_len(
            self.slots.cache[phys].as_slice(),
            req.prompt.as_slice(),
        );
        let src = self.mtp.spec_source();
        let greedy = req.temperature.less(Single { bits: MICRO_BITS });
        let ring_here = match &self.dspark {
            Some(d) => match d.ring_slot() {
                Some(s) => s == phys,
                None => false,
            },
            None => false,
        };
        let dspark_carry = reuse > 0 && src == SpecSource::Dspark && self.slots.dspark_len[phys]
            >= reuse && (ring_here || o.dspark_ring_blind);
        let (df2_carry, ring_len): (bool, usize) = match &self.df2 {
            Some(d) => (
                prefix::df2_carry_ok(
                    self.setup.df2_carry_enabled,
                    sources::is_df2_src(src),
                    reuse,
                    plen,
                    phys,
                    d.ring_slot,
                    d.ring_len,
                    o.df2_len_only,
                ),
                d.ring_len,
            ),
            None => (false, 0),
        };
        let covered: usize = if ring_len < plen {
            ring_len
        } else {
            plen
        };
        let drafting = self.mtp.active();
        let plain = req.schema.is_none();
        let headroom: usize = if drafting {
            DRAFT_RESERVE
        } else {
            1
        };
        let room: usize = if plen >= self.setup.kv_stride || headroom >= self.setup.kv_stride
            - plen {
            0
        } else {
            self.setup.kv_stride - plen - headroom
        };
        let max_new: usize = if req.max_new < room {
            req.max_new
        } else {
            room
        };
        let plan = Plan {
            phys,
            reuse,
            origin,
            greedy,
            dspark_carry,
            df2_carry,
            claim_survives: ring_len > 0 && live >= covered,
            will_use_mtp: drafting,
            will_use_df2: drafting && sources::is_df2_src(src) && self.df2.is_some()
                && self.df2_prime && (reuse == 0 || df2_carry) && plain,
            will_use_dspark: drafting && src == SpecSource::Dspark && self.dspark.is_some()
                && self.dspark_prime && (reuse == 0 || dspark_carry) && plain,
            will_use_dflash: drafting && src == SpecSource::DFlash && self.dflash.is_some()
                && reuse == 0 && greedy && plain,
            max_new,
        };
        (plan, index)
    }
}

/// The block drafter's ring behind an admission. Without a carry the claim on it is dropped; a
/// request that will use it starts at the reused tokens, or from nothing.
pub open spec fn dspark_after(s: BatchScheduler, p: Plan, started: bool) -> Option<DsparkRound> {
    match s.dspark {
        None => None,
        Some(d) => Some(
            if started && p.will_use_dspark {
                if p.dspark_carry {
                    DsparkRound { nprev: p.reuse, ..d }
                } else {
                    DsparkRound { nprev: 0, ring_slot: None, ..d }
                }
            } else if p.dspark_carry {
                d
            } else {
                DsparkRound { ring_slot: None, ..d }
            },
        ),
    }
}

/// The selector's ring behind an admission. The claim is dropped only where it would be false.
pub open spec fn df2_after(s: BatchScheduler, p: Plan, started: bool) -> Option<Df2Ring> {
    match s.df2 {
        None => None,
        Some(d) => Some(
            if started && p.will_use_df2 {
                if p.df2_carry {
                    Df2Ring { nprev: p.reuse, ..d }
                } else {
                    Df2Ring { nprev: 0, ring_slot: None, ring_len: 0 }
                }
            } else if !p.df2_carry && !p.claim_survives && d.ring_slot == Some(p.phys) {
                Df2Ring { ring_slot: None, ring_len: 0, ..d }
            } else {
                d
            },
        ),
    }
}

/// What an admission leaves alone.
pub open spec fn undisturbed(before: BatchScheduler, after: BatchScheduler) -> bool {
    &&& after.setup == before.setup
    &&& after.lanes == before.lanes
    &&& after.done == before.done
    &&& after.mtp == before.mtp
    &&& after.df2_prime == before.df2_prime
    &&& after.dspark_prime == before.dspark_prime
    &&& after.dflash == before.dflash
    &&& after.resident_dirty == before.resident_dirty
    &&& after.pen_had == before.pen_had
    &&& after.pen_key == before.pen_key
    &&& after.stats == before.stats
    &&& after.slots.ckpt_seq == before.slots.ckpt_seq
    &&& after.slots.ckpt_images == before.slots.ckpt_images
    &&& after.slots.ring_cursor == before.slots.ring_cursor
}

/// The bookkeeping of the slot that was taken.
pub open spec fn slot_taken(before: Slots, after: Slots, p: Plan) -> bool {
    &&& after.ring_len@.len() == before.ring_len@.len()
    &&& after.ring_len@[p.phys as int]@ == kept_lens(before.ring_len@[p.phys as int]@, p.reuse)
    &&& forall|s: int|
        0 <= s < before.ring_len@.len() && s != p.phys ==> #[trigger] after.ring_len@[s]
            == before.ring_len@[s]
    &&& after.dspark_len@ == if p.dspark_carry {
        before.dspark_len@
    } else {
        before.dspark_len@.update(p.phys as int, 0)
    }
}

/// The cursor of a request that was taken in.
pub open spec fn starts_cursor(
    s: BatchScheduler,
    req: BatchRequest,
    o: AdmitOptions,
    p: Plan,
    c: PfCursor,
) -> bool {
    &&& c.params == (Params {
        client: req.client,
        max_new: p.max_new,
        min_new: req.min_new,
        ignore_eos: req.ignore_eos,
        greedy: p.greedy,
        domain: req.domain,
        temperature: req.temperature,
        top_p: req.top_p,
        top_k: req.top_k,
        rep_penalty: req.rep_penalty,
        presence_penalty: req.presence_penalty,
        frequency_penalty: req.frequency_penalty,
    })
    &&& c.phys == p.phys
    &&& c.prompt == req.prompt
    &&& c.reuse == p.reuse
    &&& c.w0 == p.reuse
    &&& c.ckpt_at == match req.ckpt_at {
        Some(k) => if s.setup.prefix_cache && p.reuse < k < req.prompt@.len() {
            Some(k)
        } else {
            None
        },
        None => None,
    }
    &&& c.grid_reuse == o.grid_reuse
    &&& c.req_imgs@ == images_of(req)
    &&& c.schema == req.schema
    &&& c.will_use_mtp == p.will_use_mtp
    &&& c.will_use_df2 == p.will_use_df2
    &&& c.will_use_dspark == p.will_use_dspark
    &&& c.df2_carry == p.df2_carry
    &&& c.dspark_carry == p.dspark_carry
    &&& c.first_tok == 0
    &&& !c.first_sent
    &&& c.df2_primed_ok
    &&& c.dspark_primed_ok
    &&& c.seed == match req.seed {
        Some(x) => x,
        None => o.derived_seed,
    }
}

/// An admission, from the state before to the state after.
pub open spec fn taken_in(
    before: BatchScheduler,
    after: BatchScheduler,
    req: BatchRequest,
    o: AdmitOptions,
    r: Admitted,
) -> bool {
    if before.free_slots@.len() == 0 {
        &&& after == before
        &&& r.restore is None
        &&& r.refused is Some
        &&& r.refused->0@ == "capacity"@
    } else {
        let p = plan_for(before, req, o);
        let started = p.max_new > 0;
        &&& undisturbed(before, after)
        &&& slot_taken(before.slots, after.slots, p)
        &&& r.restore == checkpoint_of(before, p.phys, p.origin)
        &&& !after.dflash_prime_done
        &&& after.dflash_prime_armed == p.will_use_dflash
        &&& after.dspark == dspark_after(before, p, started)
        &&& after.df2 == df2_after(before, p, started)
        &&& if started {
            &&& r.refused is None
            &&& after.free_slots@ == free_after(before, req, o.grid_reuse)
            &&& after.slots.cache == before.slots.cache
            &&& after.slots.cache_images == before.slots.cache_images
            &&& after.pf is Some
            &&& starts_cursor(before, req, o, p, after.pf->0)
        } else {
            &&& r.refused is Some
            &&& r.refused->0@ == "context_length_exceeded"@
            &&& after.pf is None
            &&& after.free_slots@ == free_after(before, req, o.grid_reuse).push(p.phys)
            &&& follows_checkpoint(before.slots, after.slots, p)
        }
    }
}

/// Where the slot's state was taken back to the prompt checkpoint, what the slot remembers of its
/// live state follows it.
pub open spec fn follows_checkpoint(before: Slots, after: Slots, p: Plan) -> bool {
    &&& after.cache@.len() == before.cache@.len()
    &&& after.cache_images@.len() == before.cache_images@.len()
    &&& forall|s: int|
        0 <= s < before.cache@.len() && s != p.phys ==> #[trigger] after.cache@[s]
            == before.cache@[s]
    &&& forall|s: int|
        0 <= s < before.cache_images@.len() && s != p.phys ==> #[trigger] after.cache_images@[s]
            == before.cache_images@[s]
    &&& if p.origin == Some(Origin::Ckpt) {
        &&& after.cache@[p.phys as int]@ == before.ckpt_seq@[p.phys as int]@
        &&& after.cache_images@[p.phys as int]@ == before.ckpt_images@[p.phys as int]@
    } else {
        &&& after.cache@[p.phys as int] == before.cache@[p.phys as int]
        &&& after.cache_images@[p.phys as int] == before.cache_images@[p.phys as int]
    }
}

fn drop_lens(lens: &mut Vec<usize>, reuse: usize)
    ensures
        final(lens)@ == kept_lens(old(lens)@, reuse),
{
    let ghost before = lens@;
    let mut j: usize = 0;
    while j < lens.len()
        invariant
            j <= lens@.len(),
            lens@.len() == before.len(),
            forall|k: int| 0 <= k < j ==> #[trigger] lens@[k] == kept_lens(before, reuse)[k],
            forall|k: int| j <= k < before.len() ==> #[trigger] lens@[k] == before[k],
        decreases lens@.len() - j,
    {
        if lens[j] > reuse {
            lens.set(j, 0);
        }
        j += 1;
    }
    assert(lens@ =~= kept_lens(before, reuse));
}

impl BatchScheduler {
    /// What `plan_for` gives is sound.
    pub proof fn lemma_plan(&self, req: BatchRequest, o: AdmitOptions)
        requires
            self.wf(),
            self.free_slots@.len() > 0,
            self.free_slots@.len() <= usize::MAX,
            req.prompt@.len() <= usize::MAX,
        ensures
            ({
                let p = plan_for(*self, req, o);
                &&& p.phys == slot_for(*self, req, o.grid_reuse)
                &&& p.phys < self.setup.max_batch
                &&& (p.will_use_df2 ==> p.will_use_mtp && self.df2 is Some && req.schema is None)
                &&& (p.will_use_dspark ==> p.will_use_mtp && self.dspark is Some && req.schema
                    is None)
                &&& self.free_slots@.contains(p.phys)
                &&& p.reuse <= req.prompt@.len()
                &&& p.reuse > 0 ==> p.reuse < req.prompt@.len()
                &&& o.grid_reuse ==> p.reuse % slots::RING_CKPT_STRIDE == 0
                &&& (p.origin matches Some(Origin::Ring(j)) ==> j < RING_CKPT_K)
                &&& (p.max_new > 0 ==> req.prompt@.len() + p.max_new + scheduler::reserve(
                    p.will_use_mtp,
                ) <= self.setup.kv_stride)
            }),
            forall|x: usize|
                slots::held(self.free_slots@, x) == #[trigger] slots::held(
                    free_after(*self, req, o.grid_reuse),
                    x,
                ) + if x == slot_for(*self, req, o.grid_reuse) {
                    1int
                } else {
                    0
                },
            free_after(*self, req, o.grid_reuse).len() == self.free_slots@.len() - 1,
            resumed(*self, req, o.grid_reuse) matches Some(p) ==> p.index < self.free_slots@.len()
                && self.free_slots@[p.index as int] == p.slot,
    {
        reveal(plan_for);
        assert forall|i: int| 0 <= i < self.free_slots@.len() implies #[trigger] self.free_slots@[i]
            < self.setup.max_batch by {
            self.lemma_free_slot(i);
        }
        match resumed(*self, req, o.grid_reuse) {
            Some(p) => {
                pick::law_reuse_is_a_prefix(
                    self.slots,
                    self.free_slots@,
                    req.prompt@,
                    images_of(req),
                    o.grid_reuse,
                    self.setup.max_batch as int,
                    p,
                );
                assert forall|x: usize|
                    slots::held(self.free_slots@, x) == #[trigger] slots::held(
                        free_after(*self, req, o.grid_reuse),
                        x,
                    ) + if x == p.slot {
                        1int
                    } else {
                        0
                    } by {
                    slots::lemma_held_remove(self.free_slots@, p.index as int, x);
                }
                assert(self.free_slots@.contains(p.slot));
            },
            None => {
                let last = self.free_slots@.len() - 1;
                assert(self.free_slots@[last] == self.free_slots@.last());
                assert forall|x: usize|
                    slots::held(self.free_slots@, x) == #[trigger] slots::held(
                        free_after(*self, req, o.grid_reuse),
                        x,
                    ) + if x == self.free_slots@.last() {
                        1int
                    } else {
                        0
                    } by {}
            },
        }
    }

    /// The checkpoint that goes with an origin.
    fn checkpoint(&self, phys: usize, origin: Option<Origin>) -> (r: Option<usize>)
        requires
            self.setup_ok(),
            phys < self.setup.max_batch,
            origin matches Some(Origin::Ring(j)) ==> j < RING_CKPT_K,
        ensures
            r == checkpoint_of(*self, phys, origin),
    {
        proof {
            assert(phys * RING_CKPT_K + RING_CKPT_K <= self.setup.max_batch * RING_CKPT_K)
                by (nonlinear_arith)
                requires
                    phys < self.setup.max_batch,
            ;
        }
        match origin {
            Some(Origin::Ckpt) => Some(self.setup.layout.prompt_ckpt_slot + phys),
            Some(Origin::Ring(j)) => Some(
                self.setup.layout.ring_ckpt_slot + phys * RING_CKPT_K + j,
            ),
            _ => None,
        }
    }

    /// Takes the slot and drops the claims that do not survive.
    fn take_slot(&mut self, p: &Plan, index: Option<usize>)
        requires
            old(self).slots.wf(old(self).setup.max_batch as int),
            p.phys < old(self).setup.max_batch,
            old(self).free_slots@.len() > 0,
            index matches Some(i) ==> i < old(self).free_slots@.len(),
        ensures
            undisturbed(*old(self), *final(self)),
            final(self).pf == old(self).pf,
            final(self).slots.wf(old(self).setup.max_batch as int),
            final(self).slots.cache == old(self).slots.cache,
            final(self).slots.cache_images == old(self).slots.cache_images,
            slot_taken(old(self).slots, final(self).slots, *p),
            final(self).free_slots@ == match index {
                Some(i) => old(self).free_slots@.remove(i as int),
                None => old(self).free_slots@.drop_last(),
            },
            !final(self).dflash_prime_done,
            final(self).dflash_prime_armed == p.will_use_dflash,
            final(self).dspark == dspark_after(*old(self), *p, false),
            final(self).df2 == df2_after(*old(self), *p, false),
    {
        let ghost before = *self;
        let phys: usize = p.phys;
        match index {
            Some(i) => {
                self.free_slots.remove(i);
            },
            None => {
                self.free_slots.pop();
            },
        }
        drop_lens(&mut self.slots.ring_len[phys], p.reuse);
        if !p.dspark_carry {
            self.slots.dspark_len.set(phys, 0);
            match &mut self.dspark {
                Some(d) => d.invalidate_ring(),
                None => {},
            }
        }
        if !p.df2_carry && !p.claim_survives {
            match &mut self.df2 {
                Some(d) => {
                    let mine = match d.ring_slot {
                        Some(s) => s == phys,
                        None => false,
                    };
                    if mine {
                        d.invalidate_ring();
                    }
                },
                None => {},
            }
        }
        self.dflash_prime_done = false;
        self.dflash_prime_armed = p.will_use_dflash;
        assert(slots::on_grid(self.slots.ring_len@[phys as int]@)) by {
            assert(slots::on_grid(before.slots.ring_len@[phys as int]@));
            assert forall|j: int| 0 <= j < self.slots.ring_len@[phys as int]@.len() implies
                #[trigger] self.slots.ring_len@[phys as int]@[j] % slots::RING_CKPT_STRIDE == 0 by {
                assert(before.slots.ring_len@[phys as int]@[j] % slots::RING_CKPT_STRIDE == 0);
            }
        }
        proof {
            assert forall|s: int| 0 <= s < self.setup.max_batch implies (
            #[trigger] self.slots.ring_len@[s])@.len() == RING_CKPT_K && slots::on_grid(
                self.slots.ring_len@[s]@,
            ) by {
                assert(before.slots.ring_len@[s]@.len() == RING_CKPT_K);
            }
        }
    }

    /// Gives the slot back.
    fn give_back(&mut self, p: &Plan)
        requires
            old(self).slots.wf(old(self).setup.max_batch as int),
            p.phys < old(self).setup.max_batch,
            old(self).free_slots@.len() < usize::MAX,
        ensures
            final(self).free_slots@ == old(self).free_slots@.push(p.phys),
            final(self).slots.wf(old(self).setup.max_batch as int),
            follows_checkpoint(old(self).slots, final(self).slots, *p),
            *final(self) == (BatchScheduler {
                free_slots: final(self).free_slots,
                slots: final(self).slots,
                ..*old(self)
            }),
            final(self).slots == (Slots {
                cache: final(self).slots.cache,
                cache_images: final(self).slots.cache_images,
                ..old(self).slots
            }),
    {
        let phys: usize = p.phys;
        match p.origin {
            Some(Origin::Ckpt) => {
                let seq = self.slots.ckpt_seq[phys].clone();
                let images = self.slots.ckpt_images[phys].clone();
                assert(seq@ =~= self.slots.ckpt_seq@[phys as int]@);
                assert(images@ =~= self.slots.ckpt_images@[phys as int]@);
                self.slots.cache.set(phys, seq);
                self.slots.cache_images.set(phys, images);
            },
            _ => {},
        }
        self.free_slots.push(phys);
    }

    /// Leaves the cursor of a request.
    fn start_cursor(
        &mut self,
        req: BatchRequest,
        imgs: Vec<ImageIdentity>,
        p: &Plan,
        o: &AdmitOptions,
        Ghost(s): Ghost<BatchScheduler>,
    )
        requires
            imgs@ == images_of(req),
            old(self).setup == s.setup,
            old(self).dspark == dspark_after(s, *p, false),
            old(self).df2 == df2_after(s, *p, false),
        ensures
            final(self).pf is Some,
            starts_cursor(s, req, *o, *p, final(self).pf->0),
            final(self).dspark == dspark_after(s, *p, true),
            final(self).df2 == df2_after(s, *p, true),
            *final(self) == (BatchScheduler {
                pf: final(self).pf,
                df2: final(self).df2,
                dspark: final(self).dspark,
                ..*old(self)
            }),
    {
        if p.will_use_df2 {
            match &mut self.df2 {
                Some(d) => if p.df2_carry {
                    d.rewind(p.reuse);
                } else {
                    d.reset();
                },
                None => {},
            }
        }
        if p.will_use_dspark {
            match &mut self.dspark {
                Some(d) => if p.dspark_carry {
                    d.rewind(p.reuse);
                } else {
                    d.reset();
                },
                None => {},
            }
        }
        let ckpt_at: Option<usize> = match req.ckpt_at {
            Some(k) => if self.setup.prefix_cache && p.reuse < k && k < req.prompt.len() {
                Some(k)
            } else {
                None
            },
            None => None,
        };
        let seed: u64 = match req.seed {
            Some(x) => x,
            None => o.derived_seed,
        };
        let params = Params {
            client: req.client,
            max_new: p.max_new,
            min_new: req.min_new,
            ignore_eos: req.ignore_eos,
            greedy: p.greedy,
            domain: req.domain,
            temperature: req.temperature,
            top_p: req.top_p,
            top_k: req.top_k,
            rep_penalty: req.rep_penalty,
            presence_penalty: req.presence_penalty,
            frequency_penalty: req.frequency_penalty,
        };
        self.pf = Some(
            PfCursor {
                params,
                phys: p.phys,
                prompt: req.prompt,
                reuse: p.reuse,
                w0: p.reuse,
                ckpt_at,
                grid_reuse: o.grid_reuse,
                req_imgs: imgs,
                schema: req.schema,
                will_use_mtp: p.will_use_mtp,
                will_use_df2: p.will_use_df2,
                will_use_dspark: p.will_use_dspark,
                df2_carry: p.df2_carry,
                dspark_carry: p.dspark_carry,
                first_tok: 0,
                first_sent: false,
                df2_primed_ok: true,
                dspark_primed_ok: true,
                seed,
            },
        );
    }

    /// Takes a request in: picks a slot, resumes from the longest state that fits, decides on the
    /// drafters and leaves a cursor for the prefill. A request whose prompt leaves no room is
    /// turned away, and its slot goes back.
    pub fn admit_request(&mut self, req: BatchRequest, o: AdmitOptions) -> (r: Admitted)
        requires
            old(self).wf(),
            old(self).pf is None,
            prefix::tokens_before(req.image_spans@, req.image_spans@.len() as int) <= usize::MAX,
            req.schema matches Some(m) ==> m.wf(),
        ensures
            final(self).wf(),
            taken_in(*old(self), *final(self), req, o, r),
    {
        let ghost before = *self;
        if self.free_slots.len() == 0 {
            return Admitted { restore: None, refused: Some(String::from_str("capacity")) };
        }
        let imgs = prefix::request_image_identities(
            match &req.image_embeds {
                Some(e) => Some(e),
                None => None,
            },
            req.image_spans.as_slice(),
        );
        assert(imgs@ =~= images_of(req));
        let (p, index) = self.plan_request(&req, &imgs, &o);
        assert(req.prompt.len() == req.prompt@.len());
        proof {
            before.lemma_plan(req, o);
        }
        let restore = self.checkpoint(p.phys, p.origin);
        self.take_slot(&p, index);
        assert(self.free_slots@ == free_after(before, req, o.grid_reuse));
        if p.max_new == 0 {
            self.give_back(&p);
            proof {
                let free = free_after(before, req, o.grid_reuse);
                assert forall|x: usize| #[trigger] self.holders(x) == before.holders(x) by {
                    slots::lemma_held_push(free, p.phys, x);
                    assert(slots::held(before.free_slots@, x) == slots::held(free, x) + if x
                        == p.phys {
                        1int
                    } else {
                        0
                    });
                }
                before.lemma_admission_keeps_wf(*self, p.phys);
            }
            return Admitted {
                restore,
                refused: Some(String::from_str("context_length_exceeded")),
            };
        }
        let ghost asked = req;
        self.start_cursor(req, imgs, &p, &o, Ghost(before));
        proof {
            let free = free_after(before, asked, o.grid_reuse);
            assert forall|x: usize| #[trigger] self.holders(x) == before.holders(x) by {
                assert(slots::held(before.free_slots@, x) == slots::held(free, x) + if x == p.phys {
                    1int
                } else {
                    0
                });
            }
            assert(self.cursor_ok(self.pf->0));
            before.lemma_admission_keeps_wf(*self, p.phys);
        }
        Admitted { restore, refused: None }
    }

    proof fn lemma_admission_keeps_wf(&self, after: BatchScheduler, phys: usize)
        requires
            self.wf(),
            self.free_slots@.contains(phys),
            undisturbed(*self, after),
            after.slots.wf(self.setup.max_batch as int),
            forall|s: int|
                0 <= s < self.slots.cache@.len() && s != phys ==> #[trigger] after.slots.cache@[s]
                    == self.slots.cache@[s],
            forall|x: usize| #[trigger] after.holders(x) == self.holders(x),
            after.free_slots@.len() + (if after.pf is Some {
                1int
            } else {
                0
            }) == self.free_slots@.len() + (if self.pf is Some {
                1int
            } else {
                0
            }),
            after.pf matches Some(c) ==> after.cursor_ok(c),
        ensures
            after.wf(),
    {
        let f = choose|f: int| 0 <= f < self.free_slots@.len() && self.free_slots@[f] == phys;
        self.lemma_free_slot(f);
        assert forall|i: int| 0 <= i < after.lanes@.len() implies after.lane_known(
            #[trigger] after.lanes@[i],
        ) by {
            assert(self.lane_known(self.lanes@[i]));
        }
        assert forall|i: int| 0 <= i < after.lanes@.len() && !after.done@[i] implies after.lane_ok(
            #[trigger] after.lanes@[i],
        ) by {
            assert(self.lane_ok(self.lanes@[i]));
            self.lemma_lane_slot(i);
            assert(self.lanes@[i].phys != phys);
            let q = self.lanes@[i].phys as int;
            assert(after.slots.cache@[q] == self.slots.cache@[q]);
        }
        assert(after.slots_held()) by {
            assert forall|s: usize| #[trigger] after.holders(s) == if s < after.setup.max_batch {
                1int
            } else {
                0
            } by {
                assert(after.holders(s) == self.holders(s));
            }
        }
    }
}

/// The claim on the block drafter's ring is true: its rows are those of the tokens `rows`, and as
/// far as slot `x` lays claim to it, these are the tokens that the slot has consumed.
pub open spec fn claim_holds(s: BatchScheduler, rows: Seq<u32>, x: usize) -> bool {
    let n = s.slots.dspark_len@[x as int] as int;
    &&& n <= rows.len()
    &&& n <= s.slots.cache@[x as int]@.len()
    &&& rows.take(n) == s.slots.cache@[x as int]@.take(n)
}

/// A ring is carried only where its rows are those of the reused tokens: the claim names the slot,
/// and the claim holds. (A prompt checkpoint is taken of a prefix of what the slot has consumed.)
pub proof fn law_carried_ring_holds_the_prefix(
    s: BatchScheduler,
    req: BatchRequest,
    o: AdmitOptions,
    rows: Seq<u32>,
)
    requires
        s.wf(),
        s.free_slots@.len() > 0,
        s.free_slots@.len() <= usize::MAX,
        req.prompt@.len() <= usize::MAX,
        !o.dspark_ring_blind,
        plan_for(s, req, o).dspark_carry,
        claim_holds(s, rows, plan_for(s, req, o).phys),
        s.slots.ckpt_seq@[plan_for(s, req, o).phys as int]@.is_prefix_of(
            s.slots.cache@[plan_for(s, req, o).phys as int]@,
        ),
    ensures
        ({
            let p = plan_for(s, req, o);
            &&& s.dspark is Some && s.dspark->0.ring_slot == Some(p.phys)
            &&& rows.take(p.reuse as int) == req.prompt@.take(p.reuse as int)
        }),
{
    reveal(plan_for);
    s.lemma_plan(req, o);
    let p = plan_for(s, req, o);
    let r = p.reuse as int;
    let pick = resumed(s, req, o.grid_reuse)->0;
    assert forall|i: int| 0 <= i < s.free_slots@.len() implies #[trigger] s.free_slots@[i]
        < s.setup.max_batch by {
        s.lemma_free_slot(i);
    }
    pick::law_reuse_is_a_prefix(
        s.slots,
        s.free_slots@,
        req.prompt@,
        images_of(req),
        o.grid_reuse,
        s.setup.max_batch as int,
        pick,
    );
    let cache = s.slots.cache@[p.phys as int]@;
    let n = s.slots.dspark_len@[p.phys as int] as int;
    assert(cache.take(r) == req.prompt@.take(r)) by {
        match pick.origin {
            Origin::Live => {
                assert(cache.take(r) =~= cache);
            },
            Origin::Ckpt => {
                let ckpt = s.slots.ckpt_seq@[p.phys as int]@;
                assert(cache.take(r) =~= ckpt);
            },
            Origin::Ring(_) => {},
        }
    }
    assert(rows.take(r) =~= rows.take(n).take(r));
    assert(cache.take(r) =~= cache.take(n).take(r));
}

/// The claim on the selector's ring outlives an admission only where it stays true: the new prompt
/// agrees with what the slot has consumed as far as the claim reaches into it.
pub proof fn law_surviving_claim_stays_true(s: BatchScheduler, req: BatchRequest, o: AdmitOptions)
    requires
        s.wf(),
        s.free_slots@.len() > 0,
        plan_for(s, req, o).claim_survives,
    ensures
        ({
            let p = plan_for(s, req, o);
            let cache = s.slots.cache@[p.phys as int]@;
            let n = s.df2->0.ring_len as int;
            let k = if n < req.prompt@.len() {
                n
            } else {
                req.prompt@.len() as int
            };
            &&& s.df2 is Some
            &&& k <= cache.len()
            &&& cache.take(k) == req.prompt@.take(k)
        }),
{
    reveal(plan_for);
    let p = plan_for(s, req, o);
    let cache = s.slots.cache@[p.phys as int]@;
    let live = prefix::lcp(cache, req.prompt@);
    prefix::lemma_lcp_prefix(cache, req.prompt@);
    let n = s.df2->0.ring_len as int;
    let k = if n < req.prompt@.len() {
        n
    } else {
        req.prompt@.len() as int
    };
    assert(cache.take(k) =~= cache.take(live).take(k));
    assert(req.prompt@.take(k) =~= req.prompt@.take(live).take(k));
}

/// A request that is taken in has room for its budget, and one that is turned away asked for
/// nothing or had none.
pub proof fn law_refusal_means_no_room(s: BatchScheduler, req: BatchRequest, o: AdmitOptions)
    requires
        s.wf(),
        s.free_slots@.len() > 0,
    ensures
        plan_for(s, req, o).max_new == 0 <==> req.max_new == 0 || req.prompt@.len()
            + scheduler::reserve(s.mtp.active) >= s.setup.kv_stride,
        plan_for(s, req, o).max_new <= req.max_new,
{
    reveal(plan_for);
}

/// A request with a schema never takes a drafter that does not mask it.
pub proof fn law_schemas_take_no_ring(s: BatchScheduler, req: BatchRequest, o: AdmitOptions)
    requires
        req.schema is Some,
    ensures
        !plan_for(s, req, o).will_use_df2,
        !plan_for(s, req, o).will_use_dspark,
        !plan_for(s, req, o).will_use_dflash,
{
    reveal(plan_for);
}


/// A request gets what it asked for as far as its cache has room: the budget, the prompt and the
/// reserve fit, and it is cut only where one token more would not.
pub proof fn law_the_budget_fits_the_cache(s: BatchScheduler, req: BatchRequest, o: AdmitOptions)
    ensures
        ({
            let n = plan_for(s, req, o).max_new as int;
            let kept = if s.mtp.active {
                16int
            } else {
                1
            };
            let used = req.prompt@.len() + n + kept;
            &&& n <= req.max_new
            &&& n > 0 ==> used <= s.setup.kv_stride
            &&& n < req.max_new ==> used + 1 > s.setup.kv_stride
        }),
{
    reveal(plan_for);
}

/// A request is greedy exactly where its temperature is below a millionth.
pub proof fn law_greedy_goes_by_the_temperature(
    s: BatchScheduler,
    req: BatchRequest,
    o: AdmitOptions,
)
    requires
        req.temperature.magnitude() < SINGLE_INFINITY,
    ensures
        plan_for(s, req, o).greedy == (single::number_of(req.temperature) < single::number_of(
            Single { bits: 0x3586_37BD },
        )),
{
    reveal(plan_for);
    single::law_singles_compare_as_numbers(req.temperature, Single { bits: MICRO_BITS });
}

/// Which drafters a request will use: the chosen one, where drafting is active, it is there, and
/// there is no schema; a prompt that is resumed part of the way only where the drafter's context
/// reaches as far. The block drafter serves greedy requests that start afresh.
pub proof fn law_drafters_need_their_context(s: BatchScheduler, req: BatchRequest, o: AdmitOptions)
    requires
        s.mtp.active,
        req.schema is None,
    ensures
        ({
            let p = plan_for(s, req, o);
            let src = s.mtp.spec_source;
            &&& p.will_use_mtp
            &&& src is Dspark && s.dspark is Some && s.dspark_prime ==> p.will_use_dspark == (
            p.reuse == 0 || p.dspark_carry)
            &&& (src is DFlash2 || src is DFlash2Rq || src is DFlash2Auto || src is DFlash2Tree)
                && s.df2 is Some && s.df2_prime ==> p.will_use_df2 == (p.reuse == 0 || p.df2_carry)
            &&& src is DFlash && s.dflash is Some ==> p.will_use_dflash == (p.reuse == 0 && p.greedy)
            &&& src is Mtp || src is Plain ==> !p.will_use_dspark && !p.will_use_df2
                && !p.will_use_dflash
            &&& s.dspark is None ==> !p.will_use_dspark
            &&& s.df2 is None ==> !p.will_use_df2
            &&& s.dflash is None ==> !p.will_use_dflash
        }),
{
    reveal(plan_for);
}

/// Where drafting is not active no drafter is used.
pub proof fn law_inactive_drafters_are_not_used(
    s: BatchScheduler,
    req: BatchRequest,
    o: AdmitOptions,
)
    requires
        !s.mtp.active,
    ensures
        ({
            let p = plan_for(s, req, o);
            !p.will_use_mtp && !p.will_use_dspark && !p.will_use_df2 && !p.will_use_dflash
        }),
{
    reveal(plan_for);
}

/// The ring drafter's context is carried over exactly where something is reused, the slot lays claim
/// to at least as many of its rows, and the ring is the slot's.
pub proof fn law_a_context_is_carried_where_it_is_claimed(
    s: BatchScheduler,
    req: BatchRequest,
    o: AdmitOptions,
)
    requires
        !o.dspark_ring_blind,
        s.mtp.spec_source is Dspark,
    ensures
        ({
            let p = plan_for(s, req, o);
            p.dspark_carry <==> 0 < p.reuse <= s.slots.dspark_len@[p.phys as int] && s.dspark is Some
                && s.dspark->0.ring_slot == Some(p.phys)
        }),
{
    reveal(plan_for);
}

/// What is resumed, and from where: without a prefix cache nothing is, and the slot that was freed
/// last is taken; with it the chosen state is, and a checkpoint is restored exactly where it is one.
pub proof fn law_the_chosen_state_is_resumed(
    before: BatchScheduler,
    after: BatchScheduler,
    req: BatchRequest,
    o: AdmitOptions,
    r: Admitted,
)
    requires
        taken_in(before, after, req, o, r),
        before.wf(),
        before.free_slots@.len() > 0,
        before.free_slots@.len() <= usize::MAX,
        req.prompt@.len() <= usize::MAX,
        r.refused is None,
    ensures
        ({
            let c = after.pf->0;
            let cache = before.slots.cache@[c.phys as int]@;
            let ckpt = before.slots.ckpt_seq@[c.phys as int]@;
            &&& after.pf is Some
            &&& c.prompt == req.prompt
            &&& c.w0 == c.reuse
            &&& before.free_slots@.contains(c.phys)
            &&& after.free_slots@.len() == before.free_slots@.len() - 1
            &&& !before.setup.prefix_cache ==> c.reuse == 0 && r.restore is None && c.phys
                == before.free_slots@.last()
            &&& r.restore is None && c.reuse > 0 ==> cache == req.prompt@.take(c.reuse as int)
            &&& r.restore is Some ==> c.reuse > 0 && (ckpt == req.prompt@.take(c.reuse as int)
                || cache.take(c.reuse as int) == req.prompt@.take(c.reuse as int))
            &&& c.reuse < req.prompt@.len() || c.reuse == 0
        }),
{
    reveal(plan_for);
    before.lemma_plan(req, o);
    assert forall|i: int| 0 <= i < before.free_slots@.len() implies #[trigger] before.free_slots@[i]
        < before.setup.max_batch by {
        before.lemma_free_slot(i);
    }
    match resumed(before, req, o.grid_reuse) {
        Some(p) => {
            pick::law_reuse_is_a_prefix(
                before.slots,
                before.free_slots@,
                req.prompt@,
                images_of(req),
                o.grid_reuse,
                before.setup.max_batch as int,
                p,
            );
        },
        None => {},
    }
}

/// Where the prompt leaves no room the request is turned away, the slot goes back, and no lane is
/// started; where no slot is free nothing changes.
pub proof fn law_a_refused_request_leaves_no_trace_in_the_lanes(
    before: BatchScheduler,
    after: BatchScheduler,
    req: BatchRequest,
    o: AdmitOptions,
    r: Admitted,
)
    requires
        taken_in(before, after, req, o, r),
        r.refused is Some,
        before.pf is None,
    ensures
        after.pf is None,
        after.lanes == before.lanes,
        after.done == before.done,
        before.free_slots@.len() == 0 ==> after == before && r.refused->0@ == "capacity"@,
        before.free_slots@.len() > 0 ==> r.refused->0@ == "context_length_exceeded"@,
{
}

/// Claims of ring checkpoints behind the reused length are dropped, the others stay.
pub proof fn law_later_checkpoints_are_dropped(lens: Seq<usize>, reuse: usize, j: int)
    requires
        0 <= j < lens.len(),
    ensures
        kept_lens(lens, reuse).len() == lens.len(),
        kept_lens(lens, reuse)[j] <= reuse,
        lens[j] <= reuse ==> kept_lens(lens, reuse)[j] == lens[j],
        lens[j] > reuse ==> kept_lens(lens, reuse)[j] == 0,
{
}

/// A started request keeps what was asked: its client, its limits, its sampling and its seed, and a
/// checkpoint where one is asked for inside what is left of the prompt.
pub proof fn law_a_request_keeps_what_was_asked(
    s: BatchScheduler,
    req: BatchRequest,
    o: AdmitOptions,
    p: Plan,
    c: PfCursor,
)
    requires
        starts_cursor(s, req, o, p, c),
    ensures
        c.params.client == req.client,
        c.params.min_new == req.min_new && c.params.ignore_eos == req.ignore_eos,
        c.params.temperature == req.temperature && c.params.top_p == req.top_p && c.params.top_k
            == req.top_k,
        c.params.rep_penalty == req.rep_penalty && c.params.presence_penalty == req.presence_penalty
            && c.params.frequency_penalty == req.frequency_penalty,
        req.seed is Some ==> c.seed == req.seed->0,
        req.seed is None ==> c.seed == o.derived_seed,
        c.schema == req.schema,
        c.ckpt_at is Some <==> s.setup.prefix_cache && req.ckpt_at is Some && p.reuse
            < req.ckpt_at->0 < req.prompt@.len(),
        c.ckpt_at is Some ==> c.ckpt_at == req.ckpt_at,
{
}

/// A ring whose context is not carried over is started afresh, and its claim is given up; one that
/// is carried over goes on behind the reused tokens.
pub proof fn law_rings_start_afresh_or_go_on(s: BatchScheduler, p: Plan)
    ensures
        s.dspark is Some && p.will_use_dspark && p.dspark_carry ==> dspark_after(s, p, true)->0.nprev
            == p.reuse && dspark_after(s, p, true)->0.ring_slot == s.dspark->0.ring_slot,
        s.dspark is Some && p.will_use_dspark && !p.dspark_carry ==> dspark_after(
            s,
            p,
            true,
        )->0.nprev == 0,
        s.dspark is Some && !p.dspark_carry ==> dspark_after(s, p, true)->0.ring_slot is None,
        s.df2 is Some && p.will_use_df2 && p.df2_carry ==> df2_after(s, p, true)->0.nprev == p.reuse
            && df2_after(s, p, true)->0.ring_len == s.df2->0.ring_len,
        s.df2 is Some && p.will_use_df2 && !p.df2_carry ==> df2_after(s, p, true)->0.nprev == 0
            && df2_after(s, p, true)->0.ring_slot is None,
        s.df2 is Some && s.df2->0.ring_slot == Some(p.phys) && !p.df2_carry && !p.claim_survives
            ==> df2_after(s, p, true)->0.ring_slot is None && df2_after(s, p, true)->0.ring_len == 0,
        s.df2 is Some && !p.will_use_df2 && s.df2->0.ring_slot != Some(p.phys) ==> df2_after(
            s,
            p,
            true,
        ) == s.df2,
{
}


/// Taking a request in leaves alone what is not its slot's: the lanes, the drafting policy, the
/// counts, the checkpoints, and the claims and contents of every other slot.
pub proof fn law_taking_in_leaves_the_others_alone(
    before: BatchScheduler,
    after: BatchScheduler,
    req: BatchRequest,
    o: AdmitOptions,
    r: Admitted,
    s: int,
)
    requires
        taken_in(before, after, req, o, r),
        before.wf(),
        before.free_slots@.len() <= usize::MAX,
        req.prompt@.len() <= usize::MAX,
        0 <= s < before.setup.max_batch,
        before.free_slots@.len() > 0 ==> s != plan_for(before, req, o).phys,
    ensures
        after.lanes == before.lanes && after.done == before.done,
        after.setup == before.setup && after.mtp == before.mtp && after.stats == before.stats,
        after.slots.ckpt_seq == before.slots.ckpt_seq && after.slots.ckpt_images
            == before.slots.ckpt_images,
        after.slots.ring_len@[s] == before.slots.ring_len@[s],
        after.slots.cache@[s] == before.slots.cache@[s],
        after.slots.cache_images@[s] == before.slots.cache_images@[s],
        after.slots.dspark_len@[s] == before.slots.dspark_len@[s],
{
    if before.free_slots@.len() > 0 {
        before.lemma_plan(req, o);
    }
}

} // verus!
