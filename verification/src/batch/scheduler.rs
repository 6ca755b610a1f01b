//! The state of the scheduler: which requests hold which slots, and what the slots hold.

use vstd::prelude::*;

use crate::batch::lane;
use crate::batch::lane::{Lane, Params};
use crate::batch::layout;
use crate::batch::layout::StateLayout;
use crate::batch::penalty::PenaltyKey;
use crate::batch::policy::MtpPolicy;
use crate::batch::prefix::ImageIdentity;
use crate::batch::rings::Df2Ring;
use crate::batch::slots;
use crate::batch::slots::Slots;
use crate::batch::sources::SpecSource;
use crate::dflash::config::MAX_BLOCK;
use crate::dspark::round::DsparkRound;
use crate::json_schema::mask::SchemaMask;

verus! {

/// Positions that a drafting lane keeps free behind its budget: the deepest chain and eight more.
pub const DRAFT_RESERVE: usize = 16;

/// How the scheduler was set up.
pub struct Setup {
    pub max_batch: usize,
    /// Positions in the cache of a slot.
    pub kv_stride: usize,
    pub eos: Vec<u32>,
    pub prefix_cache: bool,
    /// Length of the context that the lookup of drafts matches; zero for no lookup.
    pub ngram_draft: usize,
    /// The head drafts a tree where it is deep enough.
    pub tree_draft: bool,
    /// Greedy lanes share one verify.
    pub mtp_lanes: bool,
    /// A prompt is prefilled to the end when it is admitted.
    pub pf_inline: bool,
    pub gpu_sample: bool,
    pub prose_lane_greedy: bool,
    pub df2_carry_enabled: bool,
    /// Cancels come over the wire only.
    pub tp_serving: bool,
    /// Run the operations of a coverage trace.
    pub cov_trace: bool,
    pub layout: StateLayout,
}

/// What a scheduler is opened with.
pub struct Opening {
    pub max_batch: usize,
    pub kv_stride: usize,
    pub eos: Vec<u32>,
    pub prefix_cache: bool,
    pub ngram_draft: usize,
    pub tree_draft: bool,
    pub mtp_lanes: bool,
    /// Sample on the device.
    pub gpu_sample: bool,
    /// There is an artifact of the drafter with a context feature.
    pub draft_dir: bool,
    /// Steps are dumped, so the operations of a coverage trace run.
    pub step_dump: bool,
}

/// A request whose prompt is being prefilled.
pub struct PfCursor {
    pub params: Params,
    pub phys: usize,
    pub prompt: Vec<u32>,
    pub reuse: usize,
    /// Start of the next window.
    pub w0: usize,
    pub ckpt_at: Option<usize>,
    pub grid_reuse: bool,
    pub req_imgs: Vec<ImageIdentity>,
    pub schema: Option<SchemaMask>,
    pub will_use_mtp: bool,
    pub will_use_df2: bool,
    pub will_use_dspark: bool,
    pub df2_carry: bool,
    pub dspark_carry: bool,
    pub first_tok: u32,
    pub first_sent: bool,
    pub df2_primed_ok: bool,
    pub dspark_primed_ok: bool,
    pub seed: u64,
}

/// The block drafter that conditions on a feature of every position: its context is appended from
/// column `row0` on, `ncols` columns at a time.
#[derive(Clone, Copy, PartialEq, Eq, Structural, Debug)]
pub struct DflashLane {
    pub block: usize,
    pub mask: u32,
    pub row0: usize,
    pub ncols: usize,
}

/// Counts of the steps of one drafter.
#[derive(Clone, Copy, PartialEq, Eq, Structural, Debug)]
pub struct StepStats {
    pub steps: u64,
    pub drafts: u64,
    pub accepted: u64,
    pub emitted: u64,
}

/// Counts since the start.
pub struct Stats {
    pub mtp: StepStats,
    pub mtp_verify_fwds: u64,
    pub df2: StepStats,
    pub tree_steps: u64,
    pub tree_nodes: u64,
    pub tree_rescues: u64,
    pub dspark: StepStats,
    pub dflash: StepStats,
    /// Per column: how often its draft was accepted.
    pub dflash_acc_a: Vec<u64>,
    /// Per column: how often it was reached.
    pub dflash_acc_n: Vec<u64>,
}

pub open spec fn no_steps() -> StepStats {
    StepStats { steps: 0, drafts: 0, accepted: 0, emitted: 0 }
}

/// Counts with one more step.
pub open spec fn stepped(s: StepStats, drafts: int, accepted: int, emitted: int) -> StepStats {
    StepStats {
        steps: (s.steps + 1) as u64,
        drafts: (s.drafts + drafts) as u64,
        accepted: (s.accepted + accepted) as u64,
        emitted: (s.emitted + emitted) as u64,
    }
}

/// Headroom that a counter needs for one step.
pub const COUNT_ROOM: u64 = 0x1_0000;

impl StepStats {
    /// One more step can be counted.
    pub open spec fn room(self) -> bool {
        self.steps <= u64::MAX - COUNT_ROOM && self.drafts <= u64::MAX - COUNT_ROOM && self.accepted
            <= u64::MAX - COUNT_ROOM && self.emitted <= u64::MAX - COUNT_ROOM
    }

    pub fn count(&mut self, drafts: usize, accepted: usize, emitted: usize)
        requires
            old(self).room(),
            drafts <= COUNT_ROOM,
            accepted <= COUNT_ROOM,
            emitted <= COUNT_ROOM,
        ensures
            *final(self) == stepped(*old(self), drafts as int, accepted as int, emitted as int),
    {
        self.steps = self.steps + 1;
        self.drafts = self.drafts + drafts as u64;
        self.accepted = self.accepted + accepted as u64;
        self.emitted = self.emitted + emitted as u64;
    }
}

/// The scheduler.
pub struct BatchScheduler {
    pub setup: Setup,
    /// Requests that are being decoded, front-packed.
    pub lanes: Vec<Lane>,
    /// By lane: a step of the current round has finished it.
    pub done: Vec<bool>,
    /// The request whose prompt is being prefilled. There is at most one, because a drafter's ring
    /// is primed window by window.
    pub pf: Option<PfCursor>,
    pub free_slots: Vec<usize>,
    pub slots: Slots,
    pub mtp: MtpPolicy,
    pub df2: Option<Df2Ring>,
    pub df2_prime: bool,
    pub dspark: Option<DsparkRound>,
    pub dspark_prime: bool,
    pub dflash: Option<DflashLane>,
    pub dflash_prime_armed: bool,
    pub dflash_prime_done: bool,
    /// The next batched step uploads everything.
    pub resident_dirty: bool,
    /// The device holds penalties.
    pub pen_had: bool,
    pub pen_key: Option<PenaltyKey>,
    pub stats: Stats,
}

/// The slots of the lanes.
pub open spec fn lane_slots(lanes: Seq<Lane>) -> Seq<usize> {
    Seq::new(lanes.len(), |i: int| lanes[i].phys)
}

/// One if slot `s` belongs to the cursor.
pub open spec fn cursor_holds(pf: Option<PfCursor>, s: usize) -> int {
    if pf is Some && pf->0.phys == s {
        1
    } else {
        0
    }
}

/// Tokens that a lane may still generate.
pub open spec fn budget_left(max_new: int, generated: int) -> int {
    if generated >= max_new {
        0
    } else {
        max_new - generated
    }
}

/// Positions that are kept free behind the budget.
pub open spec fn reserve(drafting: bool) -> int {
    if drafting {
        DRAFT_RESERVE as int
    } else {
        1
    }
}

impl BatchScheduler {
    /// A lane that can take a step: its slot has consumed what its position says, and what it may
    /// still generate fits in the slot's cache.
    pub open spec fn lane_ok(&self, l: Lane) -> bool {
        &&& self.slots.cache@[l.phys as int]@.len() == l.pos
        &&& l.pos + budget_left(l.params.max_new as int, l.generated as int) + reserve(l.mtp_primed)
            <= self.setup.kv_stride
        &&& l.generated <= self.setup.kv_stride
        &&& l.params.max_new <= self.setup.kv_stride
    }

    /// What holds of every lane.
    pub open spec fn lane_known(&self, l: Lane) -> bool {
        &&& l.schema_ok()
        &&& l.history@.len() <= lane::HISTORY_MAX
    }

    /// The cursor stands inside its prompt, and the prompt and the budget fit in the slot's cache.
    pub open spec fn cursor_ok(&self, c: PfCursor) -> bool {
        &&& c.reuse <= c.w0 <= c.prompt@.len()
        &&& c.prompt@.len() + c.params.max_new + reserve(c.will_use_mtp) <= self.setup.kv_stride
        &&& c.params.max_new > 0
        &&& c.schema matches Some(m) ==> m.wf()
        &&& c.will_use_df2 ==> c.will_use_mtp && self.df2 is Some && c.schema is None
        &&& c.will_use_dspark ==> c.will_use_mtp && self.dspark is Some && c.schema is None
        &&& c.grid_reuse && self.setup.prefix_cache && c.w0 < c.prompt@.len() ==> c.w0
            % slots::RING_CKPT_STRIDE == 0
        &&& c.ckpt_at matches Some(k) ==> k < c.prompt@.len() && self.setup.prefix_cache
    }

    /// How many times slot `s` is held.
    pub open spec fn holders(&self, s: usize) -> int {
        slots::held(self.free_slots@, s) + slots::held(lane_slots(self.lanes@), s) + cursor_holds(
            self.pf,
            s,
        )
    }

    /// Every slot is held exactly once: it is free, or it belongs to a lane or to the cursor.
    pub open spec fn slots_held(&self) -> bool {
        &&& forall|s: usize|
            #[trigger] self.holders(s) == if s < self.setup.max_batch {
                1int
            } else {
                0
            }
        &&& self.free_slots@.len() + self.lanes@.len() + (if self.pf is Some {
            1int
        } else {
            0
        }) == self.setup.max_batch
    }

    pub open spec fn setup_ok(&self) -> bool {
        &&& self.setup.kv_stride <= i32::MAX
        &&& self.setup.max_batch <= i32::MAX
        &&& self.setup.layout.snapshot_slot + 16 <= usize::MAX
        &&& self.setup.layout.prompt_ckpt_slot + self.setup.max_batch <= usize::MAX
        &&& self.setup.layout.ring_ckpt_slot + self.setup.max_batch * slots::RING_CKPT_K
            <= usize::MAX
    }

    pub open spec fn wf(&self) -> bool {
        &&& self.setup_ok()
        &&& self.slots.wf(self.setup.max_batch as int)
        &&& self.mtp.wf()
        &&& self.done@.len() == self.lanes@.len()
        &&& self.slots_held()
        &&& forall|i: int|
            0 <= i < self.lanes@.len() ==> self.lane_known(#[trigger] self.lanes@[i])
        &&& forall|i: int|
            0 <= i < self.lanes@.len() && !self.done@[i] ==> self.lane_ok(
                #[trigger] self.lanes@[i],
            )
        &&& self.pf matches Some(c) ==> self.cursor_ok(c)
        &&& self.stats.dflash_acc_a@.len() == MAX_BLOCK
        &&& self.stats.dflash_acc_n@.len() == MAX_BLOCK
    }

    /// No lane is finished: between two rounds.
    pub open spec fn settled(&self) -> bool {
        forall|i: int| 0 <= i < self.done@.len() ==> !#[trigger] self.done@[i]
    }

    /// A slot that a lane holds exists, and nobody else holds it.
    pub proof fn lemma_lane_slot(&self, i: int)
        requires
            self.wf(),
            0 <= i < self.lanes@.len(),
        ensures
            self.lanes@[i].phys < self.setup.max_batch,
            !self.free_slots@.contains(self.lanes@[i].phys),
            self.pf matches Some(c) ==> c.phys != self.lanes@[i].phys,
            forall|j: int|
                0 <= j < self.lanes@.len() && j != i ==> (#[trigger] self.lanes@[j]).phys
                    != self.lanes@[i].phys,
    {
        let s = self.lanes@[i].phys;
        let v = lane_slots(self.lanes@);
        assert(v[i] == s);
        assert(self.holders(s) <= 1);
        slots::lemma_held_bounds(v, s);
        slots::lemma_held_bounds(self.free_slots@, s);
        assert(v.contains(s));
        assert forall|j: int| 0 <= j < self.lanes@.len() && j != i implies (
        #[trigger] self.lanes@[j]).phys != s by {
            if self.lanes@[j].phys == s {
                if i < j {
                    slots::lemma_held_twice(v, i, j);
                } else {
                    slots::lemma_held_twice(v, j, i);
                }
            }
        }
    }

    /// The cursor's slot exists, and no lane holds it.
    pub proof fn lemma_cursor_slot(&self)
        requires
            self.wf(),
            self.pf is Some,
        ensures
            self.pf->0.phys < self.setup.max_batch,
            !self.free_slots@.contains(self.pf->0.phys),
            forall|j: int|
                0 <= j < self.lanes@.len() ==> (#[trigger] self.lanes@[j]).phys
                    != self.pf->0.phys,
            self.lanes@.len() < self.setup.max_batch,
    {
        let s = self.pf->0.phys;
        let v = lane_slots(self.lanes@);
        assert(self.holders(s) <= 1);
        slots::lemma_held_bounds(v, s);
        slots::lemma_held_bounds(self.free_slots@, s);
        assert forall|j: int| 0 <= j < self.lanes@.len() implies (#[trigger] self.lanes@[j]).phys
            != s by {
            assert(v[j] == self.lanes@[j].phys);
        }
    }

    /// A free slot exists, and nobody holds it.
    pub proof fn lemma_free_slot(&self, i: int)
        requires
            self.wf(),
            0 <= i < self.free_slots@.len(),
        ensures
            self.free_slots@[i] < self.setup.max_batch,
            self.pf matches Some(c) ==> c.phys != self.free_slots@[i],
            forall|j: int|
                0 <= j < self.lanes@.len() ==> (#[trigger] self.lanes@[j]).phys
                    != self.free_slots@[i],
    {
        let s = self.free_slots@[i];
        let v = lane_slots(self.lanes@);
        assert(self.free_slots@.contains(s));
        assert(self.holders(s) <= 1);
        slots::lemma_held_bounds(v, s);
        slots::lemma_held_bounds(self.free_slots@, s);
        assert forall|j: int| 0 <= j < self.lanes@.len() implies (#[trigger] self.lanes@[j]).phys
            != s by {
            assert(v[j] == self.lanes@[j].phys);
        }
    }
}

/// `n - 1` down to 0.
pub open spec fn countdown(n: int) -> Seq<usize> {
    Seq::new(n as nat, |i: int| (n - 1 - i) as usize)
}

proof fn lemma_countdown(n: int, s: usize)
    requires
        0 <= n <= usize::MAX,
    ensures
        slots::held(countdown(n), s) == if s < n {
            1int
        } else {
            0
        },
{
    let v = countdown(n);
    slots::lemma_held_bounds(v, s);
    if s < n {
        let i = n - 1 - s;
        assert(v[i] == s);
        slots::lemma_held_remove(v, i, s);
        let w = v.remove(i);
        slots::lemma_held_bounds(w, s);
        if w.contains(s) {
            let k = choose|k: int| 0 <= k < w.len() && w[k] == s;
            if k < i {
                assert(v[k] == s);
            } else {
                assert(v[k + 1] == s);
            }
        }
    } else if v.contains(s) {
        let k = choose|k: int| 0 <= k < v.len() && v[k] == s;
    }
}

/// A verify of more columns than the deepest chain of the head can occur: there is a selector round,
/// the head drafts trees, lanes share a verify, or the source is the selector's tree. This is about
/// what a later step can do, not about the source that is set.
pub open spec fn opens_wide(o: Opening, mtp: MtpPolicy, df2: bool) -> bool {
    df2 || o.tree_draft || o.mtp_lanes || mtp.spec_source == SpecSource::DFlash2Tree
}

/// The drafter with a context feature can be installed.
pub open spec fn opens_block(o: Opening, mtp: MtpPolicy) -> bool {
    mtp.spec_source == SpecSource::DFlash || o.draft_dir
}

/// The setup of a scheduler as it is opened: what can be switched later is off.
pub open spec fn opened_setup(s: Setup, o: Opening, mtp: MtpPolicy, df2: bool) -> bool {
    &&& s.max_batch == o.max_batch
    &&& s.kv_stride == o.kv_stride
    &&& s.eos == o.eos
    &&& s.prefix_cache == o.prefix_cache
    &&& s.ngram_draft == o.ngram_draft
    &&& s.tree_draft == o.tree_draft
    &&& s.mtp_lanes == o.mtp_lanes
    &&& s.gpu_sample == o.gpu_sample
    &&& s.cov_trace == o.step_dump
    &&& !s.pf_inline && !s.prose_lane_greedy && !s.df2_carry_enabled && !s.tp_serving
    &&& layout::layout_of(
        o.max_batch as int,
        mtp.head_present,
        opens_block(o, mtp),
        opens_wide(o, mtp, df2),
        o.prefix_cache,
        s.layout,
    )
}

/// A scheduler as it is opened: without lanes, with all slots free and empty, and with nothing
/// counted. The lowest slot is handed out first.
pub open spec fn opened(
    s: BatchScheduler,
    o: Opening,
    mtp: MtpPolicy,
    df2: Option<Df2Ring>,
    df2_prime: bool,
    dspark: Option<DsparkRound>,
    dspark_prime: bool,
) -> bool {
    &&& opened_setup(s.setup, o, mtp, df2 is Some)
    &&& s.lanes@.len() == 0
    &&& s.pf is None
    &&& s.free_slots@ == countdown(o.max_batch as int)
    &&& s.slots.wf(o.max_batch as int)
    &&& forall|i: int|
        0 <= i < o.max_batch ==> (#[trigger] s.slots.cache@[i])@.len() == 0
            && s.slots.cache_images@[i]@.len() == 0 && s.slots.ckpt_seq@[i]@.len() == 0
            && s.slots.ckpt_images@[i]@.len() == 0 && s.slots.ring_cursor@[i] == 0
            && s.slots.dspark_len@[i] == 0
    &&& forall|i: int, j: int|
        0 <= i < o.max_batch && 0 <= j < slots::RING_CKPT_K
            ==> #[trigger] s.slots.ring_len@[i]@[j] == 0
    &&& s.mtp == mtp
    &&& s.df2 == df2 && s.df2_prime == df2_prime
    &&& s.dspark == dspark && s.dspark_prime == dspark_prime
    &&& s.dflash is None && !s.dflash_prime_armed && !s.dflash_prime_done
    &&& s.resident_dirty && !s.pen_had && s.pen_key is None
    &&& s.stats.mtp == no_steps() && s.stats.mtp_verify_fwds == 0
    &&& s.stats.df2 == no_steps() && s.stats.dspark == no_steps() && s.stats.dflash == no_steps()
    &&& s.stats.tree_steps == 0 && s.stats.tree_nodes == 0 && s.stats.tree_rescues == 0
    &&& s.stats.dflash_acc_a@ == Seq::new(MAX_BLOCK as nat, |k: int| 0u64)
    &&& s.stats.dflash_acc_n@ == Seq::new(MAX_BLOCK as nat, |k: int| 0u64)
}

impl BatchScheduler {
    /// Opens a scheduler with the drafters that are there, and lays its state slots out.
    pub fn with_df2(
        o: Opening,
        mtp: MtpPolicy,
        df2: Option<Df2Ring>,
        df2_prime: bool,
        dspark: Option<DsparkRound>,
        dspark_prime: bool,
    ) -> (s: BatchScheduler)
        requires
            o.kv_stride <= i32::MAX,
            o.max_batch <= i32::MAX,
            o.max_batch * 18 + 16 <= usize::MAX,
            mtp.wf(),
        ensures
            s.wf(),
            s.settled(),
            opened(s, o, mtp, df2, df2_prime, dspark, dspark_prime),
    {
        let n: usize = o.max_batch;
        let src = mtp.spec_source();
        let block = src == SpecSource::DFlash || o.draft_dir;
        let wide = df2.is_some() || o.tree_draft || o.mtp_lanes || src == SpecSource::DFlash2Tree;
        let layout = layout::state_layout(n, mtp.head_present(), block, wide, o.prefix_cache);
        let setup = Setup {
            max_batch: n,
            kv_stride: o.kv_stride,
            eos: o.eos,
            prefix_cache: o.prefix_cache,
            ngram_draft: o.ngram_draft,
            tree_draft: o.tree_draft,
            mtp_lanes: o.mtp_lanes,
            pf_inline: false,
            gpu_sample: o.gpu_sample,
            prose_lane_greedy: false,
            df2_carry_enabled: false,
            tp_serving: false,
            cov_trace: o.step_dump,
            layout,
        };
        let mut free_slots: Vec<usize> = Vec::new();
        while free_slots.len() < n
            invariant
                free_slots@.len() <= n,
                free_slots@ == countdown(n as int).take(free_slots@.len() as int),
            decreases n - free_slots@.len(),
        {
            let k: usize = free_slots.len();
            free_slots.push(n - 1 - k);
            assert(free_slots@ =~= countdown(n as int).take(k + 1));
        }
        assert(free_slots@ =~= countdown(n as int));
        let zero = StepStats { steps: 0, drafts: 0, accepted: 0, emitted: 0 };
        let acc_a: Vec<u64> = vec![0u64; MAX_BLOCK];
        let acc_n: Vec<u64> = vec![0u64; MAX_BLOCK];
        assert(acc_a@ =~= Seq::new(MAX_BLOCK as nat, |k: int| 0u64));
        assert(acc_n@ =~= Seq::new(MAX_BLOCK as nat, |k: int| 0u64));
        let s = BatchScheduler {
            slots: Slots::new(n),
            setup,
            lanes: Vec::new(),
            done: Vec::new(),
            pf: None,
            free_slots,
            mtp,
            df2,
            df2_prime,
            dspark,
            dspark_prime,
            dflash: None,
            dflash_prime_armed: false,
            dflash_prime_done: false,
            resident_dirty: true,
            pen_had: false,
            pen_key: None,
            stats: Stats {
                mtp: zero,
                mtp_verify_fwds: 0,
                df2: zero,
                tree_steps: 0,
                tree_nodes: 0,
                tree_rescues: 0,
                dspark: zero,
                dflash: zero,
                dflash_acc_a: acc_a,
                dflash_acc_n: acc_n,
            },
        };
        proof {
            assert forall|x: usize| #[trigger] s.holders(x) == if x < n {
                1int
            } else {
                0
            } by {
                lemma_countdown(n as int, x);
                assert(lane_slots(s.lanes@) =~= Seq::<usize>::empty());
            }
        }
        s
    }

    /// Opens a scheduler that drafts with the model's own head only.
    pub fn new(o: Opening, mtp: MtpPolicy) -> (s: BatchScheduler)
        requires
            o.kv_stride <= i32::MAX,
            o.max_batch <= i32::MAX,
            o.max_batch * 18 + 16 <= usize::MAX,
            mtp.wf(),
        ensures
            s.wf(),
            s.settled(),
            opened(s, o, mtp, None, false, None, false),
    {
        BatchScheduler::with_df2(o, mtp, None, false, None, false)
    }

    /// Prefill a prompt to the end when it is admitted, or a window per step.
    pub fn set_pf_inline(&mut self, on: bool)
        ensures
            *final(self) == (BatchScheduler {
                setup: Setup { pf_inline: on, ..old(self).setup },
                ..*old(self)
            }),
    {
        self.setup.pf_inline = on;
    }

    /// Draft greedily for greedy requests on prose.
    pub fn set_prose_lane_greedy(&mut self, on: bool)
        ensures
            *final(self) == (BatchScheduler {
                setup: Setup { prose_lane_greedy: on, ..old(self).setup },
                ..*old(self)
            }),
    {
        self.setup.prose_lane_greedy = on;
    }

    /// Carry the selector's ring from one request to the next.
    pub fn set_df2_carry(&mut self, on: bool)
        ensures
            *final(self) == (BatchScheduler {
                setup: Setup { df2_carry_enabled: on, ..old(self).setup },
                ..*old(self)
            }),
    {
        self.setup.df2_carry_enabled = on;
    }

    /// Run the operations of a coverage trace, as the other ranks do.
    pub fn set_cov_trace(&mut self, on: bool)
        ensures
            *final(self) == (BatchScheduler {
                setup: Setup { cov_trace: on, ..old(self).setup },
                ..*old(self)
            }),
    {
        self.setup.cov_trace = on;
    }

    /// Take cancels from the wire only.
    pub fn serve_in_group(&mut self)
        ensures
            *final(self) == (BatchScheduler {
                setup: Setup { tp_serving: true, ..old(self).setup },
                ..*old(self)
            }),
    {
        self.setup.tp_serving = true;
    }

    /// Installs the drafter with a context feature, with an empty context.
    pub fn install_dflash_lane(&mut self, block: usize, mask: u32)
        ensures
            *final(self) == (BatchScheduler {
                dflash: Some(DflashLane { block, mask, row0: 0, ncols: 0 }),
                ..*old(self)
            }),
    {
        self.dflash = Some(DflashLane { block, mask, row0: 0, ncols: 0 });
    }

    /// The switches, and the drafter with a context feature, can be set at any time: the invariant
    /// does not look at them.
    pub proof fn law_settings_keep_wf(&self, after: BatchScheduler)
        requires
            self.wf(),
            after == (BatchScheduler { setup: after.setup, dflash: after.dflash, ..*self }),
            after.setup.max_batch == self.setup.max_batch,
            after.setup.kv_stride == self.setup.kv_stride,
            after.setup.prefix_cache == self.setup.prefix_cache,
            after.setup.layout == self.setup.layout,
        ensures
            after.wf(),
    {
        assert forall|x: usize| #[trigger] after.holders(x) == self.holders(x) by {}
        assert forall|i: int| 0 <= i < after.lanes@.len() implies after.lane_known(
            #[trigger] after.lanes@[i],
        ) by {
            assert(self.lane_known(self.lanes@[i]));
        }
        assert forall|i: int| 0 <= i < after.lanes@.len() && !after.done@[i] implies after.lane_ok(
            #[trigger] after.lanes@[i],
        ) by {
            assert(self.lane_ok(self.lanes@[i]));
        }
        if self.pf is Some {
            assert(self.cursor_ok(self.pf->0));
        }
    }

    /// Number of lanes.
    pub fn num_active(&self) -> (n: usize)
        ensures
            n == self.lanes@.len(),
    {
        self.lanes.len()
    }
}


/// A step is counted once, with its drafts, the accepted ones and the emitted tokens.
pub proof fn law_steps_are_counted(s: StepStats, drafts: int, accepted: int, emitted: int)
    requires
        s.room(),
        0 <= drafts <= 0x1_0000,
        0 <= accepted <= 0x1_0000,
        0 <= emitted <= 0x1_0000,
    ensures
        ({
            let r = stepped(s, drafts, accepted, emitted);
            &&& r.steps - s.steps == 1
            &&& r.drafts - s.drafts == drafts
            &&& r.accepted - s.accepted == accepted
            &&& r.emitted - s.emitted == emitted
        }),
{
}

/// At the start every slot is free, once, and slot 0 is taken first.
pub proof fn law_every_slot_is_free_at_the_start(n: int, x: usize)
    requires
        0 < n <= usize::MAX,
    ensures
        countdown(n).len() == n,
        countdown(n).no_duplicates(),
        countdown(n).contains(x) == (x < n),
        countdown(n).last() == 0,
{
    let c = countdown(n);
    if x < n {
        assert(c[n - 1 - x] == x);
    }
}

/// A scheduler that verifies wide, by a tree, a pack or the selector round, has a checkpoint for
/// every column of the widest verify.
pub proof fn law_wide_verifies_have_their_checkpoints(
    s: Setup,
    o: Opening,
    mtp: MtpPolicy,
    df2: bool,
)
    requires
        opened_setup(s, o, mtp, df2),
    ensures
        mtp.head_present && (df2 || o.tree_draft || o.mtp_lanes || mtp.spec_source is DFlash2Tree)
            ==> s.layout.n_ckpt == 16,
        mtp.spec_source is DFlash || o.draft_dir ==> s.layout.n_ckpt == 16,
        mtp.head_present ==> s.layout.n_ckpt >= 7,
        !mtp.head_present && !(mtp.spec_source is DFlash) && !o.draft_dir ==> s.layout.n_ckpt == 0,
        s.layout.snapshot_slot == o.max_batch,
        !s.pf_inline && !s.prose_lane_greedy && !s.df2_carry_enabled && !s.tp_serving,
{
}

/// What is left of a budget counts down to nothing.
pub proof fn law_budgets_count_down(max_new: int, generated: int)
    requires
        0 <= generated,
    ensures
        budget_left(max_new, generated) >= 0,
        generated < max_new ==> budget_left(max_new, generated + 1) == budget_left(
            max_new,
            generated,
        ) - 1,
        budget_left(max_new, generated) == 0 <==> generated >= max_new,
        reserve(true) == 16 && reserve(false) == 1,
{
}

} // verus!
