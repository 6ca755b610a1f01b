//! What a batched decode step uploads, and which of the device's ways it takes.

use vstd::prelude::*;

use crate::batch::decode;
use crate::batch::lane;
use crate::batch::lane::Lane;
use crate::batch::penalty;
use crate::batch::rng;
use crate::batch::rng::RNG_DOM_SAMPLE;
use crate::batch::scheduler::BatchScheduler;
use crate::single::{Single, ONE_BITS};

verus! {

/// How the device runs a batched step.
#[derive(Clone, Copy, PartialEq, Eq, Structural, Debug)]
pub enum Dispatch {
    /// A captured graph, greedy.
    Graph,
    /// The kernels one by one, greedy.
    Eager,
    /// A captured graph that samples.
    SampleGraph,
    /// The kernels one by one, sampling on the device.
    SampleEager,
    /// Sampling on the host.
    SampleHost,
}

/// What a batch is like.
#[derive(Clone, Copy, PartialEq, Eq, Structural, Debug)]
pub struct BatchMode {
    /// Tokens and positions stay on the device between steps.
    pub resident: bool,
    pub any_sampling: bool,
    pub dispatch: Dispatch,
    /// One more than the deepest position.
    pub max_pc: usize,
}

/// The lanes of a batch, in its order.
pub open spec fn members(lanes: Seq<Lane>, batch: Seq<usize>) -> Seq<Lane> {
    Seq::new(batch.len(), |k: int| lanes[batch[k] as int])
}

pub open spec fn some_schema(m: Seq<Lane>) -> bool {
    exists|k: int| 0 <= k < m.len() && (#[trigger] m[k]).schema is Some
}

pub open spec fn some_sampling(m: Seq<Lane>) -> bool {
    exists|k: int| 0 <= k < m.len() && !(#[trigger] m[k]).params.greedy
}

pub open spec fn penalized(l: Lane) -> bool {
    lane::penalizes(l.params.rep_penalty, l.params.presence_penalty, l.params.frequency_penalty)
}

pub open spec fn some_penalized(m: Seq<Lane>) -> bool {
    exists|k: int| 0 <= k < m.len() && penalized(#[trigger] m[k])
}

/// The way of a batch: captured graphs hold no mask, so a batch with a schema runs the kernels one
/// by one.
pub open spec fn way(
    sampling: bool,
    schema: bool,
    gpu_sample: bool,
    graph: bool,
    sample_graph: bool,
) -> Dispatch {
    if !sampling {
        if graph && !schema {
            Dispatch::Graph
        } else {
            Dispatch::Eager
        }
    } else if !gpu_sample {
        Dispatch::SampleHost
    } else if sample_graph && !schema {
        Dispatch::SampleGraph
    } else {
        Dispatch::SampleEager
    }
}

/// A list, filled up to `n` entries.
pub open spec fn padded<T>(v: Seq<T>, n: int, fill: T) -> Seq<T> {
    Seq::new(
        n as nat,
        |k: int|
            if k < v.len() {
                v[k]
            } else {
                fill
            },
    )
}

/// A size as the device stores it.
pub fn device_size(n: usize) -> (r: i32)
    ensures
        r == n as i32,
{
    #[verifier::truncate]
    (n as i32)
}

/// Penalties of a batch, by lane and then by entry.
pub struct BatchPenalties {
    pub tokens: Vec<i32>,
    pub counts: Vec<i16>,
    pub rep: Vec<Single>,
    pub presence: Vec<Single>,
    pub frequency: Vec<Single>,
}

/// Sampling parameters of a batch.
pub struct BatchSampling {
    pub temps: Vec<Single>,
    pub top_k: Vec<i32>,
    pub top_p: Vec<Single>,
}

/// What an ordinary step uploads.
pub struct BatchUpload {
    pub toks: Vec<i32>,
    pub pos: Vec<i32>,
    pub slot_ids: Vec<i32>,
    /// Absent where the device's penalties are blank and stay so.
    pub penalties: Option<BatchPenalties>,
}

/// What a resident step uploads when something has changed.
pub struct ResidentUpload {
    pub toks: Vec<i32>,
    /// The device advances positions before it reads them.
    pub pos: Vec<i32>,
    pub slot_ids: Vec<i32>,
    pub ring: Vec<i32>,
    pub ring_state: Vec<i32>,
    pub keys: Vec<u64>,
    pub rep: Vec<Single>,
    pub presence: Vec<Single>,
    pub frequency: Vec<Single>,
}

pub open spec fn one() -> Single {
    Single { bits: ONE_BITS }
}

pub open spec fn zero() -> Single {
    Single { bits: 0 }
}

pub open spec fn fed(m: Seq<Lane>) -> Seq<i32> {
    m.map_values(|l: Lane| penalty::on_device(l.last_tok))
}

pub open spec fn positions(m: Seq<Lane>) -> Seq<i32> {
    m.map_values(|l: Lane| l.pos as i32)
}

pub open spec fn slot_ids(m: Seq<Lane>) -> Seq<i32> {
    m.map_values(|l: Lane| l.phys as i32)
}

pub open spec fn reps(m: Seq<Lane>) -> Seq<Single> {
    m.map_values(|l: Lane| l.params.rep_penalty)
}

pub open spec fn presences(m: Seq<Lane>) -> Seq<Single> {
    m.map_values(|l: Lane| l.params.presence_penalty)
}

pub open spec fn frequencies(m: Seq<Lane>) -> Seq<Single> {
    m.map_values(|l: Lane| l.params.frequency_penalty)
}

/// Penalty tokens of batch row `k`; blank for a lane without penalties and behind the batch.
pub open spec fn batch_tokens(m: Seq<Lane>, mp: int, k: int) -> Seq<i32> {
    if k < m.len() && penalized(m[k]) {
        penalty::row_tokens(m[k].history@, mp)
    } else {
        penalty::copies(-1i32, mp)
    }
}

pub open spec fn batch_counts(m: Seq<Lane>, mp: int, k: int) -> Seq<i16> {
    if k < m.len() && penalized(m[k]) {
        penalty::row_counts(m[k].history@, mp)
    } else {
        penalty::copies(0i16, mp)
    }
}

/// The last tokens of a history in a ring of `mp` entries, oldest first.
pub open spec fn ring_row(history: Seq<u32>, mp: int) -> Seq<i32> {
    let n = if history.len() < mp {
        history.len() as int
    } else {
        mp
    };
    Seq::new(
        mp as nat,
        |x: int|
            if x < n {
                penalty::on_device(history[history.len() - n + x])
            } else {
                -1i32
            },
    )
}

/// Head and length of a ring, in one word.
pub open spec fn ring_word(history: int, mp: usize) -> i32 {
    let n = if history < mp {
        history as usize
    } else {
        mp
    };
    (((n % mp) << 8usize) | n) as i32
}

/// Row `k` of the rings of a batch.
pub open spec fn batch_ring(m: Seq<Lane>, mp: int, k: int) -> Seq<i32> {
    if k < m.len() {
        ring_row(m[k].history@, mp)
    } else {
        penalty::copies(-1i32, mp)
    }
}

fn pad<T: Copy>(v: &mut Vec<T>, n: usize, fill: T)
    requires
        old(v)@.len() <= n,
    ensures
        final(v)@ == padded(old(v)@, n as int, fill),
{
    let ghost v0 = v@;
    while v.len() < n
        invariant
            v0.len() <= v@.len() <= n,
            forall|k: int|
                0 <= k < v@.len() ==> #[trigger] v@[k] == if k < v0.len() {
                    v0[k]
                } else {
                    fill
                },
        decreases n - v@.len(),
    {
        v.push(fill);
    }
    assert(v@ =~= padded(v0, n as int, fill));
}

fn ring_of(history: &Vec<u32>, mp: usize) -> (r: Vec<i32>)
    ensures
        r@ == ring_row(history@, mp as int),
{
    let len: usize = history.len();
    let n: usize = if len < mp {
        len
    } else {
        mp
    };
    let mut r: Vec<i32> = Vec::new();
    while r.len() < mp
        invariant
            len == history@.len(),
            n <= len,
            n <= mp,
            n == if len < mp {
                len
            } else {
                mp
            },
            r@.len() <= mp,
            r@ == ring_row(history@, mp as int).take(r@.len() as int),
        decreases mp - r@.len(),
    {
        let x: usize = r.len();
        if x < n {
            r.push(penalty::device_token(history[len - n + x]));
        } else {
            r.push(-1);
        }
        assert(r@ =~= ring_row(history@, mp as int).take(x + 1));
    }
    assert(r@ =~= ring_row(history@, mp as int));
    r
}

/// The batch lists lanes, at most as many as there are slots.
pub open spec fn listed(s: BatchScheduler, batch: Seq<usize>) -> bool {
    &&& batch.len() <= s.setup.max_batch
    &&& forall|k: int| 0 <= k < batch.len() ==> (#[trigger] batch[k]) < s.lanes@.len()
}

impl BatchScheduler {
    /// Classifies a batch. `device_loop`: the resident loop is on; `graph` and `sample_graph`: a
    /// graph of this size was captured.
    pub fn batch_mode(
        &self,
        batch: &Vec<usize>,
        device_loop: bool,
        graph: bool,
        sample_graph: bool,
    ) -> (r: BatchMode)
        requires
            self.wf(),
            decode::batchable(*self, batch@),
            batch@.len() <= self.setup.max_batch,
        ensures
            ({
                let m = members(self.lanes@, batch@);
                &&& r.resident == (device_loop && !some_schema(m))
                &&& r.any_sampling == some_sampling(m)
                &&& r.dispatch == way(
                    some_sampling(m),
                    some_schema(m),
                    self.setup.gpu_sample,
                    graph,
                    sample_graph,
                )
                &&& r.max_pc >= 1
                &&& forall|k: int| 0 <= k < m.len() ==> (#[trigger] m[k]).pos < r.max_pc
                &&& (r.max_pc > 1 ==> exists|k: int|
                    0 <= k < m.len() && (#[trigger] m[k]).pos + 1 == r.max_pc)
            }),
    {
        let ghost m = members(self.lanes@, batch@);
        let mut schema = false;
        let mut sampling = false;
        let mut max_pc: usize = 1;
        let mut k: usize = 0;
        while k < batch.len()
            invariant
                self.wf(),
                decode::batchable(*self, batch@),
                m == members(self.lanes@, batch@),
                k <= batch@.len(),
                schema == exists|x: int| 0 <= x < k && (#[trigger] m[x]).schema is Some,
                sampling == exists|x: int| 0 <= x < k && !(#[trigger] m[x]).params.greedy,
                max_pc >= 1,
                forall|x: int| 0 <= x < k ==> (#[trigger] m[x]).pos < max_pc,
                max_pc > 1 ==> exists|x: int| 0 <= x < k && (#[trigger] m[x]).pos + 1 == max_pc,
            decreases batch@.len() - k,
        {
            let i: usize = batch[k];
            let l = &self.lanes[i];
            assert(m[k as int] == *l);
            assert(self.lane_ok(self.lanes@[i as int]));
            if l.schema.is_some() {
                schema = true;
            }
            if !l.params.greedy {
                sampling = true;
            }
            if l.pos + 1 > max_pc {
                max_pc = l.pos + 1;
            }
            k += 1;
        }
        let dispatch = if !sampling {
            if graph && !schema {
                Dispatch::Graph
            } else {
                Dispatch::Eager
            }
        } else if !self.setup.gpu_sample {
            Dispatch::SampleHost
        } else if sample_graph && !schema {
            Dispatch::SampleGraph
        } else {
            Dispatch::SampleEager
        };
        BatchMode { resident: device_loop && !schema, any_sampling: sampling, dispatch, max_pc }
    }

    /// Sampling parameters of a batch, filled up with neutral ones.
    pub fn sampling_inputs(&self, batch: &Vec<usize>) -> (r: BatchSampling)
        requires
            listed(*self, batch@),
        ensures
            ({
                let m = members(self.lanes@, batch@);
                let n = self.setup.max_batch as int;
                &&& r.temps@ == padded(m.map_values(|l: Lane| l.params.temperature), n, one())
                &&& r.top_k@ == padded(m.map_values(|l: Lane| l.params.top_k as i32), n, 1i32)
                &&& r.top_p@ == padded(m.map_values(|l: Lane| l.params.top_p), n, one())
            }),
    {
        let ghost m = members(self.lanes@, batch@);
        let mut temps: Vec<Single> = Vec::new();
        let mut top_k: Vec<i32> = Vec::new();
        let mut top_p: Vec<Single> = Vec::new();
        let mut k: usize = 0;
        while k < batch.len()
            invariant
                listed(*self, batch@),
                m == members(self.lanes@, batch@),
                k <= batch@.len(),
                temps@ == m.take(k as int).map_values(|l: Lane| l.params.temperature),
                top_k@ == m.take(k as int).map_values(|l: Lane| l.params.top_k as i32),
                top_p@ == m.take(k as int).map_values(|l: Lane| l.params.top_p),
            decreases batch@.len() - k,
        {
            let l = &self.lanes[batch[k]];
            assert(m[k as int] == *l);
            temps.push(l.params.temperature);
            top_k.push(device_size(l.params.top_k));
            top_p.push(l.params.top_p);
            k += 1;
            assert(temps@ =~= m.take(k as int).map_values(|l: Lane| l.params.temperature));
            assert(top_k@ =~= m.take(k as int).map_values(|l: Lane| l.params.top_k as i32));
            assert(top_p@ =~= m.take(k as int).map_values(|l: Lane| l.params.top_p));
        }
        assert(m.take(k as int) =~= m);
        let n: usize = self.setup.max_batch;
        let one = Single { bits: ONE_BITS };
        pad(&mut temps, n, one);
        pad(&mut top_k, n, 1);
        pad(&mut top_p, n, one);
        BatchSampling { temps, top_k, top_p }
    }

    fn penalty_inputs(&self, batch: &Vec<usize>, mp: usize) -> (r: BatchPenalties)
        requires
            self.wf(),
            listed(*self, batch@),
        ensures
            ({
                let m = members(self.lanes@, batch@);
                let n = self.setup.max_batch as int;
                &&& r.tokens@ == penalty::stacked(|k: int| batch_tokens(m, mp as int, k), n)
                &&& r.counts@ == penalty::stacked(|k: int| batch_counts(m, mp as int, k), n)
                &&& r.rep@ == padded(reps(m), n, one())
                &&& r.presence@ == padded(presences(m), n, zero())
                &&& r.frequency@ == padded(frequencies(m), n, zero())
            }),
    {
        let ghost m = members(self.lanes@, batch@);
        let ghost ft = |k: int| batch_tokens(m, mp as int, k);
        let ghost fc = |k: int| batch_counts(m, mp as int, k);
        let n: usize = self.setup.max_batch;
        let nothing: Vec<u32> = Vec::new();
        let blank = penalty::penalty_row(&nothing, mp);
        assert(penalty::recent(nothing@, mp as int) =~= Seq::<u32>::empty());
        assert(blank.tokens@ =~= penalty::copies(-1i32, mp as int));
        assert(blank.counts@ =~= penalty::copies(0i16, mp as int));
        let mut tokens: Vec<i32> = Vec::new();
        let mut counts: Vec<i16> = Vec::new();
        let mut rep: Vec<Single> = Vec::new();
        let mut presence: Vec<Single> = Vec::new();
        let mut frequency: Vec<Single> = Vec::new();
        let mut k: usize = 0;
        while k < n
            invariant
                self.wf(),
                listed(*self, batch@),
                n == self.setup.max_batch,
                m == members(self.lanes@, batch@),
                ft == (|k: int| batch_tokens(m, mp as int, k)),
                fc == (|k: int| batch_counts(m, mp as int, k)),
                blank.tokens@ == penalty::copies(-1i32, mp as int),
                blank.counts@ == penalty::copies(0i16, mp as int),
                k <= n,
                tokens@ == penalty::stacked(ft, k as int),
                counts@ == penalty::stacked(fc, k as int),
                rep@ == padded(reps(m), k as int, one()),
                presence@ == padded(presences(m), k as int, zero()),
                frequency@ == padded(frequencies(m), k as int, zero()),
            decreases n - k,
        {
            let ghost k0 = k as int;
            if k < batch.len() {
                let i: usize = batch[k];
                let l = &self.lanes[i];
                assert(m[k as int] == *l);
                assert(self.lane_known(self.lanes@[i as int]));
                rep.push(l.params.rep_penalty);
                presence.push(l.params.presence_penalty);
                frequency.push(l.params.frequency_penalty);
                if l.has_penalty() {
                    let row = penalty::penalty_row(&l.history, mp);
                    penalty::append_row(&mut tokens, &mut counts, &row);
                } else {
                    penalty::append_row(&mut tokens, &mut counts, &blank);
                }
            } else {
                rep.push(Single { bits: ONE_BITS });
                presence.push(Single { bits: 0 });
                frequency.push(Single { bits: 0 });
                penalty::append_row(&mut tokens, &mut counts, &blank);
            }
            k += 1;
            assert(rep@ =~= padded(reps(m), k as int, one()));
            assert(presence@ =~= padded(presences(m), k as int, zero()));
            assert(frequency@ =~= padded(frequencies(m), k as int, zero()));
        }
        BatchPenalties { tokens, counts, rep, presence, frequency }
    }

    fn any_penalized(&self, batch: &Vec<usize>) -> (r: bool)
        requires
            listed(*self, batch@),
        ensures
            r == some_penalized(members(self.lanes@, batch@)),
    {
        let ghost m = members(self.lanes@, batch@);
        let mut k: usize = 0;
        while k < batch.len()
            invariant
                listed(*self, batch@),
                m == members(self.lanes@, batch@),
                k <= batch@.len(),
                forall|x: int| 0 <= x < k ==> !penalized(#[trigger] m[x]),
            decreases batch@.len() - k,
        {
            let l = &self.lanes[batch[k]];
            assert(m[k as int] == *l);
            if l.has_penalty() {
                return true;
            }
            k += 1;
        }
        false
    }
}

/// What an ordinary step uploads.
pub open spec fn uploads(s: BatchScheduler, batch: Seq<usize>, mp: int, u: BatchUpload) -> bool {
    let m = members(s.lanes@, batch);
    let n = s.setup.max_batch as int;
    &&& u.toks@ == padded(fed(m), n, 0i32)
    &&& u.pos@ == padded(positions(m), n, 0i32)
    &&& u.slot_ids@ == padded(slot_ids(m), n, 0i32)
    &&& u.penalties is Some <==> some_penalized(m) || s.pen_had
    &&& u.penalties matches Some(p) ==> {
        &&& p.tokens@ == penalty::stacked(|k: int| batch_tokens(m, mp, k), n)
        &&& p.counts@ == penalty::stacked(|k: int| batch_counts(m, mp, k), n)
        &&& p.rep@ == padded(reps(m), n, one())
        &&& p.presence@ == padded(presences(m), n, zero())
        &&& p.frequency@ == padded(frequencies(m), n, zero())
    }
}

/// What a resident step uploads. Positions are those before the device advances them.
pub open spec fn uploads_resident(
    s: BatchScheduler,
    batch: Seq<usize>,
    mp: usize,
    u: ResidentUpload,
) -> bool {
    let m = members(s.lanes@, batch);
    let n = s.setup.max_batch as int;
    &&& u.toks@ == padded(fed(m), n, 0i32)
    &&& u.pos@ == padded(m.map_values(|l: Lane| (l.pos - 1) as i32), n, 0i32)
    &&& u.slot_ids@ == padded(slot_ids(m), n, 0i32)
    &&& u.ring@ == penalty::stacked(|k: int| batch_ring(m, mp as int, k), n)
    &&& u.ring_state@ == padded(
        m.map_values(|l: Lane| ring_word(l.history@.len() as int, mp)),
        n,
        0i32,
    )
    &&& u.keys@ == padded(m.map_values(|l: Lane| l.seed), n, 0u64)
    &&& u.rep@ == padded(reps(m), n, one())
    &&& u.presence@ == padded(presences(m), n, zero())
    &&& u.frequency@ == padded(frequencies(m), n, zero())
}

struct Columns {
    toks: Vec<i32>,
    pos: Vec<i32>,
    slot_ids: Vec<i32>,
}

impl BatchScheduler {
    fn columns(&self, batch: &Vec<usize>) -> (r: Columns)
        requires
            self.wf(),
            decode::batchable(*self, batch@),
            listed(*self, batch@),
        ensures
            ({
                let m = members(self.lanes@, batch@);
                let n = self.setup.max_batch as int;
                &&& r.toks@ == padded(fed(m), n, 0i32)
                &&& r.pos@ == padded(positions(m), n, 0i32)
                &&& r.slot_ids@ == padded(slot_ids(m), n, 0i32)
            }),
    {
        let ghost m = members(self.lanes@, batch@);
        let mut toks: Vec<i32> = Vec::new();
        let mut pos: Vec<i32> = Vec::new();
        let mut ids: Vec<i32> = Vec::new();
        let mut k: usize = 0;
        while k < batch.len()
            invariant
                self.wf(),
                decode::batchable(*self, batch@),
                m == members(self.lanes@, batch@),
                k <= batch@.len(),
                toks@ == fed(m.take(k as int)),
                pos@ == positions(m.take(k as int)),
                ids@ == slot_ids(m.take(k as int)),
            decreases batch@.len() - k,
        {
            let i: usize = batch[k];
            let l = &self.lanes[i];
            assert(m[k as int] == *l);
            assert(self.lane_ok(self.lanes@[i as int]));
            proof {
                self.lemma_lane_slot(i as int);
            }
            toks.push(penalty::device_token(l.last_tok));
            pos.push(l.pos as i32);
            ids.push(l.phys as i32);
            k += 1;
            assert(toks@ =~= fed(m.take(k as int)));
            assert(pos@ =~= positions(m.take(k as int)));
            assert(ids@ =~= slot_ids(m.take(k as int)));
        }
        assert(m.take(k as int) =~= m);
        let n: usize = self.setup.max_batch;
        pad(&mut toks, n, 0);
        pad(&mut pos, n, 0);
        pad(&mut ids, n, 0);
        Columns { toks, pos, slot_ids: ids }
    }

    /// What an ordinary batched step uploads. Penalties go up while some lane has one, and once
    /// more when the last such lane is gone.
    pub fn batch_inputs(&mut self, batch: &Vec<usize>, mp: usize) -> (u: BatchUpload)
        requires
            old(self).wf(),
            decode::batchable(*old(self), batch@),
            batch@.len() <= old(self).setup.max_batch,
        ensures
            final(self).wf(),
            uploads(*old(self), batch@, mp as int, u),
            *final(self) == (BatchScheduler {
                pen_had: some_penalized(members(old(self).lanes@, batch@)),
                ..*old(self)
            }),
    {
        let ghost before = *self;
        let c = self.columns(batch);
        let any = self.any_penalized(batch);
        let penalties = if any || self.pen_had {
            Some(self.penalty_inputs(batch, mp))
        } else {
            None
        };
        self.pen_had = any;
        proof {
            before.lemma_flags_keep_wf(*self);
        }
        BatchUpload { toks: c.toks, pos: c.pos, slot_ids: c.slot_ids, penalties }
    }

    /// The invariant does not look at the upload flags.
    pub proof fn lemma_flags_keep_wf(&self, after: BatchScheduler)
        requires
            self.wf(),
            after == (BatchScheduler {
                pen_had: after.pen_had,
                pen_key: after.pen_key,
                resident_dirty: after.resident_dirty,
                ..*self
            }),
        ensures
            after.wf(),
    {
        assert forall|x: usize| #[trigger] after.holders(x) == self.holders(x) by {}
        assert forall|i: int| 0 <= i < after.lanes@.len() implies after.lane_known(
            #[trigger] after.lanes@[i],
        ) by {
            assert(self.lane_known(self.lanes@[i]));
        }
        assert forall|i: int| 0 <= i < after.lanes@.len() && !after.done@[i] implies after.lane_ok(
            #[trigger] after.lanes@[i],
        ) by {
            assert(self.lane_ok(self.lanes@[i]));
        }
        match after.pf {
            Some(c) => {
                assert(self.cursor_ok(c));
            },
            None => {},
        }
    }

    /// What a resident step uploads: nothing where nothing has changed since the last one.
    pub fn resident_inputs(&mut self, batch: &Vec<usize>, mp: usize) -> (u: Option<ResidentUpload>)
        requires
            old(self).wf(),
            decode::batchable(*old(self), batch@),
            batch@.len() <= old(self).setup.max_batch,
            mp > 0,
        ensures
            final(self).wf(),
            *final(self) == (BatchScheduler { resident_dirty: false, ..*old(self) }),
            u is Some <==> old(self).resident_dirty,
            u matches Some(x) ==> uploads_resident(*old(self), batch@, mp, x),
    {
        let ghost before = *self;
        if !self.resident_dirty {
            return None;
        }
        let ghost m = members(self.lanes@, batch@);
        let ghost fr = |k: int| batch_ring(m, mp as int, k);
        let n: usize = self.setup.max_batch;
        let c = self.columns(batch);
        let p = self.penalty_inputs(batch, mp);
        let mut pos: Vec<i32> = Vec::new();
        let mut ring: Vec<i32> = Vec::new();
        let mut ring_state: Vec<i32> = Vec::new();
        let mut keys: Vec<u64> = Vec::new();
        let mut k: usize = 0;
        while k < n
            invariant
                before == *self,
                self.wf(),
                decode::batchable(*self, batch@),
                batch@.len() <= n,
                n == self.setup.max_batch,
                mp > 0,
                m == members(self.lanes@, batch@),
                fr == (|k: int| batch_ring(m, mp as int, k)),
                k <= n,
                pos@ == padded(m.map_values(|l: Lane| (l.pos - 1) as i32), k as int, 0i32),
                ring@ == penalty::stacked(fr, k as int),
                ring_state@ == padded(
                    m.map_values(|l: Lane| ring_word(l.history@.len() as int, mp)),
                    k as int,
                    0i32,
                ),
                keys@ == padded(m.map_values(|l: Lane| l.seed), k as int, 0u64),
            decreases n - k,
        {
            if k < batch.len() {
                let i: usize = batch[k];
                let l = &self.lanes[i];
                assert(m[k as int] == *l);
                assert(self.lane_ok(self.lanes@[i as int]));
                assert(self.lane_known(self.lanes@[i as int]));
                pos.push(l.pos as i32 - 1);
                let mut row = ring_of(&l.history, mp);
                ring.append(&mut row);
                let len: usize = if l.history.len() < mp {
                    l.history.len()
                } else {
                    mp
                };
                ring_state.push(device_size(((len % mp) << 8usize) | len));
                keys.push(l.seed);
            } else {
                pos.push(0);
                let mut blank: Vec<i32> = Vec::new();
                pad(&mut blank, mp, -1);
                assert(blank@ =~= penalty::copies(-1i32, mp as int));
                ring.append(&mut blank);
                ring_state.push(0);
                keys.push(0);
            }
            k += 1;
            assert(pos@ =~= padded(m.map_values(|l: Lane| (l.pos - 1) as i32), k as int, 0i32));
            assert(ring_state@ =~= padded(
                m.map_values(|l: Lane| ring_word(l.history@.len() as int, mp)),
                k as int,
                0i32,
            ));
            assert(keys@ =~= padded(m.map_values(|l: Lane| l.seed), k as int, 0u64));
        }
        self.resident_dirty = false;
        proof {
            before.lemma_flags_keep_wf(*self);
        }
        Some(
            ResidentUpload {
                toks: c.toks,
                pos,
                slot_ids: c.slot_ids,
                ring,
                ring_state,
                keys,
                rep: p.rep,
                presence: p.presence,
                frequency: p.frequency,
            },
        )
    }

    /// After a step that sampled on the host, the device's buffers mean something else: the next
    /// resident step uploads everything.
    pub fn note_host_sampling(&mut self)
        requires
            old(self).wf(),
        ensures
            final(self).wf(),
            *final(self) == (BatchScheduler { resident_dirty: true, ..*old(self) }),
    {
        let ghost before = *self;
        self.resident_dirty = true;
        proof {
            before.lemma_flags_keep_wf(*self);
        }
    }

    /// Draws the seeds of a batch and advances the keys of its lanes, once each. Where the keys
    /// live on the device, the device does the same.
    pub fn draw_seeds(&mut self, batch: &Vec<usize>) -> (seeds: Vec<u32>)
        requires
            old(self).wf(),
            decode::batchable(*old(self), batch@),
            batch@.len() <= old(self).setup.max_batch,
        ensures
            final(self).wf(),
            seeds@ == padded(
                members(old(self).lanes@, batch@).map_values(
                    |l: Lane| rng::draw(l.seed, RNG_DOM_SAMPLE, 0),
                ),
                old(self).setup.max_batch as int,
                0u32,
            ),
            *final(self) == (BatchScheduler { lanes: final(self).lanes, ..*old(self) }),
            final(self).lanes@ == Seq::new(
                old(self).lanes@.len(),
                |i: int|
                    if batch@.contains(i as usize) {
                        Lane { seed: rng::mixed(old(self).lanes@[i].seed), ..old(self).lanes@[i] }
                    } else {
                        old(self).lanes@[i]
                    },
            ),
    {
        let ghost before = *self;
        let ghost m = members(before.lanes@, batch@);
        let ghost f = |l: Lane| rng::draw(l.seed, RNG_DOM_SAMPLE, 0);
        let mut seeds: Vec<u32> = Vec::new();
        let mut k: usize = 0;
        while k < batch.len()
            invariant
                before.wf(),
                decode::batchable(before, batch@),
                m == members(before.lanes@, batch@),
                f == (|l: Lane| rng::draw(l.seed, RNG_DOM_SAMPLE, 0)),
                k <= batch@.len(),
                *self == (BatchScheduler { lanes: self.lanes, ..before }),
                self.lanes@.len() == before.lanes@.len(),
                seeds@ == m.take(k as int).map_values(f),
                forall|i: int|
                    0 <= i < before.lanes@.len() ==> #[trigger] self.lanes@[i] == if batch@.take(
                        k as int,
                    ).contains(i as usize) {
                        Lane { seed: rng::mixed(before.lanes@[i].seed), ..before.lanes@[i] }
                    } else {
                        before.lanes@[i]
                    },
            decreases batch@.len() - k,
        {
            let i: usize = batch[k];
            let ghost done = batch@.take(k as int);
            let ghost more = batch@.take(k + 1);
            assert(!done.contains(i)) by {
                if done.contains(i) {
                    let x = choose|x: int| 0 <= x < done.len() && done[x] == i;
                    assert(batch@[x] == batch@[k as int]);
                }
            }
            assert(self.lanes@[i as int] == before.lanes@[i as int]);
            let ghost prior = self.lanes@;
            let key: u64 = self.lanes[i].seed;
            seeds.push(rng::rng_u32(key, RNG_DOM_SAMPLE, 0));
            self.lanes[i].seed = rng::splitmix64(key);
            k += 1;
            assert(seeds@ =~= m.take(k as int).map_values(f));
            assert(more =~= done.push(i));
            assert forall|j: int| 0 <= j < before.lanes@.len() implies #[trigger] self.lanes@[j]
                == if more.contains(j as usize) {
                Lane { seed: rng::mixed(before.lanes@[j].seed), ..before.lanes@[j] }
            } else {
                before.lanes@[j]
            } by {
                if j == i {
                    assert(more[done.len() as int] == i);
                } else {
                    assert(self.lanes@[j] == prior[j]);
                    if more.contains(j as usize) {
                        let x = choose|x: int| 0 <= x < more.len() && more[x] == j as usize;
                        assert(done[x] == j as usize);
                    }
                    if done.contains(j as usize) {
                        let x = choose|x: int| 0 <= x < done.len() && done[x] == j as usize;
                        assert(more[x] == j as usize);
                    }
                }
            }
        }
        assert(m.take(k as int) =~= m);
        assert(batch@.take(k as int) =~= batch@);
        pad(&mut seeds, self.setup.max_batch, 0);
        assert(self.lanes@ =~= Seq::new(
            before.lanes@.len(),
            |i: int|
                if batch@.contains(i as usize) {
                    Lane { seed: rng::mixed(before.lanes@[i].seed), ..before.lanes@[i] }
                } else {
                    before.lanes@[i]
                },
        ));
        proof {
            before.lemma_seeds_keep_wf(*self);
        }
        seeds
    }

    proof fn lemma_seeds_keep_wf(&self, after: BatchScheduler)
        requires
            self.wf(),
            after == (BatchScheduler { lanes: after.lanes, ..*self }),
            after.lanes@.len() == self.lanes@.len(),
            forall|i: int|
                0 <= i < self.lanes@.len() ==> #[trigger] after.lanes@[i] == (Lane {
                    seed: after.lanes@[i].seed,
                    ..self.lanes@[i]
                }),
        ensures
            after.wf(),
    {
        assert(crate::batch::scheduler::lane_slots(after.lanes@)
            =~= crate::batch::scheduler::lane_slots(self.lanes@));
        assert forall|x: usize| #[trigger] after.holders(x) == if x < after.setup.max_batch {
            1int
        } else {
            0
        } by {
            assert(after.holders(x) == self.holders(x));
        }
        assert forall|i: int| 0 <= i < after.lanes@.len() implies after.lane_known(
            #[trigger] after.lanes@[i],
        ) by {
            assert(self.lane_known(self.lanes@[i]));
        }
        assert forall|i: int| 0 <= i < after.lanes@.len() && !after.done@[i] implies after.lane_ok(
            #[trigger] after.lanes@[i],
        ) by {
            assert(self.lane_ok(self.lanes@[i]));
        }
        match after.pf {
            Some(c) => {
                assert(self.cursor_ok(c));
            },
            None => {},
        }
    }
}


/// The first lanes of an upload are those of the batch in its order, and what is behind them is
/// filled up.
pub proof fn law_padding_stands_behind<T>(v: Seq<T>, n: int, fill: T)
    requires
        v.len() <= n,
    ensures
        padded(v, n, fill).len() == n,
        padded(v, n, fill).take(v.len() as int) == v,
        forall|k: int| v.len() <= k < n ==> #[trigger] padded(v, n, fill)[k] == fill,
{
    assert(padded(v, n, fill).take(v.len() as int) =~= v);
}

/// Place `k` of an upload tells lane `batch[k]`: the token to be fed, its position and its slot, and
/// its penalties where they are uploaded. They are, where a lane of the batch has some, and once
/// more after the last one that had.
pub proof fn law_an_upload_tells_the_lanes(
    s: BatchScheduler,
    batch: Seq<usize>,
    mp: int,
    u: BatchUpload,
    k: int,
)
    requires
        uploads(s, batch, mp, u),
        0 <= k < batch.len() <= s.setup.max_batch,
    ensures
        ({
            let l = s.lanes@[batch[k] as int];
            &&& u.toks@.len() == s.setup.max_batch
            &&& u.toks@[k] == l.last_tok as i32
            &&& u.pos@[k] == l.pos as i32
            &&& u.slot_ids@[k] == l.phys as i32
            &&& (lane::penalizes(
                l.params.rep_penalty,
                l.params.presence_penalty,
                l.params.frequency_penalty,
            ) || s.pen_had) ==> u.penalties is Some
            &&& u.penalties matches Some(p) ==> {
                &&& p.rep@[k] == l.params.rep_penalty
                &&& p.presence@[k] == l.params.presence_penalty
                &&& p.frequency@[k] == l.params.frequency_penalty
            }
        }),
{
    let m = members(s.lanes@, batch);
    assert(m[k] == s.lanes@[batch[k] as int]);
    if penalized(m[k]) {
        assert(some_penalized(m));
    }
}

/// Place `k` of a resident upload tells lane `batch[k]` as the device will go on with it.
pub proof fn law_a_resident_upload_tells_the_lanes(
    s: BatchScheduler,
    batch: Seq<usize>,
    mp: usize,
    u: ResidentUpload,
    k: int,
)
    requires
        uploads_resident(s, batch, mp, u),
        0 <= k < batch.len() <= s.setup.max_batch,
    ensures
        ({
            let l = s.lanes@[batch[k] as int];
            &&& u.toks@[k] == l.last_tok as i32
            &&& u.pos@[k] == (l.pos - 1) as i32
            &&& u.slot_ids@[k] == l.phys as i32
            &&& u.keys@[k] == l.seed
            &&& u.rep@[k] == l.params.rep_penalty
            &&& u.presence@[k] == l.params.presence_penalty
            &&& u.frequency@[k] == l.params.frequency_penalty
        }),
{
    assert(members(s.lanes@, batch)[k] == s.lanes@[batch[k] as int]);
}

/// A row of the ring holds the latest tokens, the oldest first, and nothing behind them.
pub proof fn law_a_ring_row_holds_the_latest_tokens(history: Seq<u32>, mp: int)
    requires
        0 <= mp,
    ensures
        ({
            let row = ring_row(history, mp);
            &&& row.len() == mp
            &&& history.len() >= mp ==> row == history.skip(history.len() - mp).map_values(
                |t: u32| t as i32,
            )
            &&& history.len() < mp ==> row.take(history.len() as int) == history.map_values(
                |t: u32| t as i32,
            ) && forall|x: int| history.len() <= x < mp ==> #[trigger] row[x] == -1i32
        }),
{
    let row = ring_row(history, mp);
    if history.len() >= mp {
        assert(row =~= history.skip(history.len() - mp).map_values(|t: u32| t as i32));
    } else {
        assert(row.take(history.len() as int) =~= history.map_values(|t: u32| t as i32));
    }
}

/// The word of a ring tells how many tokens it holds and where the next one goes: behind the last,
/// or at the front where the row is full.
pub proof fn law_a_ring_word_tells_count_and_place(history: int, mp: usize)
    requires
        0 <= history,
        0 < mp <= 255,
    ensures
        ring_word(history, mp) % 256 == if history < mp {
            history
        } else {
            mp as int
        },
        ring_word(history, mp) / 256 == if history < mp {
            history
        } else {
            0
        },
{
    let n = if history < mp {
        history as usize
    } else {
        mp
    };
    let a: usize = n % mp;
    assert((n == mp ==> a == 0) && (n < mp ==> a == n)) by (nonlinear_arith)
        requires
            a == n % mp,
            mp > 0,
    ;
    assert((a << 8usize) | n == a * 256 + n && a * 256 + n < 0x1_0000) by (bit_vector)
        requires
            a < 256,
            n < 256,
    ;
    assert(ring_word(history, mp) == a * 256 + n);
    assert((a * 256 + n) / 256 == a);
}

/// Which way a batch takes: greedy batches and sampling ones keep to their own ways, a schema is
/// never served by a captured graph, and a batch is sampled on the host exactly where the device
/// cannot.
pub proof fn law_ways_of_a_batch(
    sampling: bool,
    schema: bool,
    gpu_sample: bool,
    graph: bool,
    sample_graph: bool,
)
    ensures
        ({
            let w = way(sampling, schema, gpu_sample, graph, sample_graph);
            &&& (w is Graph || w is Eager) == !sampling
            &&& w is Graph <==> !sampling && graph && !schema
            &&& w is SampleHost <==> sampling && !gpu_sample
            &&& w is SampleGraph <==> sampling && gpu_sample && sample_graph && !schema
        }),
{
}


/// Row `k` of the penalties of a batch is that of lane `batch[k]` where it is penalized, and empty
/// where it is not and behind the batch.
pub proof fn law_penalty_rows_are_those_of_the_lanes(
    s: BatchScheduler,
    batch: Seq<usize>,
    mp: int,
    u: BatchUpload,
    k: int,
    i: int,
)
    requires
        uploads(s, batch, mp, u),
        u.penalties is Some,
        batch.len() <= s.setup.max_batch,
        0 <= k < s.setup.max_batch,
        0 <= i < mp,
    ensures
        ({
            let p = u.penalties->0;
            let at = k * mp + i;
            let told = k < batch.len() && penalized(s.lanes@[batch[k] as int]);
            &&& told ==> p.tokens@[at] == penalty::row_tokens(
                s.lanes@[batch[k] as int].history@,
                mp,
            )[i] && p.counts@[at] == penalty::row_counts(
                s.lanes@[batch[k] as int].history@,
                mp,
            )[i]
            &&& !told ==> p.tokens@[at] == -1 && p.counts@[at] == 0
        }),
{
    let m = members(s.lanes@, batch);
    let n = s.setup.max_batch as int;
    let tokens = |x: int| batch_tokens(m, mp, x);
    let counts = |x: int| batch_counts(m, mp, x);
    assert forall|x: int| 0 <= x < n implies (#[trigger] tokens(x)).len() == mp by {
    }
    assert forall|x: int| 0 <= x < n implies (#[trigger] counts(x)).len() == mp by {
    }
    penalty::law_rows_stand_behind_each_other(tokens, n, mp, k, i);
    penalty::law_rows_stand_behind_each_other(counts, n, mp, k, i);
    if k < batch.len() {
        assert(m[k] == s.lanes@[batch[k] as int]);
    }
}

} // verus!
