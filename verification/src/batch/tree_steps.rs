//! Speculative steps whose drafts form a tree, and steps of several lanes in one verify.

use vstd::prelude::*;

use crate::batch::commit;
use crate::batch::commit::Drafter;
use crate::batch::draft::{MAX_PACK, MAX_VERIFY};
use crate::batch::lane_steps;
use crate::batch::policy;
use crate::batch::rings::Df2Ring;
use crate::batch::scheduler::{BatchScheduler, Stats, StepStats};
use crate::batch::steps;
use crate::batch::steps::LaneStep;
use crate::batch::tree;

verus! {

/// What a step over a tree yields.
pub struct TreeStep {
    pub step: LaneStep,
    /// The accepted columns. Their keys and values are moved together, and the last one's state is
    /// adopted.
    pub path: Vec<usize>,
}

/// The target's choice behind each accepted column.
pub open spec fn choices(preds: Seq<u32>, path: Seq<usize>) -> Seq<u32> {
    Seq::new(path.len(), |k: int| preds[path[k] as int])
}

/// Levels of the selector's tree.
pub const LEVELS: usize = 7;

/// A step of lane `i` over a tree.
pub open spec fn walked(
    before: BatchScheduler,
    after: BatchScheduler,
    i: int,
    drafter: Drafter,
    parent: Seq<i32>,
    tokens: Seq<u32>,
    preds: Seq<u32>,
    r: TreeStep,
) -> bool {
    let list = choices(preds, r.path@);
    let n = r.path@.len() - 1;
    &&& tree::walks(parent, tokens, preds, r.path@)
    &&& r.path@.len() <= parent.len()
    &&& r.path@.no_duplicates()
    &&& forall|k: int| 0 <= k < r.path@.len() ==> #[trigger] r.path@[k] < parent.len()
    &&& steps::greedy_step(
        before,
        after,
        i,
        drafter,
        list.drop_last(),
        n,
        list.last(),
        false,
        r.step.emission,
    )
    &&& r.step.fed@ == steps::fed_tokens(before.lanes@[i].last_tok, list.drop_last(), n)
    &&& r.step.restore == steps::restored(
        before.setup.layout.snapshot_slot as int,
        r.path@.last() as int,
        parent.len() as int,
    )
}

impl BatchScheduler {
    /// Walks the tree and commits what it accepts.
    fn walk_lane(
        &mut self,
        i: usize,
        drafter: Drafter,
        parent: &Vec<i32>,
        tokens: &Vec<u32>,
        preds: &Vec<u32>,
    ) -> (r: TreeStep)
        requires
            old(self).steppable(i as int, Seq::empty()),
            tree::tree_ok(parent@),
            parent@.len() <= MAX_VERIFY,
            parent@.len() <= tokens@.len(),
            parent@.len() <= preds@.len(),
        ensures
            final(self).wf(),
            steps::only_lane(*old(self), *final(self), i as int),
            walked(*old(self), *final(self), i as int, drafter, parent@, tokens@, preds@, r),
            r.step.emission.tokens@.len() <= MAX_VERIFY,
    {
        let (path, mut list) = tree::tree_accept_walk(
            parent.as_slice(),
            tokens.as_slice(),
            preds.as_slice(),
        );
        assert(list@ =~= choices(preds@, path@));
        let n: usize = path.len() - 1;
        let leaf: usize = path[n];
        let committed: u32 = self.lanes[i].last_tok;
        let bonus: u32 = list[n];
        list.truncate(n);
        assert(list@ =~= choices(preds@, path@).drop_last());
        let emission = self.greedy_lane(i, drafter, &list, n, bonus, false);
        let restore = lane_steps::restore_slot(
            self.setup.layout.snapshot_slot,
            leaf,
            parent.len(),
        );
        let fed = lane_steps::fed(committed, &list, n);
        TreeStep { step: LaneStep { restore, fed, emission }, path }
    }

    /// A greedy step of the head's tree.
    pub fn mtp_tree_step(
        &mut self,
        i: usize,
        parent: &Vec<i32>,
        tokens: &Vec<u32>,
        preds: &Vec<u32>,
    ) -> (r: TreeStep)
        requires
            old(self).steppable(i as int, Seq::empty()),
            old(self).head_room(),
            tree::tree_ok(parent@),
            parent@.len() <= MAX_VERIFY,
            parent@.len() <= tokens@.len(),
            parent@.len() <= preds@.len(),
        ensures
            final(self).wf(),
            steps::others_kept(*old(self), *final(self), i as int),
            final(self).drafters_kept(old(self)),
            walked(*old(self), *final(self), i as int, Drafter::Head, parent@, tokens@, preds@, r),
            final(self).head_counted(
                old(self),
                parent@.len() - 1,
                r.path@.len() - 1,
                r.step.emission.tokens@.len() as int,
            ),
    {
        let r = self.walk_lane(i, Drafter::Head, parent, tokens, preds);
        let ghost moved = *self;
        self.count_head(parent.len() - 1, r.path.len() - 1, r.step.emission.tokens.len());
        proof {
            BatchScheduler::lemma_counts_keep_wf(moved, *self);
        }
        r
    }

    /// A greedy step of the selector's tree: a chain of seven drafts and a second branch. The
    /// ring takes in what stands; it stays bound to the slot that it was bound to.
    pub fn df2_tree_step(
        &mut self,
        i: usize,
        drafts: usize,
        parent: &Vec<i32>,
        tokens: &Vec<u32>,
        preds: &Vec<u32>,
    ) -> (r: TreeStep)
        requires
            old(self).steppable(i as int, Seq::empty()),
            old(self).df2 is Some,
            old(self).df2->0.nprev == old(self).lanes@[i as int].pos,
            old(self).mtp.room(),
            old(self).stats.tree_steps < u64::MAX,
            old(self).stats.tree_nodes <= u64::MAX - MAX_VERIFY,
            old(self).stats.tree_rescues < u64::MAX,
            drafts == LEVELS,
            tree::tree_ok(parent@),
            parent@.len() <= MAX_VERIFY,
            parent@.len() <= tokens@.len(),
            parent@.len() <= preds@.len(),
        ensures
            final(self).wf(),
            steps::others_kept(*old(self), *final(self), i as int),
            final(self).dspark == old(self).dspark,
            final(self).dflash == old(self).dflash,
            final(self).slots.dspark_len == old(self).slots.dspark_len,
            walked(
                *old(self),
                *final(self),
                i as int,
                Drafter::SelectorTree,
                parent@,
                tokens@,
                preds@,
                r,
            ),
            final(self).df2 == Some(
                Df2Ring {
                    nprev: (old(self).df2->0.nprev + r.path@.len()) as usize,
                    ..old(self).df2->0
                },
            ),
            policy::recorded(
                old(self).mtp,
                final(self).mtp,
                LEVELS as u64,
                (r.path@.len() - 1) as u64,
                r.step.emission.tokens@.len() as u64,
            ),
            final(self).stats == (Stats {
                tree_steps: (old(self).stats.tree_steps + 1) as u64,
                tree_nodes: (old(self).stats.tree_nodes + parent@.len()) as u64,
                tree_rescues: (old(self).stats.tree_rescues + if r.path@.last() >= 1 + LEVELS {
                    1int
                } else {
                    0
                }) as u64,
                ..old(self).stats
            }),
    {
        assert(self.lane_ok(self.lanes@[i as int]));
        let r = self.walk_lane(i, Drafter::SelectorTree, parent, tokens, preds);
        let ghost moved = *self;
        let n: usize = r.path.len() - 1;
        self.stats.tree_steps = self.stats.tree_steps + 1;
        self.stats.tree_nodes = self.stats.tree_nodes + parent.len() as u64;
        if r.path[n] >= 1 + drafts {
            self.stats.tree_rescues = self.stats.tree_rescues + 1;
        }
        match &mut self.df2 {
            Some(d) => {
                let frontier: usize = d.nprev + n + 1;
                d.rewind(frontier);
            },
            None => {},
        }
        self.mtp.record_step(drafts as u64, n as u64, r.step.emission.tokens.len() as u64);
        proof {
            BatchScheduler::lemma_counts_keep_wf(moved, *self);
        }
        r
    }
}

/// The columns of a chain in a packed verify.
pub open spec fn columns(preds: Seq<u32>, start: int, width: int) -> Seq<u32> {
    preds.subrange(start, start + width)
}

/// Lane `i` took its step of a packed verify: its chain starts in column `start`.
pub open spec fn packed_step(
    before: BatchScheduler,
    after: BatchScheduler,
    i: int,
    drafts: Seq<u32>,
    preds: Seq<u32>,
    start: int,
    finished: bool,
    r: LaneStep,
) -> bool {
    let l = before.lanes@[i];
    let mine = columns(preds, start, drafts.len() as int + 1);
    let n = r.emission.accepted as int;
    &&& lane_steps::stand_drafts(drafts, mine, None, n)
    &&& commit::commits_greedy(
        l,
        after.lanes@[i],
        before.setup.eos@,
        Drafter::Head,
        drafts,
        n,
        mine[n],
        false,
        r.emission,
    )
    &&& after.slots.cache@[l.phys as int]@ == commit::consumed(
        before.slots.cache@[l.phys as int]@,
        l.last_tok,
        drafts,
        n,
    )
    &&& r.emission.finished == finished
    &&& r.fed@ == steps::fed_tokens(l.last_tok, drafts, n)
    &&& r.restore == if n == drafts.len() {
        None
    } else {
        Some((before.setup.layout.snapshot_slot + start + n) as usize)
    }
}

/// Sum of the drafts of the first `n` chains.
pub open spec fn drafts_total(drafts: Seq<Vec<u32>>, n: int) -> int
    decreases n,
{
    if n <= 0 {
        0
    } else {
        drafts_total(drafts, n - 1) + drafts[n - 1]@.len()
    }
}

/// Sum of the accepted drafts of the first `n` steps.
pub open spec fn accepted_total(r: Seq<LaneStep>, n: int) -> int
    decreases n,
{
    if n <= 0 {
        0
    } else {
        accepted_total(r, n - 1) + r[n - 1].emission.accepted
    }
}

/// Sum of the emitted tokens of the first `n` steps.
pub open spec fn emitted_total(r: Seq<LaneStep>, n: int) -> int
    decreases n,
{
    if n <= 0 {
        0
    } else {
        emitted_total(r, n - 1) + r[n - 1].emission.tokens@.len()
    }
}

proof fn lemma_totals_stable(a: Seq<LaneStep>, b: Seq<LaneStep>, n: int)
    requires
        0 <= n <= a.len(),
        n <= b.len(),
        forall|k: int| 0 <= k < n ==> a[k] == b[k],
    ensures
        accepted_total(a, n) == accepted_total(b, n),
        emitted_total(a, n) == emitted_total(b, n),
    decreases n,
{
    if n > 0 {
        lemma_totals_stable(a, b, n - 1);
    }
}

/// The lanes of a pack are distinct and can take a step, and their chains lie in the verify.
pub open spec fn packable(
    s: BatchScheduler,
    pack: Seq<usize>,
    drafts: Seq<Vec<u32>>,
    starts: Seq<usize>,
    preds: Seq<u32>,
) -> bool {
    &&& pack.no_duplicates()
    &&& 0 < pack.len() <= MAX_PACK
    &&& drafts.len() == pack.len()
    &&& starts.len() == pack.len()
    &&& preds.len() <= MAX_VERIFY
    &&& forall|k: int|
        0 <= k < pack.len() ==> (#[trigger] pack[k]) < s.lanes@.len() && !s.done@[pack[k] as int]
            && starts[k] + drafts[k]@.len() < preds.len()
}

fn slice_columns(preds: &Vec<u32>, start: usize, width: usize) -> (v: Vec<u32>)
    requires
        start + width <= preds@.len(),
    ensures
        v@ == columns(preds@, start as int, width as int),
{
    let mut v: Vec<u32> = Vec::new();
    let len: usize = preds.len();
    let mut k: usize = 0;
    while k < width
        invariant
            k <= width,
            len == preds@.len(),
            start + width <= len,
            v@ == columns(preds@, start as int, k as int),
        decreases width - k,
    {
        v.push(preds[start + k]);
        k += 1;
        assert(v@ =~= columns(preds@, start as int, k as int));
    }
    v
}

impl BatchScheduler {
    /// What a packed step leaves alone.
    pub open spec fn pack_kept(&self, before: &BatchScheduler, pack: Seq<usize>) -> bool {
        &&& self.setup == before.setup
        &&& self.pf == before.pf
        &&& self.free_slots == before.free_slots
        &&& self.mtp == before.mtp
        &&& self.df2_prime == before.df2_prime
        &&& self.dspark_prime == before.dspark_prime
        &&& self.dflash_prime_armed == before.dflash_prime_armed
        &&& self.dflash_prime_done == before.dflash_prime_done
        &&& self.resident_dirty == before.resident_dirty
        &&& self.pen_had == before.pen_had
        &&& self.pen_key == before.pen_key
        &&& self.slots.cache_images == before.slots.cache_images
        &&& self.slots.ckpt_seq == before.slots.ckpt_seq
        &&& self.slots.ckpt_images == before.slots.ckpt_images
        &&& self.slots.ring_len == before.slots.ring_len
        &&& self.slots.ring_cursor == before.slots.ring_cursor
        &&& self.lanes@.len() == before.lanes@.len()
        &&& self.done@.len() == before.done@.len()
        &&& forall|j: int|
            0 <= j < before.lanes@.len() && !pack.contains(j as usize) ==> #[trigger] self.lanes@[j]
                == before.lanes@[j] && self.done@[j] == before.done@[j]
        &&& self.slots.cache@.len() == before.slots.cache@.len()
        &&& forall|j: int|
            0 <= j < before.lanes@.len() && !pack.contains(j as usize) ==> self.slots.cache@[(
            #[trigger] before.lanes@[j]).phys as int] == before.slots.cache@[before.lanes@[j].phys as int]
    }

    /// One verify for several lanes: each takes the greedy step of its own chain. The policy does
    /// not record it.
    pub fn mtp_forest_step(
        &mut self,
        pack: &Vec<usize>,
        drafts: &Vec<Vec<u32>>,
        starts: &Vec<usize>,
        preds: &Vec<u32>,
    ) -> (r: Vec<LaneStep>)
        requires
            old(self).wf(),
            old(self).stats.mtp.room(),
            old(self).stats.mtp_verify_fwds < u64::MAX,
            packable(*old(self), pack@, drafts@, starts@, preds@),
        ensures
            final(self).wf(),
            final(self).pack_kept(old(self), pack@),
            final(self).drafters_kept(old(self)),
            r@.len() == pack@.len(),
            forall|k: int|
                0 <= k < pack@.len() ==> packed_step(
                    *old(self),
                    *final(self),
                    #[trigger] pack@[k] as int,
                    drafts@[k]@,
                    preds@,
                    starts@[k] as int,
                    final(self).done@[pack@[k] as int],
                    r@[k],
                ),
            final(self).stats.mtp == (StepStats {
                steps: (old(self).stats.mtp.steps + pack@.len()) as u64,
                drafts: (old(self).stats.mtp.drafts + drafts_total(
                    drafts@,
                    pack@.len() as int,
                )) as u64,
                accepted: (old(self).stats.mtp.accepted + accepted_total(
                    r@,
                    pack@.len() as int,
                )) as u64,
                emitted: (old(self).stats.mtp.emitted + emitted_total(
                    r@,
                    pack@.len() as int,
                )) as u64,
            }),
            final(self).stats.mtp_verify_fwds == old(self).stats.mtp_verify_fwds + 1,
    {
        let ghost before = *self;
        let mut out: Vec<LaneStep> = Vec::new();
        let mut k: usize = 0;
        while k < pack.len()
            invariant
                k <= pack@.len(),
                before == *old(self),
                before.wf(),
                before.stats.mtp.room(),
                before.stats.mtp_verify_fwds < u64::MAX,
                packable(before, pack@, drafts@, starts@, preds@),
                self.wf(),
                self.pack_kept(&before, pack@),
                self.drafters_kept(&before),
                self.stats.mtp_verify_fwds == before.stats.mtp_verify_fwds,
                out@.len() == k,
                forall|x: int|
                    0 <= x < k ==> packed_step(
                        before,
                        *self,
                        #[trigger] pack@[x] as int,
                        drafts@[x]@,
                        preds@,
                        starts@[x] as int,
                        self.done@[pack@[x] as int],
                        out@[x],
                    ),
                forall|x: int|
                    k <= x < pack@.len() ==> self.lanes@[#[trigger] pack@[x] as int]
                        == before.lanes@[pack@[x] as int] && !self.done@[pack@[x] as int]
                        && self.slots.cache@[before.lanes@[pack@[x] as int].phys as int]
                        == before.slots.cache@[before.lanes@[pack@[x] as int].phys as int],
                self.stats.mtp.steps == before.stats.mtp.steps + k,
                self.stats.mtp.drafts == before.stats.mtp.drafts + drafts_total(drafts@, k as int),
                self.stats.mtp.accepted == before.stats.mtp.accepted + accepted_total(
                    out@,
                    k as int,
                ),
                self.stats.mtp.emitted == before.stats.mtp.emitted + emitted_total(out@, k as int),
                0 <= drafts_total(drafts@, k as int) <= k * MAX_VERIFY,
                0 <= accepted_total(out@, k as int) <= k * MAX_VERIFY,
                0 <= emitted_total(out@, k as int) <= k * MAX_VERIFY,
            decreases pack@.len() - k,
        {
            let i: usize = pack[k];
            let chain = &drafts[k];
            let start: usize = starts[k];
            let ghost prior = *self;
            let ghost out0 = out@;
            let mine = slice_columns(preds, start, chain.len() + 1);
            let n: usize = lane_steps::accepted(chain, &mine, None);
            let committed: u32 = self.lanes[i].last_tok;
            let emission = self.greedy_lane(i, Drafter::Head, chain, n, mine[n], false);
            let restore = if n == chain.len() {
                None
            } else {
                Some(self.setup.layout.snapshot_slot + start + n)
            };
            let fed = lane_steps::fed(committed, chain, n);
            let emitted: usize = emission.tokens.len();
            let ghost moved = *self;
            self.stats.mtp = StepStats {
                steps: self.stats.mtp.steps + 1,
                drafts: self.stats.mtp.drafts + chain.len() as u64,
                accepted: self.stats.mtp.accepted + n as u64,
                emitted: self.stats.mtp.emitted + emitted as u64,
            };
            out.push(LaneStep { restore, fed, emission });
            proof {
                BatchScheduler::lemma_counts_keep_wf(moved, *self);
                lemma_totals_stable(out0, out@, k as int);
                before.lemma_lane_slot(i as int);
                assert(pack@.contains(i));
                assert forall|x: int| 0 <= x < pack@.len() && x != k implies self.lanes@[
                #[trigger] pack@[x] as int] == prior.lanes@[pack@[x] as int] && self.done@[
                pack@[x] as int] == prior.done@[pack@[x] as int] && self.slots.cache@[
                before.lanes@[pack@[x] as int].phys as int] == prior.slots.cache@[
                before.lanes@[pack@[x] as int].phys as int] by {
                    assert(pack@[x] != pack@[k as int]);
                    assert(before.lanes@[pack@[x] as int].phys != before.lanes@[i as int].phys);
                    before.lemma_lane_slot(pack@[x] as int);
                }
                assert forall|x: int| 0 <= x < k + 1 implies packed_step(
                    before,
                    *self,
                    #[trigger] pack@[x] as int,
                    drafts@[x]@,
                    preds@,
                    starts@[x] as int,
                    self.done@[pack@[x] as int],
                    out@[x],
                ) by {
                    if x < k {
                        assert(out@[x] == out0[x]);
                        assert(packed_step(
                            before,
                            prior,
                            pack@[x] as int,
                            drafts@[x]@,
                            preds@,
                            starts@[x] as int,
                            prior.done@[pack@[x] as int],
                            out0[x],
                        ));
                    }
                }
                assert forall|j: int|
                    0 <= j < before.lanes@.len() && !pack@.contains(j as usize) implies
                    #[trigger] self.lanes@[j] == before.lanes@[j] && self.done@[j]
                    == before.done@[j] by {
                    assert(j != i);
                    assert(prior.lanes@[j] == before.lanes@[j]);
                }
                assert forall|j: int|
                    0 <= j < before.lanes@.len() && !pack@.contains(j as usize) implies self.slots.cache@[(
                #[trigger] before.lanes@[j]).phys as int] == before.slots.cache@[before.lanes@[j].phys as int] by {
                    assert(j != i);
                    before.lemma_lane_slot(j);
                    assert(prior.slots.cache@[before.lanes@[j].phys as int]
                        == before.slots.cache@[before.lanes@[j].phys as int]);
                }
            }
            k += 1;
        }
        let ghost moved = *self;
        self.stats.mtp_verify_fwds = self.stats.mtp_verify_fwds + 1;
        proof {
            BatchScheduler::lemma_counts_keep_wf(moved, *self);
            assert forall|x: int| 0 <= x < pack@.len() implies packed_step(
                before,
                *self,
                #[trigger] pack@[x] as int,
                drafts@[x]@,
                preds@,
                starts@[x] as int,
                self.done@[pack@[x] as int],
                out@[x],
            ) by {
                assert(packed_step(
                    before,
                    moved,
                    pack@[x] as int,
                    drafts@[x]@,
                    preds@,
                    starts@[x] as int,
                    moved.done@[pack@[x] as int],
                    out@[x],
                ));
            }
        }
        out
    }
}


/// A lane of a packed verify reads its own columns: the choices behind its first `k` drafts stand in
/// column `start + k` of the verify.
pub proof fn law_a_packed_lane_reads_its_own_columns(
    before: BatchScheduler,
    after: BatchScheduler,
    i: int,
    drafts: Seq<u32>,
    preds: Seq<u32>,
    start: int,
    finished: bool,
    r: LaneStep,
    m: int,
)
    requires
        packed_step(before, after, i, drafts, preds, start, finished, r),
        0 <= start,
        start + drafts.len() < preds.len(),
        0 <= m <= drafts.len(),
        before.setup.layout.snapshot_slot + preds.len() <= usize::MAX,
    ensures
        (m <= r.emission.accepted) == (forall|k: int|
            0 <= k < m ==> #[trigger] drafts[k] == preds[start + k]),
        r.emission.tokens@.is_prefix_of(
            drafts.take(r.emission.accepted as int).push(preds[start + r.emission.accepted]),
        ),
        r.restore is None <==> r.emission.accepted == drafts.len(),
        r.restore is Some ==> r.restore->0 == before.setup.layout.snapshot_slot + start
            + r.emission.accepted,
{
    let mine = columns(preds, start, drafts.len() as int + 1);
    let n = r.emission.accepted as int;
    lane_steps::law_as_many_drafts_stand_as_can(drafts, mine, None, n, m);
    assert forall|k: int| 0 <= k <= drafts.len() implies mine[k] == preds[start + k] by {
    }
    if m <= n {
        assert forall|k: int| 0 <= k < m implies #[trigger] drafts[k] == preds[start + k] by {
            assert(drafts.take(m)[k] == mine.take(m)[k]);
        }
    }
    if forall|k: int| 0 <= k < m ==> #[trigger] drafts[k] == preds[start + k] {
        assert(drafts.take(m) =~= mine.take(m));
    }
    let list = commit::offered(drafts, n, mine[n]);
    assert(r.emission.tokens@ =~= list.subrange(0, r.emission.tokens@.len() as int));
}

/// The totals of a packed step are sums over its lanes.
pub proof fn law_totals_are_sums(drafts: Seq<Vec<u32>>, r: Seq<LaneStep>, n: int)
    requires
        0 <= n <= drafts.len(),
        n <= r.len(),
    ensures
        drafts_total(drafts, n) == drafts.take(n).map_values(
            |d: Vec<u32>| d@.len() as int,
        ).fold_left(0int, |a: int, x: int| a + x),
        accepted_total(r, n) == r.take(n).map_values(
            |s: LaneStep| s.emission.accepted as int,
        ).fold_left(0int, |a: int, x: int| a + x),
        emitted_total(r, n) == r.take(n).map_values(
            |s: LaneStep| s.emission.tokens@.len() as int,
        ).fold_left(0int, |a: int, x: int| a + x),
    decreases n,
{
    let a = drafts.take(n).map_values(|d: Vec<u32>| d@.len() as int);
    let b = r.take(n).map_values(|s: LaneStep| s.emission.accepted as int);
    let c = r.take(n).map_values(|s: LaneStep| s.emission.tokens@.len() as int);
    if n > 0 {
        law_totals_are_sums(drafts, r, n - 1);
        assert(a.drop_last() =~= drafts.take(n - 1).map_values(|d: Vec<u32>| d@.len() as int));
        assert(b.drop_last() =~= r.take(n - 1).map_values(
            |s: LaneStep| s.emission.accepted as int,
        ));
        assert(c.drop_last() =~= r.take(n - 1).map_values(
            |s: LaneStep| s.emission.tokens@.len() as int,
        ));
    }
}


/// A packed step leaves alone what is not its lanes': the other lanes, whether they are done, what
/// their slots have consumed, the free slots, the prefill and the checkpoints.
pub proof fn law_a_pack_leaves_the_others_alone(
    before: BatchScheduler,
    after: BatchScheduler,
    pack: Seq<usize>,
    j: usize,
)
    requires
        after.pack_kept(&before, pack),
        j < before.lanes@.len(),
        !pack.contains(j),
    ensures
        after.lanes@.len() == before.lanes@.len(),
        after.lanes@[j as int] == before.lanes@[j as int],
        after.done@[j as int] == before.done@[j as int],
        after.slots.cache@[before.lanes@[j as int].phys as int]@
            == before.slots.cache@[before.lanes@[j as int].phys as int]@,
        after.free_slots == before.free_slots && after.pf == before.pf && after.setup == before.setup
            && after.mtp == before.mtp,
        after.slots.ckpt_seq == before.slots.ckpt_seq && after.slots.ring_len
            == before.slots.ring_len,
{
    assert(after.lanes@[j as int] == before.lanes@[j as int]);
    assert(before.lanes@[j as int].phys == before.lanes@[j as int].phys);
}

/// A step over a tree accepts the drafts on the walk: it emits a start of the target's choices along
/// it, the slot consumes the committed token and the accepted drafts, and the state is set back to
/// the walk's last column unless that is the last of all.
pub proof fn law_a_tree_step_follows_the_walk(
    before: BatchScheduler,
    after: BatchScheduler,
    i: int,
    drafter: Drafter,
    parent: Seq<i32>,
    tokens: Seq<u32>,
    preds: Seq<u32>,
    r: TreeStep,
    k: int,
)
    requires
        walked(before, after, i, drafter, parent, tokens, preds, r),
        0 <= k < r.path@.len() - 1,
        before.setup.layout.snapshot_slot + parent.len() <= usize::MAX,
    ensures
        r.step.emission.accepted == r.path@.len() - 1,
        r.step.emission.tokens@.is_prefix_of(choices(preds, r.path@)),
        r.step.fed@.len() == r.path@.len(),
        r.step.fed@[0] == before.lanes@[i].last_tok,
        r.step.fed@[k + 1] == tokens[r.path@[k + 1] as int],
        r.step.restore is None <==> r.path@.last() == parent.len() - 1,
        r.step.restore is Some ==> r.step.restore->0 == before.setup.layout.snapshot_slot
            + r.path@.last(),
{
    let list = choices(preds, r.path@);
    let n = r.path@.len() - 1;
    tree::law_accepted_drafts_are_emitted(parent, tokens, preds, r.path@, k);
    assert(list.drop_last()[k] == preds[r.path@[k] as int]);
    steps::law_what_is_fed_is_consumed(Seq::empty(), before.lanes@[i].last_tok, list.drop_last(), n);
    let offered = commit::offered(list.drop_last(), n, list.last());
    assert(offered =~= list);
    let c = r.step.emission.tokens@.len() as int;
    assert(r.step.emission.tokens@ =~= list.subrange(0, c));
    assert(r.path@[n] < parent.len());
}

} // verus!
