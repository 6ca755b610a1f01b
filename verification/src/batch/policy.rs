//! When drafting with the model's own head pays.
//!
//! A step of depth `d` emits one token and the accepted drafts, and costs `r(d)` plain steps. The
//! policy counts how far drafts are accepted and, window by window, lets the caller weigh the
//! depths; it then keeps the best depth, or switches drafting off and probes again later.

use vstd::prelude::*;

use crate::batch::sources;
use crate::batch::sources::SpecSource;
use crate::single::{Single, SINGLE_INFINITY};

verus! {

/// Deepest draft chain.
pub const MAX_AUTO_DEPTH: usize = 8;

/// Steps of a window.
pub const MTP_EVAL_WINDOW: u64 = 128;

/// Steps of the first window after drafting was switched on.
pub const MTP_EVAL_FIRST: u64 = 32;

/// Steps after which drafting is probed again.
pub const MTP_RETRY_AFTER: u64 = 4096;

/// Counts are kept as whole doubles, which stop growing here.
pub const COUNT_LIMIT: u64 = 0x20_0000_0000_0000;

/// The cost of a step by depth.
pub type CostTable = Vec<(usize, Single)>;

/// The drafting policy.
pub struct MtpPolicy {
    pub head_present: bool,
    pub spec_source: SpecSource,
    /// `Some`: switched on or off by hand.
    pub force: Option<bool>,
    /// `Some`: the depth is fixed.
    pub pin_depth: Option<usize>,
    pub depth: usize,
    /// Cost tables, each measured at one context length, in ascending order.
    pub r_ctx: Vec<(usize, CostTable)>,
    pub last_ctx: usize,
    pub active: bool,
    pub win_steps: u64,
    pub win_emitted: u64,
    pub win_drafts: u64,
    pub win_accepted: u64,
    /// Per position: how often its draft was accepted, and how often it was offered with every
    /// earlier draft accepted.
    pub hz: Vec<(u64, u64)>,
    pub decode_steps: u64,
    pub retry_at: u64,
    /// The current window is the first one.
    pub first_short: bool,
}

/// The counts of a window that is complete.
#[derive(Clone, Copy, PartialEq, Eq, Structural, Debug)]
pub struct Window {
    pub steps: u64,
    pub emitted: u64,
    pub drafts: u64,
    pub accepted: u64,
}

/// What a tick asks of the caller.
#[derive(Clone, Copy, PartialEq, Eq, Structural, Debug)]
pub enum Tick {
    /// Nothing.
    Idle,
    /// Nothing; drafting was switched on to be probed.
    Reprobe,
    /// To weigh the depths and to settle on one.
    Evaluate(Window),
}

/// Depth that a policy opens with.
pub open spec fn opening_depth(pin_depth: Option<usize>) -> usize {
    match pin_depth {
        None => 4,
        Some(d) => if d < 2 {
            2
        } else if d > MAX_AUTO_DEPTH {
            MAX_AUTO_DEPTH
        } else {
            d
        },
    }
}

/// One more, up to the limit.
pub open spec fn counted(n: u64) -> u64 {
    if n < COUNT_LIMIT {
        (n + 1) as u64
    } else {
        n
    }
}

fn count(n: u64) -> (r: u64)
    ensures
        r == counted(n),
{
    if n < COUNT_LIMIT {
        n + 1
    } else {
        n
    }
}

/// A draft is offered only where the one before it was accepted, and accepted only where it was
/// offered.
pub open spec fn conditional(hz: Seq<(u64, u64)>) -> bool {
    &&& forall|i: int|
        0 <= i < hz.len() ==> (#[trigger] hz[i]).0 <= hz[i].1 && hz[i].1 <= COUNT_LIMIT
    &&& forall|i: int, j: int|
        0 <= i < j < hz.len() ==> (#[trigger] hz[j]).1 <= (#[trigger] hz[i]).0
}

/// Counts after a step whose first `accepted` of `drafts` drafts were accepted.
pub open spec fn counts_after(hz: Seq<(u64, u64)>, drafts: u64, accepted: u64) -> Seq<(u64, u64)> {
    Seq::new(
        hz.len(),
        |i: int|
            if i < accepted {
                (counted(hz[i].0), counted(hz[i].1))
            } else if i == accepted && accepted < drafts {
                (hz[i].0, counted(hz[i].1))
            } else {
                hz[i]
            },
    )
}

/// Index of the table for context `ctx`: the first one whose point covers half of it, else the
/// last one.
pub open spec fn table_index(points: Seq<(usize, CostTable)>, ctx: usize, i: int) -> int
    decreases points.len() - i,
{
    if i < 0 || i >= points.len() {
        points.len() - 1
    } else if ctx <= points[i].0 * 2 {
        i
    } else {
        table_index(points, ctx, i + 1)
    }
}

/// The cost of depth `d` in a table; infinite where the depth was not measured.
pub open spec fn cost_in(table: Seq<(usize, Single)>, d: usize, i: int) -> Single
    decreases table.len() - i,
{
    if i < 0 || i >= table.len() {
        Single { bits: SINGLE_INFINITY }
    } else if table[i].0 == d {
        table[i].1
    } else {
        cost_in(table, d, i + 1)
    }
}

/// The cost of depth `d` at context `ctx`.
pub open spec fn cost(points: Seq<(usize, CostTable)>, d: usize, ctx: usize) -> Single {
    if points.len() == 0 {
        Single { bits: SINGLE_INFINITY }
    } else {
        cost_in(points[table_index(points, ctx, 0)].1@, d, 0)
    }
}

/// A cost that a depth can be weighed with: positive and finite.
pub open spec fn usable(r: Single) -> bool {
    0 < r.bits < SINGLE_INFINITY
}

/// The depths of a table that compete with `depth`, in order.
pub open spec fn rivals(table: Seq<(usize, Single)>, depth: usize) -> Seq<(usize, Single)>
    decreases table.len(),
{
    if table.len() == 0 {
        Seq::empty()
    } else {
        let rest = rivals(table.drop_last(), depth);
        if usable(table.last().1) && table.last().0 != depth {
            rest.push(table.last())
        } else {
            rest
        }
    }
}

/// The depths that compete with the current one at context `ctx`, with their costs. None where the
/// depth is fixed.
pub open spec fn competitors(p: MtpPolicy, ctx: usize) -> Seq<(usize, Single)> {
    if p.pin_depth is Some || p.r_ctx@.len() == 0 {
        Seq::empty()
    } else {
        rivals(p.r_ctx@[table_index(p.r_ctx@, ctx, 0)].1@, p.depth)
    }
}

/// Depth `d` can be settled on: it is the current one, or it competes with it at the last context.
pub open spec fn eligible(p: MtpPolicy, d: usize) -> bool {
    d == p.depth || exists|k: int|
        0 <= k < competitors(p, p.last_ctx).len() && (#[trigger] competitors(p, p.last_ctx)[k]).0
            == d
}

impl MtpPolicy {
    pub open spec fn wf(&self) -> bool {
        self.hz@.len() == MAX_AUTO_DEPTH && conditional(self.hz@)
    }

    /// The settings of `other`, which no step changes.
    pub open spec fn same_settings(&self, other: &MtpPolicy) -> bool {
        &&& self.head_present == other.head_present
        &&& self.spec_source == other.spec_source
        &&& self.force == other.force
        &&& self.pin_depth == other.pin_depth
        &&& self.r_ctx == other.r_ctx
    }

    /// One more step can be counted.
    pub open spec fn room(&self) -> bool {
        &&& self.win_steps <= u64::MAX - 0x1_0000
        &&& self.win_drafts <= u64::MAX - 0x1_0000
        &&& self.win_accepted <= u64::MAX - 0x1_0000
        &&& self.win_emitted <= u64::MAX - 0x1_0000
    }

    /// The window counts are all zero.
    pub open spec fn window_empty(&self) -> bool {
        self.win_steps == 0 && self.win_emitted == 0 && self.win_drafts == 0 && self.win_accepted
            == 0
    }

    /// A policy for the model's own head.
    pub fn new(
        head_present: bool,
        force: Option<bool>,
        pin_depth: Option<usize>,
        r_ctx: Vec<(usize, CostTable)>,
    ) -> (p: MtpPolicy)
        ensures
            p.wf(),
            p.active == (head_present && force != Some(false)),
            p.depth == opening_depth(pin_depth),
            p.spec_source == SpecSource::Mtp,
            p.head_present == head_present && p.force == force && p.pin_depth == pin_depth,
            p.r_ctx == r_ctx,
            p.window_empty() && p.first_short,
            p.decode_steps == 0 && p.retry_at == 0 && p.last_ctx == 0,
            forall|i: int| 0 <= i < MAX_AUTO_DEPTH ==> p.hz@[i] == (0u64, 0u64),
    {
        MtpPolicy::with_source(head_present, force, pin_depth, r_ctx, SpecSource::Mtp)
    }

    /// A policy with an explicit source. It opens in the middle of the range of depths, so that
    /// the first window observes several positions, and drafting starts switched on unless it was
    /// switched off by hand.
    pub fn with_source(
        head_present: bool,
        force: Option<bool>,
        pin_depth: Option<usize>,
        r_ctx: Vec<(usize, CostTable)>,
        spec_source: SpecSource,
    ) -> (p: MtpPolicy)
        ensures
            p.wf(),
            p.active == (head_present && force != Some(false)),
            p.depth == opening_depth(pin_depth),
            p.spec_source == spec_source,
            p.head_present == head_present && p.force == force && p.pin_depth == pin_depth,
            p.r_ctx == r_ctx,
            p.window_empty() && p.first_short,
            p.decode_steps == 0 && p.retry_at == 0 && p.last_ctx == 0,
            forall|i: int| 0 <= i < MAX_AUTO_DEPTH ==> p.hz@[i] == (0u64, 0u64),
    {
        let wanted = match force {
            Some(on) => on,
            None => true,
        };
        let depth: usize = match pin_depth {
            None => 4,
            Some(d) => if d < 2 {
                2
            } else if d > MAX_AUTO_DEPTH {
                MAX_AUTO_DEPTH
            } else {
                d
            },
        };
        let mut hz: Vec<(u64, u64)> = Vec::new();
        while hz.len() < MAX_AUTO_DEPTH
            invariant
                hz@.len() <= MAX_AUTO_DEPTH,
                forall|i: int| 0 <= i < hz@.len() ==> hz@[i] == (0u64, 0u64),
            decreases MAX_AUTO_DEPTH - hz.len(),
        {
            hz.push((0, 0));
        }
        MtpPolicy {
            head_present,
            spec_source,
            force,
            pin_depth,
            depth,
            r_ctx,
            last_ctx: 0,
            active: head_present && wanted,
            win_steps: 0,
            win_emitted: 0,
            win_drafts: 0,
            win_accepted: 0,
            hz,
            decode_steps: 0,
            retry_at: 0,
            first_short: true,
        }
    }

    /// True when drafting is switched on.
    pub fn active(&self) -> (r: bool)
        ensures
            r == self.active,
    {
        self.active
    }

    /// Switches the source.
    pub fn set_spec_source(&mut self, src: SpecSource)
        ensures
            *final(self) == (MtpPolicy { spec_source: src, ..*old(self) }),
    {
        self.spec_source = src;
    }

    pub fn spec_source(&self) -> (r: SpecSource)
        ensures
            r == self.spec_source,
    {
        self.spec_source
    }

    /// True when the block drafter makes the drafts: it is the source, and it is resident.
    pub fn use_dspark(&self, dspark_present: bool) -> (r: bool)
        ensures
            r == (self.spec_source == SpecSource::Dspark && dspark_present),
    {
        self.spec_source == SpecSource::Dspark && dspark_present
    }

    /// True when the selector round makes the drafts: it is the source, and it is resident.
    pub fn use_dflash2(&self, df2_present: bool) -> (r: bool)
        ensures
            r == (sources::df2_family(self.spec_source) && df2_present),
    {
        sources::is_df2_src(self.spec_source) && df2_present
    }

    pub fn depth(&self) -> (r: usize)
        ensures
            r == self.depth,
    {
        self.depth
    }

    pub fn head_present(&self) -> (r: bool)
        ensures
            r == self.head_present,
    {
        self.head_present
    }

    /// Acceptance counts by position, up to the deepest position that was ever offered a draft.
    pub fn hazard_counts(&self) -> (v: Vec<(u64, u64)>)
        requires
            self.wf(),
        ensures
            v@.len() <= MAX_AUTO_DEPTH,
            v@ == self.hz@.take(v@.len() as int),
            v@.len() > 0 ==> v@.last().1 > 0,
            conditional(v@),
            forall|i: int| v@.len() <= i < MAX_AUTO_DEPTH ==> (#[trigger] self.hz@[i]).1 == 0,
    {
        let mut n: usize = MAX_AUTO_DEPTH;
        while n > 0 && self.hz[n - 1].1 == 0
            invariant
                n <= MAX_AUTO_DEPTH,
                self.hz@.len() == MAX_AUTO_DEPTH,
                forall|i: int| n <= i < MAX_AUTO_DEPTH ==> (#[trigger] self.hz@[i]).1 == 0,
            decreases n,
        {
            n -= 1;
        }
        let mut v: Vec<(u64, u64)> = Vec::new();
        let mut i: usize = 0;
        while i < n
            invariant
                i <= n <= self.hz@.len(),
                v@ =~= self.hz@.take(i as int),
            decreases n - i,
        {
            v.push(self.hz[i]);
            i += 1;
        }
        assert forall|k: int| 0 <= k < v@.len() implies v@[k] == #[trigger] self.hz@[k] by {}
        v
    }

    fn bucket_index(&self, ctx: usize) -> (r: usize)
        requires
            self.r_ctx@.len() > 0,
        ensures
            r == table_index(self.r_ctx@, ctx, 0),
            r < self.r_ctx@.len(),
    {
        let mut i: usize = 0;
        while i < self.r_ctx.len()
            invariant
                i <= self.r_ctx.len(),
                self.r_ctx@.len() > 0,
                table_index(self.r_ctx@, ctx, 0) == table_index(self.r_ctx@, ctx, i as int),
            decreases self.r_ctx.len() - i,
        {
            let half: usize = ctx / 2 + ctx % 2;
            if half <= self.r_ctx[i].0 {
                return i;
            }
            i += 1;
        }
        self.r_ctx.len() - 1
    }

    /// The cost of depth `d` at context `ctx`; infinite where it was not measured.
    pub fn r_at(&self, d: usize, ctx: usize) -> (r: Single)
        ensures
            r == cost(self.r_ctx@, d, ctx),
    {
        if self.r_ctx.len() == 0 {
            return Single { bits: SINGLE_INFINITY };
        }
        let k: usize = self.bucket_index(ctx);
        let table = &self.r_ctx[k].1;
        let mut i: usize = 0;
        while i < table.len()
            invariant
                i <= table.len(),
                cost(self.r_ctx@, d, ctx) == cost_in(table@, d, 0),
                cost_in(table@, d, 0) == cost_in(table@, d, i as int),
            decreases table.len() - i,
        {
            if table[i].0 == d {
                return table[i].1;
            }
            i += 1;
        }
        Single { bits: SINGLE_INFINITY }
    }

    /// The cost of the current depth at the last context.
    pub fn r(&self) -> (r: Single)
        ensures
            r == cost(self.r_ctx@, self.depth, self.last_ctx),
    {
        self.r_at(self.depth, self.last_ctx)
    }

    /// The depths that compete with the current one at context `ctx`, with their costs. None
    /// where the depth is fixed.
    pub fn candidates(&self, ctx: usize) -> (v: Vec<(usize, Single)>)
        ensures
            v@ == competitors(*self, ctx),
    {
        let mut v: Vec<(usize, Single)> = Vec::new();
        if self.pin_depth.is_some() || self.r_ctx.len() == 0 {
            assert(v@ =~= competitors(*self, ctx));
            return v;
        }
        let k: usize = self.bucket_index(ctx);
        let table = &self.r_ctx[k].1;
        let mut i: usize = 0;
        assert(table@.take(0) =~= Seq::empty());
        while i < table.len()
            invariant
                i <= table.len(),
                v@ == rivals(table@.take(i as int), self.depth),
            decreases table.len() - i,
        {
            assert(table@.take(i + 1).drop_last() =~= table@.take(i as int));
            let (d, r) = table[i];
            if 0 < r.bits && r.bits < SINGLE_INFINITY && d != self.depth {
                v.push((d, r));
            }
            i += 1;
        }
        assert(table@.take(table@.len() as int) =~= table@);
        v
    }

    /// Records one step: of `drafts` drafts the first `accepted` were accepted.
    pub fn record_step(&mut self, drafts: u64, accepted: u64, emitted: u64)
        requires
            old(self).wf(),
            old(self).win_steps < u64::MAX,
            old(self).win_drafts + drafts <= u64::MAX,
            old(self).win_accepted + accepted <= u64::MAX,
            old(self).win_emitted + emitted <= u64::MAX,
        ensures
            final(self).wf(),
            recorded(*old(self), *final(self), drafts, accepted, emitted),
    {
        self.win_steps = self.win_steps + 1;
        self.win_drafts = self.win_drafts + drafts;
        self.win_accepted = self.win_accepted + accepted;
        self.win_emitted = self.win_emitted + emitted;
        let ghost before = self.hz@;
        let ghost want = counts_after(before, drafts, accepted);
        let mut i: usize = 0;
        while i < MAX_AUTO_DEPTH
            invariant
                i <= MAX_AUTO_DEPTH,
                self.hz@.len() == MAX_AUTO_DEPTH,
                before.len() == MAX_AUTO_DEPTH,
                want == counts_after(before, drafts, accepted),
                forall|k: int| 0 <= k < i ==> #[trigger] self.hz@[k] == want[k],
                forall|k: int| i <= k < MAX_AUTO_DEPTH ==> #[trigger] self.hz@[k] == before[k],
                self.same_settings(old(self)),
                self.win_steps == old(self).win_steps + 1,
                self.win_drafts == old(self).win_drafts + drafts,
                self.win_accepted == old(self).win_accepted + accepted,
                self.win_emitted == old(self).win_emitted + emitted,
                self.depth == old(self).depth,
                self.active == old(self).active,
                self.first_short == old(self).first_short,
                self.last_ctx == old(self).last_ctx,
                self.decode_steps == old(self).decode_steps,
                self.retry_at == old(self).retry_at,
            decreases MAX_AUTO_DEPTH - i,
        {
            let (a, n) = self.hz[i];
            if (i as u64) < accepted {
                self.hz[i] = (count(a), count(n));
            } else if i as u64 == accepted && accepted < drafts {
                self.hz[i] = (a, count(n));
            }
            i += 1;
        }
        assert(self.hz@ =~= want);
        proof {
            lemma_conditional(before, drafts, accepted);
        }
    }

    /// Starts a tick, once per decode step, at the deepest live context. Where a window is
    /// complete, its counts are handed out and the caller settles on a depth.
    pub fn begin_tick(&mut self, ctx: usize) -> (t: Tick)
        requires
            old(self).wf(),
            old(self).decode_steps < u64::MAX,
        ensures
            final(self).wf(),
            t == tick_kind(*old(self)),
            begun(*old(self), ctx, *final(self)),
    {
        self.decode_steps = self.decode_steps + 1;
        self.last_ctx = ctx;
        if self.force.is_some() || !self.head_present {
            return Tick::Idle;
        }
        if !self.active {
            if self.decode_steps >= self.retry_at {
                self.active = true;
                self.first_short = true;
                self.clear_window();
                return Tick::Reprobe;
            }
            return Tick::Idle;
        }
        let need: u64 = if self.first_short {
            MTP_EVAL_FIRST
        } else {
            MTP_EVAL_WINDOW
        };
        if self.win_steps < need {
            return Tick::Idle;
        }
        self.first_short = false;
        let w = Window {
            steps: self.win_steps,
            emitted: self.win_emitted,
            drafts: self.win_drafts,
            accepted: self.win_accepted,
        };
        self.clear_window();
        Tick::Evaluate(w)
    }

    fn clear_window(&mut self)
        ensures
            *final(self) == (MtpPolicy {
                win_steps: 0,
                win_emitted: 0,
                win_drafts: 0,
                win_accepted: 0,
                ..*old(self)
            }),
    {
        self.win_steps = 0;
        self.win_emitted = 0;
        self.win_drafts = 0;
        self.win_accepted = 0;
    }

    /// Ends the tick of a complete window. `pays`: the best depth beats a plain step. Where none
    /// does, drafting is switched off for a while.
    pub fn settle(&mut self, best_depth: usize, pays: bool)
        requires
            old(self).decode_steps + MTP_RETRY_AFTER <= u64::MAX,
            eligible(*old(self), best_depth),
        ensures
            *final(self) == settled(*old(self), best_depth, pays),
    {
        if !pays {
            self.active = false;
            self.retry_at = self.decode_steps + MTP_RETRY_AFTER;
            return;
        }
        self.depth = best_depth;
    }
}

/// A tick has begun at context `ctx`: the window is cleared where it is weighed, and drafting that
/// was switched off is switched on where it is probed.
pub open spec fn begun(before: MtpPolicy, ctx: usize, after: MtpPolicy) -> bool {
    &&& after.same_settings(&before)
    &&& after.decode_steps == before.decode_steps + 1
    &&& after.last_ctx == ctx
    &&& after.hz == before.hz
    &&& after.depth == before.depth
    &&& after.retry_at == before.retry_at
    &&& match tick_kind(before) {
        Tick::Idle => after.active == before.active && after.first_short == before.first_short
            && same_window(after, before),
        Tick::Reprobe => after.active && after.first_short && after.window_empty(),
        Tick::Evaluate(_) => after.active && !after.first_short && after.window_empty(),
    }
}

/// A tick that settles on a depth, where a depth pays, and else switches drafting off.
pub open spec fn settled(before: MtpPolicy, best_depth: usize, pays: bool) -> MtpPolicy {
    if pays {
        MtpPolicy { depth: best_depth, ..before }
    } else {
        MtpPolicy {
            active: false,
            retry_at: (before.decode_steps + MTP_RETRY_AFTER) as u64,
            ..before
        }
    }
}

/// A whole tick, over the state in its middle: where a window is weighed, it settles.
pub open spec fn ticked(before: MtpPolicy, ctx: usize, mid: MtpPolicy, after: MtpPolicy) -> bool {
    &&& begun(before, ctx, mid)
    &&& if tick_kind(before) is Evaluate {
        exists|d: usize, pays: bool| eligible(mid, d) && after == #[trigger] settled(mid, d, pays)
    } else {
        after == mid
    }
}

/// One recorded step, or one tick.
pub open spec fn moved(before: MtpPolicy, after: MtpPolicy) -> bool {
    ||| exists|drafts: u64, accepted: u64, emitted: u64| #[trigger]
        recorded(before, after, drafts, accepted, emitted)
    ||| exists|ctx: usize, mid: MtpPolicy| #[trigger] ticked(before, ctx, mid, after)
}

/// `after` has counted one step: of `drafts` drafts the first `accepted` were accepted.
pub open spec fn recorded(
    before: MtpPolicy,
    after: MtpPolicy,
    drafts: u64,
    accepted: u64,
    emitted: u64,
) -> bool {
    &&& after.same_settings(&before)
    &&& after.win_steps == before.win_steps + 1
    &&& after.win_drafts == before.win_drafts + drafts
    &&& after.win_accepted == before.win_accepted + accepted
    &&& after.win_emitted == before.win_emitted + emitted
    &&& after.hz@ == counts_after(before.hz@, drafts, accepted)
    &&& after.depth == before.depth
    &&& after.active == before.active
    &&& after.first_short == before.first_short
    &&& after.last_ctx == before.last_ctx
    &&& after.decode_steps == before.decode_steps
    &&& after.retry_at == before.retry_at
}

/// Steps that the current window needs.
pub open spec fn window_need(p: MtpPolicy) -> u64 {
    if p.first_short {
        MTP_EVAL_FIRST
    } else {
        MTP_EVAL_WINDOW
    }
}

/// What the next tick asks.
pub open spec fn tick_kind(p: MtpPolicy) -> Tick {
    if p.force is Some || !p.head_present {
        Tick::Idle
    } else if !p.active {
        if p.decode_steps + 1 >= p.retry_at {
            Tick::Reprobe
        } else {
            Tick::Idle
        }
    } else if p.win_steps < window_need(p) {
        Tick::Idle
    } else {
        Tick::Evaluate(
            Window {
                steps: p.win_steps,
                emitted: p.win_emitted,
                drafts: p.win_drafts,
                accepted: p.win_accepted,
            },
        )
    }
}

pub open spec fn same_window(a: MtpPolicy, b: MtpPolicy) -> bool {
    a.win_steps == b.win_steps && a.win_emitted == b.win_emitted && a.win_drafts == b.win_drafts
        && a.win_accepted == b.win_accepted
}

/// The counts stay conditional.
proof fn lemma_conditional(hz: Seq<(u64, u64)>, drafts: u64, accepted: u64)
    requires
        conditional(hz),
    ensures
        conditional(counts_after(hz, drafts, accepted)),
{
    let after = counts_after(hz, drafts, accepted);
    assert forall|i: int| 0 <= i < after.len() implies (#[trigger] after[i]).0 <= after[i].1
        && after[i].1 <= COUNT_LIMIT by {
        assert(hz[i].0 <= hz[i].1 && hz[i].1 <= COUNT_LIMIT);
    }
    assert forall|i: int, j: int| 0 <= i < j < after.len() implies (#[trigger] after[j]).1
        <= (#[trigger] after[i]).0 by {
        assert(hz[j].1 <= hz[i].0);
    }
}

/// A window that is complete is always weighed, and drafting that was switched off is probed
/// again after the cooldown.
pub proof fn law_policy_never_gets_stuck(p: MtpPolicy)
    requires
        p.force is None,
        p.head_present,
    ensures
        p.active && p.win_steps >= MTP_EVAL_WINDOW ==> tick_kind(p) is Evaluate,
        !p.active && p.decode_steps >= p.retry_at ==> tick_kind(p) is Reprobe,
{
}

/// One step or tick never moves a depth that is fixed, leaves a policy that was set by hand alone,
/// and takes nothing off a count.
pub proof fn law_a_move_keeps_what_is_fixed(before: MtpPolicy, after: MtpPolicy)
    requires
        before.wf(),
        moved(before, after),
    ensures
        after.same_settings(&before),
        before.pin_depth is Some ==> after.depth == before.depth,
        before.force is Some || !before.head_present ==> after.depth == before.depth && after.active
            == before.active,
        after.hz@.len() == before.hz@.len(),
        forall|i: int|
            0 <= i < before.hz@.len() ==> (#[trigger] after.hz@[i]).0 >= before.hz@[i].0
                && after.hz@[i].1 >= before.hz@[i].1,
{
    if exists|ctx: usize, mid: MtpPolicy| #[trigger] ticked(before, ctx, mid, after) {
        let (ctx, mid) = choose|ctx: usize, mid: MtpPolicy| #[trigger]
            ticked(before, ctx, mid, after);
        if tick_kind(before) is Evaluate {
            let (d, pays) = choose|d: usize, pays: bool|
                eligible(mid, d) && after == #[trigger] settled(mid, d, pays);
            if before.pin_depth is Some {
                assert(competitors(mid, mid.last_ctx).len() == 0);
            }
        }
    } else {
        let (drafts, accepted, emitted) = choose|drafts: u64, accepted: u64, emitted: u64|
            #[trigger] recorded(before, after, drafts, accepted, emitted);
        assert forall|i: int| 0 <= i < before.hz@.len() implies (#[trigger] after.hz@[i]).0
            >= before.hz@[i].0 && after.hz@[i].1 >= before.hz@[i].1 by {
            assert(before.hz@[i].0 <= before.hz@[i].1 && before.hz@[i].1 <= COUNT_LIMIT);
        }
    }
}

/// A policy as it was opened.
pub open spec fn opened(p: MtpPolicy) -> bool {
    &&& p.wf()
    &&& p.depth == opening_depth(p.pin_depth)
    &&& p.active == (p.head_present && p.force != Some(false))
}

/// Over any run of steps and ticks a depth that was fixed stays what it was fixed to, and a policy
/// that was set by hand, or has no head, stays as it was opened.
pub proof fn law_fixed_policies_stay(run: Seq<MtpPolicy>, i: int)
    requires
        0 <= i < run.len(),
        opened(run[0]),
        forall|k: int| 0 <= k < run.len() ==> (#[trigger] run[k]).wf(),
        forall|k: int| 0 < k < run.len() ==> moved(run[k - 1], #[trigger] run[k]),
    ensures
        run[i].same_settings(&run[0]),
        run[i].pin_depth is Some ==> run[i].depth == opening_depth(run[i].pin_depth),
        run[i].force is Some || !run[i].head_present ==> run[i].active == (run[i].head_present
            && run[i].force != Some(false)) && run[i].depth == opening_depth(run[i].pin_depth),
    decreases i,
{
    if i > 0 {
        law_fixed_policies_stay(run, i - 1);
        assert(run[i - 1].wf());
        assert(moved(run[i - 1], run[i]));
        law_a_move_keeps_what_is_fixed(run[i - 1], run[i]);
    }
}

/// A policy that was set by hand never changes by itself.
pub proof fn law_forced_policy_is_left_alone(p: MtpPolicy)
    requires
        p.force is Some || !p.head_present,
    ensures
        tick_kind(p) is Idle,
{
}


/// The depth to start with lies between two and eight; a depth asked for in that range is taken as
/// it is, another is moved to the nearer end, and without one it is four.
pub proof fn law_the_opening_depth_is_within_bounds(d: usize)
    ensures
        opening_depth(None) == 4,
        2 <= opening_depth(Some(d)) <= 8,
        2 <= d <= 8 ==> opening_depth(Some(d)) == d,
        d < 2 ==> opening_depth(Some(d)) == 2,
        8 < d ==> opening_depth(Some(d)) == 8,
{
}

/// What a step adds to the counts: a draft was offered where every earlier one was accepted, and it
/// succeeded where it was accepted itself.
pub proof fn law_counts_tell_offers_and_successes(
    hz: Seq<(u64, u64)>,
    drafts: u64,
    accepted: u64,
    i: int,
)
    requires
        accepted <= drafts,
        0 <= i < hz.len(),
        hz[i].0 < COUNT_LIMIT,
        hz[i].1 < COUNT_LIMIT,
    ensures
        counts_after(hz, drafts, accepted).len() == hz.len(),
        counts_after(hz, drafts, accepted)[i].0 - hz[i].0 == if i < accepted {
            1int
        } else {
            0
        },
        counts_after(hz, drafts, accepted)[i].1 - hz[i].1 == if i < drafts && i <= accepted {
            1int
        } else {
            0
        },
{
}

proof fn lemma_table_index(points: Seq<(usize, CostTable)>, ctx: usize, from: int)
    requires
        0 <= from <= points.len(),
        points.len() > 0,
    ensures
        ({
            let r = table_index(points, ctx, from);
            &&& 0 <= r < points.len()
            &&& forall|k: int| from <= k < r ==> (#[trigger] points[k]).0 * 2 < ctx
            &&& r < points.len() - 1 ==> from <= r && ctx <= points[r].0 * 2
        }),
    decreases points.len() - from,
{
    if from < points.len() && ctx > points[from].0 * 2 {
        lemma_table_index(points, ctx, from + 1);
    }
}

/// A context is served by the first table that was measured at half of it or more, and by the last
/// table where there is none.
pub proof fn law_a_context_is_served_by_its_table(points: Seq<(usize, CostTable)>, ctx: usize)
    requires
        points.len() > 0,
    ensures
        ({
            let r = table_index(points, ctx, 0);
            &&& 0 <= r < points.len()
            &&& forall|k: int| 0 <= k < r ==> (#[trigger] points[k]).0 * 2 < ctx
            &&& r < points.len() - 1 ==> ctx <= points[r].0 * 2
        }),
{
    lemma_table_index(points, ctx, 0);
}

/// The cost of a depth is the one in its first row; a depth without a row costs infinitely much.
pub proof fn law_costs_are_those_of_the_table(table: Seq<(usize, Single)>, d: usize, from: int)
    requires
        0 <= from <= table.len(),
    ensures
        (forall|k: int| from <= k < table.len() ==> (#[trigger] table[k]).0 != d) ==> cost_in(
            table,
            d,
            from,
        ).bits == 0x7F80_0000,
        forall|i: int|
            from <= i < table.len() && (#[trigger] table[i]).0 == d && (forall|k: int|
                from <= k < i ==> (#[trigger] table[k]).0 != d) ==> cost_in(table, d, from)
                == table[i].1,
    decreases table.len() - from,
{
    if from < table.len() && table[from].0 != d {
        law_costs_are_those_of_the_table(table, d, from + 1);
    }
}

/// The depths that may take over are those of the table with a usable cost, in their order, without
/// the present one.
pub proof fn law_rivals_are_the_usable_depths(table: Seq<(usize, Single)>, depth: usize)
    ensures
        rivals(table, depth) == table.filter(
            |e: (usize, Single)| e.0 != depth && 0 < e.1.bits && e.1.bits < 0x7F80_0000,
        ),
    decreases table.len(),
{
    reveal(Seq::filter);
    if table.len() > 0 {
        law_rivals_are_the_usable_depths(table.drop_last(), depth);
    }
}

/// A pinned depth has no rivals, and neither has one without cost tables.
pub proof fn law_a_pinned_depth_has_no_rivals(p: MtpPolicy, ctx: usize)
    ensures
        p.pin_depth is Some || p.r_ctx@.len() == 0 ==> competitors(p, ctx).len() == 0,
        p.pin_depth is None && p.r_ctx@.len() > 0 ==> competitors(p, ctx) == rivals(
            p.r_ctx@[table_index(p.r_ctx@, ctx, 0)].1@,
            p.depth,
        ),
{
}

/// A policy that decides for itself weighs the depths after 32 steps in its first window and after
/// 128 in each further one, and hands out what it counted.
pub proof fn law_windows_are_weighed_when_complete(p: MtpPolicy)
    requires
        p.force is None,
        p.head_present,
        p.active,
    ensures
        tick_kind(p) is Evaluate <==> p.win_steps >= (if p.first_short {
            32int
        } else {
            128
        }),
        !(tick_kind(p) is Evaluate) ==> tick_kind(p) is Idle,
        tick_kind(p) matches Tick::Evaluate(w) ==> w.steps == p.win_steps && w.emitted
            == p.win_emitted && w.drafts == p.win_drafts && w.accepted == p.win_accepted,
{
}

/// Drafting that does not pay is switched off for 4096 steps and then probed again; drafting that
/// pays goes on with the best depth.
pub proof fn law_drafting_is_probed_again(p: MtpPolicy, best: usize, steps: u64)
    requires
        p.force is None,
        p.head_present,
        p.decode_steps + 4096 <= u64::MAX,
        p.decode_steps <= steps < u64::MAX,
    ensures
        ({
            let off = settled(p, best, false);
            let later = MtpPolicy { decode_steps: steps, ..off };
            &&& !off.active
            &&& off.depth == p.depth
            &&& tick_kind(later) is Reprobe <==> steps + 1 - p.decode_steps >= 4096
            &&& !(tick_kind(later) is Reprobe) ==> tick_kind(later) is Idle
        }),
        settled(p, best, true) == (MtpPolicy { depth: best, ..p }),
{
}

} // verus!
