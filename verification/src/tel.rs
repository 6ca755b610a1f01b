//! Telemetry of the decode steps: what each drafter has drafted and got accepted since the start,
//! and how long the last steps took.

use vstd::prelude::*;

verus! {

/// Step times that are kept.
pub const RING: usize = 256;

/// Draft positions that are tracked for the draft head.
pub const MAXK: usize = 8;

/// Draft positions that are tracked for the block drafter.
pub const MAXK_BLOCK: usize = 16;

/// Which drafter published last.
#[derive(Clone, Copy, PartialEq, Eq, Structural, Debug)]
pub enum Mode {
    Idle,
    Mtp,
    DFlash2,
    DFlash2Tree,
    DFlash,
}

/// Counts of a drafter that makes chains.
#[derive(Clone, Copy, PartialEq, Eq, Structural, Debug)]
pub struct ChainWindow {
    pub steps: u64,
    pub drafts: u64,
    pub accepted: u64,
    pub emitted: u64,
}

/// Counts of the selector's tree.
#[derive(Clone, Copy, PartialEq, Eq, Structural, Debug)]
pub struct TreeWindow {
    pub steps: u64,
    pub nodes: u64,
    pub rescues: u64,
}

/// All that is published.
pub struct Telemetry {
    /// Times of the last steps in microseconds; zero where there is none yet.
    pub step_us: Vec<u32>,
    pub ring_pos: usize,
    pub ring_n: u64,
    pub last_step: u64,
    pub mtp: ChainWindow,
    pub mtp_verify: u64,
    pub mtp_depth: u64,
    /// By draft position: accepted and offered.
    pub mtp_acc: Vec<(u64, u64)>,
    pub df2: ChainWindow,
    pub tree: TreeWindow,
    pub dflash: ChainWindow,
    pub dflash_block: u64,
    pub dflash_acc: Vec<(u64, u64)>,
    pub tp_world: u64,
    pub df2_block: u64,
    pub mode: Mode,
    pub updated_ms: u64,
}

pub open spec fn no_chain() -> ChainWindow {
    ChainWindow { steps: 0, drafts: 0, accepted: 0, emitted: 0 }
}

impl Telemetry {
    pub open spec fn wf(&self) -> bool {
        &&& self.step_us@.len() == RING
        &&& self.mtp_acc@.len() == MAXK
        &&& self.dflash_acc@.len() == MAXK_BLOCK
    }

    /// Nothing has been published.
    pub fn new() -> (t: Telemetry)
        ensures
            t.wf(),
            t.step_us@ == Seq::new(RING as nat, |i: int| 0u32),
            t.ring_pos == 0 && t.ring_n == 0 && t.last_step == 0,
            t.mtp == no_chain() && t.df2 == no_chain() && t.dflash == no_chain(),
            t.mtp_verify == 0 && t.mtp_depth == 0 && t.dflash_block == 0,
            t.tree == (TreeWindow { steps: 0, nodes: 0, rescues: 0 }),
            t.mtp_acc@ == Seq::new(MAXK as nat, |i: int| (0u64, 0u64)),
            t.dflash_acc@ == Seq::new(MAXK_BLOCK as nat, |i: int| (0u64, 0u64)),
            t.tp_world == 0 && t.df2_block == 0 && t.updated_ms == 0,
            t.mode == Mode::Idle,
    {
        let none = ChainWindow { steps: 0, drafts: 0, accepted: 0, emitted: 0 };
        let step_us: Vec<u32> = vec![0u32; RING];
        assert(step_us@ =~= Seq::new(RING as nat, |i: int| 0u32));
        let mtp_acc = no_pairs(MAXK);
        let dflash_acc = no_pairs(MAXK_BLOCK);
        Telemetry {
            step_us,
            ring_pos: 0,
            ring_n: 0,
            last_step: 0,
            mtp: none,
            mtp_verify: 0,
            mtp_depth: 0,
            mtp_acc,
            df2: none,
            tree: TreeWindow { steps: 0, nodes: 0, rescues: 0 },
            dflash: none,
            dflash_block: 0,
            dflash_acc,
            tp_world: 0,
            df2_block: 0,
            mode: Mode::Idle,
            updated_ms: 0,
        }
    }
}

fn no_pairs(n: usize) -> (v: Vec<(u64, u64)>)
    ensures
        v@ == Seq::new(n as nat, |i: int| (0u64, 0u64)),
{
    let mut v: Vec<(u64, u64)> = Vec::new();
    while v.len() < n
        invariant
            v@.len() <= n,
            forall|i: int| 0 <= i < v@.len() ==> #[trigger] v@[i] == (0u64, 0u64),
        decreases n - v@.len(),
    {
        v.push((0, 0));
    }
    assert(v@ =~= Seq::new(n as nat, |i: int| (0u64, 0u64)));
    v
}

/// Sets what is known when the server starts.
pub fn set_boot(t: &mut Telemetry, tp_world: usize, df2_block: usize)
    ensures
        *final(t) == (Telemetry {
            tp_world: tp_world as u64,
            df2_block: df2_block as u64,
            ..*old(t)
        }),
{
    t.tp_world = tp_world as u64;
    t.df2_block = df2_block as u64;
}

/// A time as it is kept: at most what fits.
pub open spec fn kept_us(us: u64) -> u32 {
    if us > u32::MAX {
        u32::MAX
    } else {
        us as u32
    }
}

/// `after` has one more step time, in place of the oldest.
pub open spec fn pushed(before: Telemetry, after: Telemetry, us: u64) -> bool {
    &&& after.step_us@ == before.step_us@.update(
        before.ring_pos as int % RING as int,
        kept_us(us),
    )
    &&& after == (Telemetry {
        step_us: after.step_us,
        ring_pos: before.ring_pos.wrapping_add(1),
        ring_n: before.ring_n.wrapping_add(1),
        ..before
    })
}

/// Keeps a step time.
pub fn ring_push_us(t: &mut Telemetry, us: u64)
    requires
        old(t).wf(),
    ensures
        final(t).wf(),
        pushed(*old(t), *final(t), us),
{
    let i: usize = t.ring_pos % RING;
    t.ring_pos = t.ring_pos.wrapping_add(1);
    let kept: u32 = if us > u32::MAX as u64 {
        u32::MAX
    } else {
        us as u32
    };
    t.step_us.set(i, kept);
    t.ring_n = t.ring_n.wrapping_add(1);
}

/// Milliseconds whose microseconds still fit.
pub const MS_LIMIT: u64 = 18_446_744_073_709_551;

/// A step ended at `now`: the time since the last one is kept, where there was one and the clock
/// has moved.
pub fn note_step(t: &mut Telemetry, now: u64)
    requires
        old(t).wf(),
        now <= MS_LIMIT,
    ensures
        final(t).wf(),
        final(t).last_step == now,
        if old(t).last_step != 0 && now > old(t).last_step {
            pushed(
                Telemetry { last_step: now, ..*old(t) },
                *final(t),
                ((now - old(t).last_step) * 1000) as u64,
            )
        } else {
            *final(t) == (Telemetry { last_step: now, ..*old(t) })
        },
{
    let prev: u64 = t.last_step;
    t.last_step = now;
    if prev != 0 && now > prev {
        ring_push_us(t, (now - prev) * 1000);
    }
}

/// The first columns of `acc` in place of the old ones, as many as are tracked.
pub open spec fn columns_taken(before: Seq<(u64, u64)>, acc: Seq<(u64, u64)>) -> Seq<(u64, u64)> {
    Seq::new(
        before.len(),
        |k: int|
            if k < acc.len() {
                acc[k]
            } else {
                before[k]
            },
    )
}

fn take_columns(v: &mut Vec<(u64, u64)>, acc: &[(u64, u64)])
    ensures
        final(v)@ == columns_taken(old(v)@, acc@),
{
    let ghost before = v@;
    let mut k: usize = 0;
    while k < v.len() && k < acc.len()
        invariant
            k <= v@.len(),
            k <= acc@.len(),
            v@.len() == before.len(),
            forall|i: int| 0 <= i < k ==> #[trigger] v@[i] == acc@[i],
            forall|i: int| k <= i < before.len() ==> #[trigger] v@[i] == before[i],
        decreases v@.len() - k,
    {
        v.set(k, acc[k]);
        k += 1;
    }
    assert(v@ =~= columns_taken(before, acc@));
}

/// Publishes the counts of the draft head.
pub fn publish_mtp(
    t: &mut Telemetry,
    now: u64,
    steps: u64,
    drafts: u64,
    accepted: u64,
    emitted: u64,
    verify: u64,
    depth: usize,
    acc: &[(u64, u64)],
)
    requires
        old(t).wf(),
    ensures
        final(t).wf(),
        final(t).mtp_acc@ == columns_taken(old(t).mtp_acc@, acc@),
        *final(t) == (Telemetry {
            mtp: ChainWindow { steps, drafts, accepted, emitted },
            mtp_verify: verify,
            mtp_depth: depth as u64,
            mtp_acc: final(t).mtp_acc,
            mode: Mode::Mtp,
            updated_ms: now,
            ..*old(t)
        }),
{
    t.mtp = ChainWindow { steps, drafts, accepted, emitted };
    t.mtp_verify = verify;
    t.mtp_depth = depth as u64;
    take_columns(&mut t.mtp_acc, acc);
    t.mode = Mode::Mtp;
    t.updated_ms = now;
}

/// Publishes the counts of the selector round.
pub fn publish_df2(t: &mut Telemetry, now: u64, steps: u64, drafts: u64, accepted: u64, emitted: u64)
    ensures
        *final(t) == (Telemetry {
            df2: ChainWindow { steps, drafts, accepted, emitted },
            mode: Mode::DFlash2,
            updated_ms: now,
            ..*old(t)
        }),
{
    t.df2 = ChainWindow { steps, drafts, accepted, emitted };
    t.mode = Mode::DFlash2;
    t.updated_ms = now;
}

/// Publishes the counts of the selector's tree.
pub fn publish_df2_tree(t: &mut Telemetry, now: u64, steps: u64, nodes: u64, rescues: u64)
    ensures
        *final(t) == (Telemetry {
            tree: TreeWindow { steps, nodes, rescues },
            mode: Mode::DFlash2Tree,
            updated_ms: now,
            ..*old(t)
        }),
{
    t.tree = TreeWindow { steps, nodes, rescues };
    t.mode = Mode::DFlash2Tree;
    t.updated_ms = now;
}

/// Publishes the counts of the block drafter.
pub fn publish_dflash(
    t: &mut Telemetry,
    now: u64,
    steps: u64,
    drafts: u64,
    accepted: u64,
    emitted: u64,
    block: usize,
    acc: &[(u64, u64)],
)
    requires
        old(t).wf(),
    ensures
        final(t).wf(),
        final(t).dflash_acc@ == columns_taken(old(t).dflash_acc@, acc@),
        *final(t) == (Telemetry {
            dflash: ChainWindow { steps, drafts, accepted, emitted },
            dflash_block: block as u64,
            dflash_acc: final(t).dflash_acc,
            mode: Mode::DFlash,
            updated_ms: now,
            ..*old(t)
        }),
{
    t.dflash = ChainWindow { steps, drafts, accepted, emitted };
    t.dflash_block = block as u64;
    take_columns(&mut t.dflash_acc, acc);
    t.mode = Mode::DFlash;
    t.updated_ms = now;
}

/// Name of a mode.
pub open spec fn mode_text(m: Mode) -> Seq<char> {
    match m {
        Mode::Mtp => "mtp"@,
        Mode::DFlash2 => "dflash2"@,
        Mode::DFlash2Tree => "dflash2-tree"@,
        Mode::DFlash => "dflash"@,
        Mode::Idle => "none"@,
    }
}

pub fn mode_name(m: Mode) -> (r: &'static str)
    ensures
        r@ == mode_text(m),
{
    match m {
        Mode::Mtp => "mtp",
        Mode::DFlash2 => "dflash2",
        Mode::DFlash2Tree => "dflash2-tree",
        Mode::DFlash => "dflash",
        Mode::Idle => "none",
    }
}

/// The step times among `v` that are there.
pub open spec fn present(v: Seq<u32>) -> Seq<u32>
    decreases v.len(),
{
    if v.len() == 0 {
        Seq::empty()
    } else if v.last() > 0 {
        present(v.drop_last()).push(v.last())
    } else {
        present(v.drop_last())
    }
}

pub open spec fn ascending(v: Seq<u32>) -> bool {
    forall|i: int, j: int| 0 <= i < j < v.len() ==> v[i] <= v[j]
}

/// Puts `x` in its place in an ascending list.
fn insert_sorted(v: &mut Vec<u32>, x: u32)
    requires
        ascending(old(v)@),
        old(v)@.len() < usize::MAX,
    ensures
        ascending(final(v)@),
        final(v)@.len() == old(v)@.len() + 1,
        final(v)@.to_multiset() == old(v)@.to_multiset().insert(x),
{
    broadcast use vstd::seq_lib::group_to_multiset_ensures;

    let ghost before = v@;
    let mut i: usize = 0;
    while i < v.len() && v[i] <= x
        invariant
            i <= v@.len(),
            v@ == before,
            ascending(before),
            forall|k: int| 0 <= k < i ==> #[trigger] before[k] <= x,
        decreases v@.len() - i,
    {
        i += 1;
    }
    v.insert(i, x);
    assert(v@ == before.insert(i as int, x));
    proof {
        assert(v@.remove(i as int) =~= before);
        assert(before.to_multiset() == v@.to_multiset().remove(x));
        assert(v@[i as int] == x);
        assert(v@.contains(x));
        assert(v@.to_multiset() =~= before.to_multiset().insert(x));
        assert forall|a: int, b: int| 0 <= a < b < v@.len() implies v@[a] <= v@[b] by {
            let pa = if a < i {
                a
            } else {
                a - 1
            };
            let pb = if b < i {
                b
            } else {
                b - 1
            };
            if a != i && b != i {
                assert(before[pa] <= before[pb]);
            } else if a == i {
                assert(v@[b] == before[b - 1]);
                if b - 1 > i {
                    assert(before[i as int] <= before[b - 1]);
                }
            }
        }
    }
}

/// An accept rate: the draft position, how often it was accepted and how often it was offered.
#[derive(Clone, Copy, PartialEq, Eq, Structural, Debug)]
pub struct AcceptAt {
    pub k: usize,
    pub accepted: u64,
    pub offered: u64,
}

/// The draft positions among the first `n` that were offered.
pub open spec fn offered_at(acc: Seq<(u64, u64)>, n: int) -> Seq<AcceptAt>
    decreases n,
{
    if n <= 0 {
        Seq::empty()
    } else if acc[n - 1].1 > 0 {
        offered_at(acc, n - 1).push(
            AcceptAt { k: n as usize, accepted: acc[n - 1].0, offered: acc[n - 1].1 },
        )
    } else {
        offered_at(acc, n - 1)
    }
}

/// Positions that are reported: up to the depth, at least one, at most what is tracked.
pub open spec fn reported(most: int, depth: u64) -> int {
    let d = if depth == 0 {
        1
    } else {
        depth as int
    };
    if d < most {
        d
    } else {
        most
    }
}

/// What a status page shows.
pub struct Snapshot {
    pub mode: &'static str,
    /// Step times that are there, in ascending order.
    pub samples: Vec<u32>,
    pub mtp_accept_at: Vec<AcceptAt>,
    pub dflash_accept_at: Vec<AcceptAt>,
}

fn accepts(acc: &Vec<(u64, u64)>, depth: u64) -> (r: Vec<AcceptAt>)
    ensures
        r@ == offered_at(acc@, reported(acc@.len() as int, depth)),
{
    let mut r: Vec<AcceptAt> = Vec::new();
    let mut k: usize = 0;
    let n: usize = acc.len();
    while k < n && (k == 0 || (k as u64) < depth)
        invariant
            n == acc@.len(),
            k <= n,
            k <= reported(n as int, depth),
            r@ == offered_at(acc@, k as int),
        decreases n - k,
    {
        let (a, c) = acc[k];
        if c > 0 {
            r.push(AcceptAt { k: k + 1, accepted: a, offered: c });
        }
        k += 1;
    }
    assert(k == reported(n as int, depth));
    r
}

/// Takes a snapshot.
pub fn snapshot(t: &Telemetry) -> (s: Snapshot)
    requires
        t.wf(),
    ensures
        s.mode@ == mode_text(t.mode),
        ascending(s.samples@),
        s.samples@.to_multiset() == present(t.step_us@).to_multiset(),
        s.mtp_accept_at@ == offered_at(t.mtp_acc@, reported(MAXK as int, t.mtp_depth)),
        s.dflash_accept_at@ == offered_at(
            t.dflash_acc@,
            reported(MAXK_BLOCK as int, t.dflash_block),
        ),
{
    broadcast use vstd::seq_lib::group_to_multiset_ensures;

    let mut samples: Vec<u32> = Vec::new();
    let mut i: usize = 0;
    assert(samples@ =~= present(t.step_us@.take(0)));
    while i < RING
        invariant
            t.wf(),
            i <= RING,
            samples@.len() <= i,
            ascending(samples@),
            samples@.to_multiset() == present(t.step_us@.take(i as int)).to_multiset(),
        decreases RING - i,
    {
        let ghost next = t.step_us@.take(i + 1);
        assert(next.drop_last() =~= t.step_us@.take(i as int));
        let ghost seen = present(t.step_us@.take(i as int));
        if t.step_us[i] > 0 {
            let us: u32 = t.step_us[i];
            insert_sorted(&mut samples, us);
            assert(present(next) == seen.push(us));
            proof {
                seen.to_multiset_ensures();
            }
        } else {
            assert(present(next) == seen);
        }
        i += 1;
    }
    assert(t.step_us@.take(RING as int) =~= t.step_us@);
    Snapshot {
        mode: mode_name(t.mode),
        samples,
        mtp_accept_at: accepts(&t.mtp_acc, t.mtp_depth),
        dflash_accept_at: accepts(&t.dflash_acc, t.dflash_block),
    }
}


/// The samples are the steps that took some time, in their order before they are sorted.
pub proof fn law_samples_are_the_steps_that_were_taken(v: Seq<u32>)
    ensures
        present(v) == v.filter(|x: u32| x > 0),
    decreases v.len(),
{
    reveal(Seq::filter);
    if v.len() > 0 {
        law_samples_are_the_steps_that_were_taken(v.drop_last());
    }
}

/// A step takes the place of the oldest of the last 256 and of no other, and is kept as it is as far
/// as it fits.
pub proof fn law_a_step_replaces_the_oldest(before: Telemetry, after: Telemetry, us: u64, k: int)
    requires
        before.wf(),
        pushed(before, after, us),
        0 <= k < 256,
    ensures
        after.step_us@.len() == 256,
        k == before.ring_pos % 256 ==> after.step_us@[k] == if us <= 0xFFFF_FFFF {
            us as int
        } else {
            0xFFFF_FFFF
        },
        k != before.ring_pos % 256 ==> after.step_us@[k] == before.step_us@[k],
        before.ring_pos < usize::MAX ==> after.ring_pos == before.ring_pos + 1,
        after.mtp == before.mtp && after.df2 == before.df2 && after.dflash == before.dflash
            && after.mode == before.mode,
{
}

/// The columns that are published replace those before; further ones stay.
pub proof fn law_published_columns_replace_those_before(
    before: Seq<(u64, u64)>,
    acc: Seq<(u64, u64)>,
)
    ensures
        columns_taken(before, acc).len() == before.len(),
        acc.len() >= before.len() ==> columns_taken(before, acc) == acc.take(before.len() as int),
        acc.len() < before.len() ==> columns_taken(before, acc) == acc + before.skip(
            acc.len() as int,
        ),
{
    if acc.len() >= before.len() {
        assert(columns_taken(before, acc) =~= acc.take(before.len() as int));
    } else {
        assert(columns_taken(before, acc) =~= acc + before.skip(acc.len() as int));
    }
}

/// The report tells exactly the positions that were offered something, counted from one, in order.
pub proof fn law_reports_tell_the_offered_positions(acc: Seq<(u64, u64)>, n: int, k: int)
    requires
        0 <= k < n <= acc.len() <= usize::MAX,
    ensures
        acc[k].1 > 0 ==> offered_at(acc, n).contains(
            AcceptAt { k: (k + 1) as usize, accepted: acc[k].0, offered: acc[k].1 },
        ),
        forall|i: int|
            0 <= i < offered_at(acc, n).len() ==> {
                let e = #[trigger] offered_at(acc, n)[i];
                1 <= e.k <= n && e.accepted == acc[e.k - 1].0 && e.offered == acc[e.k - 1].1
                    && e.offered > 0
            },
    decreases n,
{
    let r = offered_at(acc, n);
    lemma_offered_at(acc, n);
    if acc[k].1 > 0 {
        let e = AcceptAt { k: (k + 1) as usize, accepted: acc[k].0, offered: acc[k].1 };
        if k == n - 1 {
            assert(r.last() == e);
        } else {
            law_reports_tell_the_offered_positions(acc, n - 1, k);
            let prior = offered_at(acc, n - 1);
            let i = choose|i: int| 0 <= i < prior.len() && prior[i] == e;
            assert(r[i] == e);
        }
    }
}

proof fn lemma_offered_at(acc: Seq<(u64, u64)>, n: int)
    requires
        0 <= n <= acc.len() <= usize::MAX,
    ensures
        forall|i: int|
            0 <= i < offered_at(acc, n).len() ==> {
                let e = #[trigger] offered_at(acc, n)[i];
                1 <= e.k <= n && e.accepted == acc[e.k - 1].0 && e.offered == acc[e.k - 1].1
                    && e.offered > 0
            },
    decreases n,
{
    if n > 0 {
        lemma_offered_at(acc, n - 1);
        let prior = offered_at(acc, n - 1);
        let r = offered_at(acc, n);
        assert forall|i: int| 0 <= i < r.len() implies ({
            let e = #[trigger] r[i];
            1 <= e.k <= n && e.accepted == acc[e.k - 1].0 && e.offered == acc[e.k - 1].1 && e.offered
                > 0
        }) by {
            if i < prior.len() {
                assert(r[i] == prior[i]);
            }
        }
    }
}

/// As many positions are reported as the depth says, at least one and at most as many as there are.
pub proof fn law_reports_go_as_deep_as_the_drafts(most: int, depth: u64)
    requires
        0 < most,
    ensures
        1 <= reported(most, depth) <= most,
        1 <= depth <= most ==> reported(most, depth) == depth,
{
}

} // verus!
