//! What holds of the scheduler as a whole.

use vstd::prelude::*;

use crate::batch::commit;
use crate::batch::decode;
use crate::batch::draft::MAX_VERIFY;
use crate::batch::lane::Lane;
use crate::batch::lane_steps;
use crate::batch::policy::MAX_AUTO_DEPTH;
use crate::batch::scheduler;
use crate::batch::scheduler::{BatchScheduler, DRAFT_RESERVE};
use crate::batch::slots;
use crate::batch::tree;
use crate::batch::tree_steps;

verus! {

/// The tokens that a target generates one by one behind `ctx`, where it chooses `target(c)` behind
/// a context `c`.
pub open spec fn plainly(target: spec_fn(Seq<u32>) -> u32, ctx: Seq<u32>, k: int) -> Seq<u32>
    decreases k,
{
    if k <= 0 {
        Seq::empty()
    } else {
        let before = plainly(target, ctx, k - 1);
        before.push(target(ctx + before))
    }
}

/// A verify of a chain: column `j` holds what the target chooses behind the first `j` drafts.
pub open spec fn verifies_chain(
    target: spec_fn(Seq<u32>) -> u32,
    ctx: Seq<u32>,
    drafts: Seq<u32>,
    preds: Seq<u32>,
) -> bool {
    forall|j: int|
        0 <= j <= drafts.len() && j < preds.len() ==> #[trigger] preds[j] == target(
            ctx + drafts.take(j),
        )
}

proof fn lemma_accepted_is_plain(
    target: spec_fn(Seq<u32>) -> u32,
    ctx: Seq<u32>,
    drafts: Seq<u32>,
    preds: Seq<u32>,
    n: int,
    j: int,
)
    requires
        verifies_chain(target, ctx, drafts, preds),
        0 <= j <= n <= drafts.len(),
        n < preds.len(),
        forall|i: int| 0 <= i < n ==> #[trigger] preds[i] == drafts[i],
    ensures
        drafts.take(j) == plainly(target, ctx, j),
    decreases j,
{
    if j > 0 {
        lemma_accepted_is_plain(target, ctx, drafts, preds, n, j - 1);
        assert(preds[j - 1] == target(ctx + drafts.take(j - 1)));
        assert(drafts.take(j) =~= drafts.take(j - 1).push(drafts[j - 1]));
    } else {
        assert(drafts.take(0) =~= Seq::<u32>::empty());
    }
}

/// Greedy drafting changes nothing: what a step over a chain offers is what the target would have
/// generated one token at a time, whatever the drafts were and however far a schema admits them.
pub proof fn law_greedy_drafting_is_lossless(
    target: spec_fn(Seq<u32>) -> u32,
    ctx: Seq<u32>,
    drafts: Seq<u32>,
    preds: Seq<u32>,
    valid: Option<usize>,
    n: int,
)
    requires
        verifies_chain(target, ctx, drafts, preds),
        drafts.len() < preds.len(),
        valid matches Some(v) ==> v <= drafts.len(),
        lane_steps::stand_drafts(drafts, preds, valid, n),
    ensures
        commit::offered(drafts, n, preds[n]) == plainly(target, ctx, n + 1),
{
    let limit = match valid {
        Some(v) => v as int,
        None => drafts.len() as int,
    };
    let part = drafts.take(limit);
    assert forall|i: int| 0 <= i < n implies #[trigger] preds[i] == drafts[i] by {
        assert(preds[i] == part[i]);
    }
    lemma_accepted_is_plain(target, ctx, drafts, preds, n, n);
    assert(preds[n] == target(ctx + drafts.take(n)));
}

/// Steps one behind the other change nothing either: `a` tokens and then, behind them, `b` tokens
/// are the `a + b` tokens that the target generates one by one.
pub proof fn law_lossless_steps_compose(
    target: spec_fn(Seq<u32>) -> u32,
    ctx: Seq<u32>,
    a: int,
    b: int,
)
    requires
        0 <= a,
        0 <= b,
    ensures
        plainly(target, ctx, a + b) == plainly(target, ctx, a) + plainly(
            target,
            ctx + plainly(target, ctx, a),
            b,
        ),
    decreases b,
{
    let first = plainly(target, ctx, a);
    if b == 0 {
        assert(first + plainly(target, ctx + first, 0) =~= first);
    } else {
        law_lossless_steps_compose(target, ctx, a, b - 1);
        let second = plainly(target, ctx + first, b - 1);
        assert(ctx + (first + second) =~= ctx + first + second);
        assert(first + plainly(target, ctx + first, b) =~= (first + second).push(
            target(ctx + first + second),
        ));
    }
}

/// A verify of a tree: each column holds what the target chooses behind the path that ends there.
/// `behind(c)` is the context of column `c`, which grows along the tree.
pub open spec fn verifies_tree(
    target: spec_fn(Seq<u32>) -> u32,
    behind: spec_fn(int) -> Seq<u32>,
    parent: Seq<i32>,
    tokens: Seq<u32>,
    preds: Seq<u32>,
) -> bool {
    &&& forall|c: int| 0 <= c < parent.len() ==> #[trigger] preds[c] == target(behind(c))
    &&& forall|c: int|
        1 <= c < parent.len() ==> #[trigger] behind(c) == behind(parent[c] as int).push(tokens[c])
}

proof fn lemma_walk_is_plain(
    target: spec_fn(Seq<u32>) -> u32,
    behind: spec_fn(int) -> Seq<u32>,
    parent: Seq<i32>,
    tokens: Seq<u32>,
    preds: Seq<u32>,
    path: Seq<usize>,
    k: int,
)
    requires
        verifies_tree(target, behind, parent, tokens, preds),
        tree::walks(parent, tokens, preds, path),
        forall|i: int| 0 <= i < path.len() ==> #[trigger] path[i] < parent.len(),
        0 <= k < path.len(),
    ensures
        behind(path[k] as int) == behind(0) + plainly(target, behind(0), k),
    decreases k,
{
    if k > 0 {
        lemma_walk_is_plain(target, behind, parent, tokens, preds, path, k - 1);
        tree::law_accepted_drafts_are_emitted(parent, tokens, preds, path, k - 1);
        let c = path[k] as int;
        let p = path[k - 1] as int;
        assert(tree::descends(parent, tokens, preds, p) == Some(c));
        tree::lemma_first_child(parent, tokens, p, preds[p], 1);
        assert(behind(c) == behind(parent[c] as int).push(tokens[c]));
        assert(preds[p] == target(behind(p)));
        assert(behind(c) =~= behind(0) + plainly(target, behind(0), k));
    } else {
        assert(behind(path[0] as int) =~= behind(0) + plainly(target, behind(0), 0));
    }
}

/// The walk of a tree is lossless too: the choices along it are what the target would have
/// generated one token at a time.
pub proof fn law_tree_drafting_is_lossless(
    target: spec_fn(Seq<u32>) -> u32,
    behind: spec_fn(int) -> Seq<u32>,
    parent: Seq<i32>,
    tokens: Seq<u32>,
    preds: Seq<u32>,
    path: Seq<usize>,
)
    requires
        verifies_tree(target, behind, parent, tokens, preds),
        tree::walks(parent, tokens, preds, path),
        forall|i: int| 0 <= i < path.len() ==> #[trigger] path[i] < parent.len(),
    ensures
        tree_steps::choices(preds, path) == plainly(target, behind(0), path.len() as int),
{
    lemma_choices(target, behind, parent, tokens, preds, path, path.len() as int);
    assert(path.take(path.len() as int) =~= path);
}

proof fn lemma_choices(
    target: spec_fn(Seq<u32>) -> u32,
    behind: spec_fn(int) -> Seq<u32>,
    parent: Seq<i32>,
    tokens: Seq<u32>,
    preds: Seq<u32>,
    path: Seq<usize>,
    n: int,
)
    requires
        verifies_tree(target, behind, parent, tokens, preds),
        tree::walks(parent, tokens, preds, path),
        forall|i: int| 0 <= i < path.len() ==> #[trigger] path[i] < parent.len(),
        0 <= n <= path.len(),
    ensures
        tree_steps::choices(preds, path.take(n)) == plainly(target, behind(0), n),
    decreases n,
{
    if n > 0 {
        lemma_choices(target, behind, parent, tokens, preds, path, n - 1);
        lemma_walk_is_plain(target, behind, parent, tokens, preds, path, n - 1);
        let c = path[n - 1] as int;
        assert(preds[c] == target(behind(c)));
        assert(tree_steps::choices(preds, path.take(n)) =~= tree_steps::choices(
            preds,
            path.take(n - 1),
        ).push(preds[c]));
    } else {
        assert(tree_steps::choices(preds, path.take(0)) =~= Seq::<u32>::empty());
    }
}

/// A lane never writes past its cache: the columns of a verify of a drafting lane, and the token
/// of a batched step of any lane, have room.
pub proof fn law_lanes_stay_in_their_caches(s: BatchScheduler, i: int, width: int)
    requires
        s.wf(),
        0 <= i < s.lanes@.len(),
        !s.done@[i],
        0 <= width <= MAX_VERIFY,
    ensures
        s.lanes@[i].mtp_primed ==> s.lanes@[i].pos + width <= s.setup.kv_stride,
        s.lanes@[i].pos + 1 <= s.setup.kv_stride,
        MAX_AUTO_DEPTH <= DRAFT_RESERVE,
{
    assert(s.lane_ok(s.lanes@[i]));
}

/// Every slot has exactly one holder: it is free, or one lane has it, or the prefill has it.
pub proof fn law_every_slot_has_one_holder(s: BatchScheduler, x: usize)
    requires
        s.wf(),
        x < s.setup.max_batch,
    ensures
        ({
            let by_lane = exists|i: int| 0 <= i < s.lanes@.len() && (#[trigger] s.lanes@[i]).phys == x;
            let by_prefill = s.pf is Some && s.pf->0.phys == x;
            let by_none = s.free_slots@.contains(x);
            &&& by_lane || by_prefill || by_none
            &&& !(by_lane && by_prefill)
            &&& !(by_lane && by_none)
            &&& !(by_prefill && by_none)
        }),
{
    let v = scheduler::lane_slots(s.lanes@);
    assert(s.holders(x) == 1);
    slots::lemma_held_bounds(v, x);
    slots::lemma_held_bounds(s.free_slots@, x);
    if v.contains(x) {
        let i = choose|i: int| 0 <= i < v.len() && v[i] == x;
        assert(s.lanes@[i].phys == x);
    }
    if exists|i: int| 0 <= i < s.lanes@.len() && (#[trigger] s.lanes@[i]).phys == x {
        let i = choose|i: int| 0 <= i < s.lanes@.len() && (#[trigger] s.lanes@[i]).phys == x;
        assert(v[i] == x);
    }
}

/// No two lanes share a slot.
pub proof fn law_lanes_do_not_share_slots(s: BatchScheduler, i: int, j: int)
    requires
        s.wf(),
        0 <= i < s.lanes@.len(),
        0 <= j < s.lanes@.len(),
        i != j,
    ensures
        s.lanes@[i].phys != s.lanes@[j].phys,
{
    s.lemma_lane_slot(i);
}

/// What a slot remembers is what its state has consumed: as many tokens as the lane's position
/// says.
pub proof fn law_slots_remember_what_was_consumed(s: BatchScheduler, i: int)
    requires
        s.wf(),
        0 <= i < s.lanes@.len(),
        !s.done@[i],
    ensures
        s.slots.cache@[s.lanes@[i].phys as int]@.len() == s.lanes@[i].pos,
{
    assert(s.lane_ok(s.lanes@[i]));
}

/// A lane that goes on after a greedy step has consumed its committed token and the drafts that
/// stand, and will be fed the last token that it emitted.
pub proof fn law_consumed_then_fed(
    before: Lane,
    after: Lane,
    eos: Seq<u32>,
    drafter: commit::Drafter,
    drafts: Seq<u32>,
    n: int,
    bonus: u32,
    e: commit::Emission,
)
    requires
        commit::commits_greedy(before, after, eos, drafter, drafts, n, bonus, false, e),
        0 <= n <= drafts.len(),
        !e.finished,
    ensures
        e.tokens@ == drafts.take(n).push(bonus),
        after.last_tok == bonus,
        after.pos == before.pos + n + 1,
        after.generated == before.generated + n + 1,
{
    let list = commit::offered(drafts, n, bonus);
    commit::law_unfinished_emits_everything(
        list,
        before.generated as int,
        before.params,
        eos,
        e.tokens@.len() as int,
    );
    assert(list.take(list.len() as int) =~= list);
}

/// Ending a step keeps the order of the lanes that go on: none overtakes another.
pub proof fn law_lanes_keep_their_order(
    lanes: Seq<Lane>,
    ending: spec_fn(int) -> bool,
    n: int,
    a: int,
    b: int,
)
    requires
        0 <= n <= lanes.len(),
        0 <= a < b < decode::staying(lanes, ending, n).len(),
    ensures
        exists|i: int, j: int|
            0 <= i < j < n && #[trigger] lanes[i] == decode::staying(lanes, ending, n)[a]
                && #[trigger] lanes[j] == decode::staying(lanes, ending, n)[b],
    decreases n,
{
    let kept = decode::staying(lanes, ending, n);
    if n > 0 {
        let prior = decode::staying(lanes, ending, n - 1);
        if ending(n - 1) || b < prior.len() {
            law_lanes_keep_their_order(lanes, ending, n - 1, a, b);
            let (i, j) = choose|i: int, j: int|
                0 <= i < j < n - 1 && #[trigger] lanes[i] == prior[a] && #[trigger] lanes[j]
                    == prior[b];
            assert(lanes[i] == kept[a] && lanes[j] == kept[b]);
        } else {
            decode::lemma_staying(lanes, ending, n - 1, a);
            let i = choose|i: int|
                0 <= i < n - 1 && !ending(i) && #[trigger] lanes[i] == prior[a];
            assert(lanes[i] == kept[a] && lanes[n - 1] == kept[b]);
        }
    }
}

/// A lane ends with the reason that its budget is used up exactly where it is.
pub proof fn law_length_means_the_budget_is_used_up(l: Lane)
    ensures
        decode::reason(l) == "length"@ <==> l.generated >= l.params.max_new,
{
    reveal_strlit("length");
    reveal_strlit("stop");
    assert("length"@.len() == 6);
    assert("stop"@.len() == 4);
}

} // verus!
