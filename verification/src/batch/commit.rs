//! Committing a speculative step to its lane: which drafts stand, which tokens are emitted, and
//! what the lane and its slot remember of it.

use std::sync::Arc;

use vstd::arithmetic::power2::*;
use vstd::prelude::*;

use crate::batch::lane;
use crate::batch::lane::{Lane, Params, SchemaStep};
use crate::batch::rng;
use crate::batch::rng::RNG_DOM_ACCEPT;
use crate::batch::tree;
use crate::json_schema::bits;
use crate::json_schema::mask;
use crate::json_schema::mask::SchemaMask;
use crate::single;
use crate::single::{Single, SINGLE_INFINITY};

verus! {

/// Where the drafts of a step come from.
#[derive(Clone, Copy, PartialEq, Eq, Structural, Debug)]
pub enum Drafter {
    /// The model's own draft head: a chain, a tree or a pack of chains.
    Head,
    /// The selector round.
    Selector,
    /// The selector round, verified as a tree.
    SelectorTree,
    /// The block drafter with a ring.
    Spark,
    /// The block drafter with a context feature.
    Block,
}

/// What a step hands out.
pub struct Emission {
    /// Tokens for the client.
    pub tokens: Vec<u32>,
    /// Drafts that stand.
    pub accepted: usize,
    /// The lane is done.
    pub finished: bool,
}

/// Columns of a verify and the drafts that a schema admits.
pub struct MaskChain {
    /// Admissible tokens, by column.
    pub masks: Vec<Arc<Vec<u32>>>,
    /// Length of the longest admissible prefix of the drafts.
    pub valid: usize,
}

/// `set` holds the tokens that may follow the first `j` drafts, which are all admissible.
pub open spec fn column_masked(
    m: SchemaMask,
    state: u32,
    drafts: Seq<u32>,
    j: int,
    set: Seq<u32>,
) -> bool {
    lane::reached(m.table(), m.pieces(), m.states()[state as int], drafts.take(j)) matches Some(s)
        && mask::is_mask(set, m.table(), s, m.pieces())
}

/// `chain` masks the columns of `drafts`: column `j` holds what may follow the first `j` drafts,
/// as far as the drafts are admissible, and nothing behind that.
pub open spec fn masks_columns(
    before: SchemaMask,
    after: SchemaMask,
    state: u32,
    drafts: Seq<u32>,
    words: int,
    chain: MaskChain,
) -> bool {
    let t = before.table();
    let pieces = before.pieces();
    let stack = before.states()[state as int];
    &&& after.same_setup(&before)
    &&& before.states().is_prefix_of(after.states())
    &&& chain.masks@.len() == drafts.len() + 1
    &&& chain.valid <= drafts.len()
    &&& forall|j: int|
        0 <= j <= chain.valid ==> column_masked(
            before,
            state,
            drafts,
            j,
            (#[trigger] chain.masks@[j])@,
        )
    &&& chain.valid < drafts.len() ==> lane::reached(
        t,
        pieces,
        stack,
        drafts.take(chain.valid as int + 1),
    ) is None || after.states().len() >= lane::STATE_LIMIT
    &&& forall|j: int|
        chain.valid < j < chain.masks@.len() ==> (#[trigger] chain.masks@[j])@ == Seq::new(
            words as nat,
            |k: int| 0u32,
        )
}

/// Masks the columns of a verify along the drafts, from the state of the schema.
pub fn mask_chain(m: &mut SchemaMask, state: u32, drafts: &Vec<u32>, words: usize) -> (r: MaskChain)
    requires
        old(m).wf(),
        state < old(m).states().len(),
        drafts@.len() < usize::MAX,
    ensures
        final(m).wf(),
        masks_columns(*old(m), *final(m), state, drafts@, words as int, r),
{
    let ghost m0 = *m;
    let ghost t = m.table();
    let ghost pieces = m.pieces();
    let ghost stack = m.states()[state as int];
    let mut at: u32 = state;
    let mut masks: Vec<Arc<Vec<u32>>> = Vec::new();
    let mut valid: usize = 0;
    let mut broken = false;
    while !broken
        invariant
            m0 == *old(m),
            m.wf(),
            m.same_setup(&m0),
            t == m0.table(),
            pieces == m0.pieces(),
            state < m0.states().len(),
            stack == m0.states()[state as int],
            m0.states().is_prefix_of(m.states()),
            at < m.states().len(),
            drafts@.len() < usize::MAX,
            valid <= drafts@.len(),
            masks@.len() == if broken {
                valid + 1
            } else {
                valid as int
            },
            lane::reached(t, pieces, stack, drafts@.take(valid as int)) == Some(
                m.states()[at as int],
            ),
            forall|j: int|
                0 <= j < masks@.len() ==> column_masked(
                    m0,
                    state,
                    drafts@,
                    j,
                    (#[trigger] masks@[j])@,
                ),
            broken && valid < drafts@.len() ==> lane::reached(
                t,
                pieces,
                stack,
                drafts@.take(valid as int + 1),
            ) is None || m.states().len() >= lane::STATE_LIMIT,
        decreases
                drafts@.len() - valid,
                if broken {
                    0int
                } else {
                    1
                },
    {
        let set = m.allowed(at);
        masks.push(set);
        if valid >= drafts.len() {
            broken = true;
        } else {
            let ghost next = drafts@.take(valid as int + 1);
            assert(next.drop_last() =~= drafts@.take(valid as int));
            assert(next.last() == drafts@[valid as int]);
            assert(lane::reached(t, pieces, stack, next) == m.target(at, drafts@[valid as int]));
            match m.step(at, drafts[valid]) {
                Some(s) => {
                    at = s;
                    valid += 1;
                },
                None => {
                    broken = true;
                },
            }
        }
    }
    let nothing = Arc::new(bits::zero_words(words));
    while masks.len() <= drafts.len()
        invariant
            valid < masks@.len() <= drafts@.len() + 1,
            drafts@.len() < usize::MAX,
            forall|j: int|
                0 <= j <= valid ==> column_masked(
                    m0,
                    state,
                    drafts@,
                    j,
                    (#[trigger] masks@[j])@,
                ),
            nothing@ == Seq::new(words as nat, |k: int| 0u32),
            forall|j: int|
                valid < j < masks@.len() ==> (#[trigger] masks@[j])@ == Seq::new(
                    words as nat,
                    |k: int| 0u32,
                ),
        decreases drafts@.len() + 1 - masks@.len(),
    {
        masks.push(mask::share(&nothing));
    }
    MaskChain { masks, valid }
}

/// The tokens that a slot has consumed after a step: the committed token and the drafts that stand.
pub open spec fn consumed(cache: Seq<u32>, committed: u32, drafts: Seq<u32>, n: int) -> Seq<u32> {
    cache.push(committed) + drafts.take(n)
}

/// What a step leaves alone.
pub open spec fn same_request(a: Lane, b: Lane) -> bool {
    &&& a.params == b.params
    &&& a.phys == b.phys
    &&& a.mtp_primed == b.mtp_primed
    &&& a.mtp_stale == b.mtp_stale
    &&& a.df2_primed == b.df2_primed
    &&& a.tp_cancelled == b.tp_cancelled
}

/// The lane behind a step that committed `n` drafts and emitted `tokens`. A lane that goes on
/// stands behind the last draft that was committed, with the last emitted token to be fed; one
/// that is done stands behind what it emitted. The tree of the selector round leaves a finished
/// lane where it was and gives up its ring.
pub open spec fn stands(
    before: Lane,
    after: Lane,
    drafter: Drafter,
    n: int,
    tokens: Seq<u32>,
    finished: bool,
) -> bool {
    let parked = finished && drafter is SelectorTree;
    &&& after.generated == before.generated + tokens.len()
    &&& after.history@ == lane::all_remembered(before.history@, tokens)
    &&& after.df2_stale == (before.df2_stale || parked)
    &&& after.pos == if parked {
        before.pos as int
    } else if finished {
        before.pos + tokens.len()
    } else {
        before.pos + n + 1
    }
    &&& after.last_tok == if parked || tokens.len() == 0 {
        before.last_tok
    } else {
        tokens.last()
    }
    &&& after.mtp_pos == if !finished && (drafter is Head || drafter is SelectorTree) {
        before.pos + n
    } else {
        before.mtp_pos as int
    }
}

/// Room for one more step: no counter of the lane overflows.
pub open spec fn room(l: Lane, cache: Seq<u32>, drafts: Seq<u32>) -> bool {
    &&& l.pos + drafts.len() + 1 <= usize::MAX
    &&& l.generated + drafts.len() + 1 <= usize::MAX
    &&& cache.len() + drafts.len() + 1 <= usize::MAX
    &&& l.history@.len() <= lane::HISTORY_MAX
}

fn consume(cache: &mut Vec<u32>, committed: u32, drafts: &Vec<u32>, n: usize)
    requires
        n <= drafts@.len(),
        old(cache)@.len() + n + 1 <= usize::MAX,
    ensures
        final(cache)@ == consumed(old(cache)@, committed, drafts@, n as int),
{
    cache.push(committed);
    let ghost base = cache@;
    let mut k: usize = 0;
    while k < n
        invariant
            k <= n <= drafts@.len(),
            cache@ == base + drafts@.take(k as int),
        decreases n - k,
    {
        cache.push(drafts[k]);
        k += 1;
        assert(cache@ =~= base + drafts@.take(k as int));
    }
    assert(cache@ =~= base + drafts@.take(n as int));
}

/// Moves a lane behind a step.
fn stand(l: &mut Lane, drafter: Drafter, n: usize, tokens: &Vec<u32>, finished: bool)
    requires
        old(l).pos + n + 1 <= usize::MAX,
        old(l).pos + tokens@.len() <= usize::MAX,
        old(l).generated + tokens@.len() <= usize::MAX,
        old(l).history@.len() <= lane::HISTORY_MAX,
    ensures
        same_request(*final(l), *old(l)),
        final(l).history@.len() <= lane::HISTORY_MAX,
        final(l).schema == old(l).schema,
        final(l).schema_state == old(l).schema_state,
        final(l).seed == old(l).seed,
        stands(*old(l), *final(l), drafter, n as int, tokens@, finished),
{
    lane::remember_all(&mut l.history, tokens);
    l.generated = l.generated + tokens.len();
    let main_pos: usize = l.pos;
    let tree = match drafter {
        Drafter::SelectorTree => true,
        _ => false,
    };
    let head = match drafter {
        Drafter::Head => true,
        _ => false,
    };
    if finished && tree {
        l.df2_stale = true;
        return;
    }
    if tokens.len() > 0 {
        l.last_tok = tokens[tokens.len() - 1];
    }
    if finished {
        l.pos = main_pos + tokens.len();
    } else {
        l.pos = main_pos + n + 1;
        if head || tree {
            l.mtp_pos = main_pos + n;
        }
    }
}

/// The drafts that stand, and the target's own next token.
pub open spec fn offered(drafts: Seq<u32>, n: int, bonus: u32) -> Seq<u32> {
    drafts.take(n).push(bonus)
}

/// A greedy step: `n` drafts stand and the target's choice behind them is `bonus`. Tokens are
/// emitted up to the budget and to the end of the answer; a schema that is `masked` moves over
/// them, and a complete document ends the answer too.
pub open spec fn commits_greedy(
    before: Lane,
    after: Lane,
    eos: Seq<u32>,
    drafter: Drafter,
    drafts: Seq<u32>,
    n: int,
    bonus: u32,
    masked: bool,
    e: Emission,
) -> bool {
    let list = offered(drafts, n, bonus);
    let p = before.params;
    let count = e.tokens@.len() as int;
    &&& e.accepted == n
    &&& lane::emits(list, before.generated as int, p, eos, count)
    &&& e.tokens@ == list.take(count)
    &&& same_request(after, before)
    &&& after.seed == before.seed
    &&& stands(before, after, drafter, n, e.tokens@, e.finished)
    &&& if masked && before.schema is Some {
        &&& after.schema is Some
        &&& exists|s: SchemaStep|
            {
                &&& #[trigger] lane::advances(
                    before.schema->0,
                    after.schema->0,
                    before.schema_state,
                    e.tokens@,
                    s,
                )
                &&& after.schema_state == s.state
                &&& e.finished == (lane::over(list, before.generated as int, p, eos, count)
                    || s.done)
            }
    } else {
        &&& after.schema == before.schema
        &&& after.schema_state == before.schema_state
        &&& e.finished == lane::over(list, before.generated as int, p, eos, count)
    }
}

/// Commits a greedy step.
pub fn commit_greedy(
    l: &mut Lane,
    cache: &mut Vec<u32>,
    eos: &Vec<u32>,
    drafter: Drafter,
    drafts: &Vec<u32>,
    n: usize,
    bonus: u32,
    masked: bool,
) -> (e: Emission)
    requires
        old(l).schema_ok(),
        room(*old(l), old(cache)@, drafts@),
        n <= drafts@.len(),
    ensures
        final(l).schema_ok(),
        final(l).history@.len() <= lane::HISTORY_MAX,
        commits_greedy(*old(l), *final(l), eos@, drafter, drafts@, n as int, bonus, masked, e),
        final(cache)@ == consumed(old(cache)@, old(l).last_tok, drafts@, n as int),
{
    let ghost before = *l;
    let mut list: Vec<u32> = Vec::new();
    let mut k: usize = 0;
    while k < n
        invariant
            k <= n <= drafts@.len(),
            list@ == drafts@.take(k as int),
        decreases n - k,
    {
        list.push(drafts[k]);
        k += 1;
        assert(list@ =~= drafts@.take(k as int));
    }
    list.push(bonus);
    assert(list@ == offered(drafts@, n as int, bonus));
    let (tokens, over) = lane::emit(&list, l.generated, &l.params, eos);
    let mut finished = over;
    let ghost mut schema_step: SchemaStep = arbitrary();
    if masked {
        let mut held = l.schema.take();
        match held {
            Some(ref mut m) => {
                let step = lane::schema_advance(m, l.schema_state, &tokens);
                proof {
                    schema_step = step;
                }
                l.schema_state = step.state;
                finished = finished || step.done;
            },
            None => {},
        }
        l.schema = held;
    }
    consume(cache, l.last_tok, drafts, n);
    let ghost moved = *l;
    stand(l, drafter, n, &tokens, finished);
    let e = Emission { tokens, accepted: n, finished };
    proof {
        assert(same_request(moved, before));
        assert(stands(before, *l, drafter, n as int, e.tokens@, e.finished));
        if masked && before.schema is Some {
            assert(lane::advances(
                before.schema->0,
                l.schema->0,
                before.schema_state,
                e.tokens@,
                schema_step,
            ));
        }
    }
    e
}

/// The accept draw with index `j` lies below `ratio`.
pub open spec fn draw_below(key: u64, j: int, ratio: Single) -> bool {
    single::unit_of((rng::draw(key, RNG_DOM_ACCEPT, j as u64) >> 8) as int).lt(ratio)
}

/// `n` drafts are accepted: the draws lie below the ratios up to the first that does not.
pub open spec fn draws_accept(key: u64, ratios: Seq<Single>, count: int, n: int) -> bool {
    &&& 0 <= n <= count
    &&& forall|j: int| 0 <= j < n ==> #[trigger] draw_below(key, j, ratios[j])
    &&& (n < count ==> !draw_below(key, n, ratios[n]))
}

/// The accepted drafts, and the token behind them: the replacement of the first rejected draft, or
/// the bonus where none was rejected.
pub open spec fn resampled(drafts: Seq<u32>, resid: Seq<u32>, bonus: u32, n: int) -> Seq<u32> {
    drafts.take(n).push(
        if n < drafts.len() {
            resid[n]
        } else {
            bonus
        },
    )
}

/// Speculative rejection sampling: accepts drafts while the draw lies below the ratio of the
/// target's probability to the drafter's. Returns the tokens and the number of accepted drafts.
pub fn reject_sample(
    key: u64,
    drafts: &Vec<u32>,
    ratios: &Vec<Single>,
    resid: &Vec<u32>,
    bonus: u32,
) -> (r: (Vec<u32>, usize))
    requires
        drafts@.len() <= ratios@.len(),
        drafts@.len() <= resid@.len(),
    ensures
        draws_accept(key, ratios@, drafts@.len() as int, r.1 as int),
        r.0@ == resampled(drafts@, resid@, bonus, r.1 as int),
{
    let mut out: Vec<u32> = Vec::new();
    let mut n: usize = 0;
    while n < drafts.len()
        invariant
            n <= drafts@.len(),
            drafts@.len() <= ratios@.len(),
            drafts@.len() <= resid@.len(),
            out@ == drafts@.take(n as int),
            forall|j: int| 0 <= j < n ==> #[trigger] draw_below(key, j, ratios@[j]),
        decreases drafts@.len() - n,
    {
        let u = Single::unit(rng::rng_mantissa(key, RNG_DOM_ACCEPT, n));
        if !u.less(ratios[n]) {
            assert(!draw_below(key, n as int, ratios@[n as int]));
            out.push(resid[n]);
            return (out, n);
        }
        out.push(drafts[n]);
        n += 1;
        assert(out@ =~= drafts@.take(n as int));
    }
    out.push(bonus);
    (out, n)
}

/// A drafter that proposes a single token is as sure as can be, so the ratio is the target's
/// probability of the draft, at most one.
pub fn point_ratios(p: &Vec<Single>) -> (r: Vec<Single>)
    ensures
        r@ == p@.map_values(|x: Single| x.at_most_one()),
{
    let mut out: Vec<Single> = Vec::new();
    let mut i: usize = 0;
    while i < p.len()
        invariant
            i <= p@.len(),
            out@ == p@.take(i as int).map_values(|x: Single| x.at_most_one()),
        decreases p@.len() - i,
    {
        out.push(p[i].min_one());
        i += 1;
        assert(out@ =~= p@.take(i as int).map_values(|x: Single| x.at_most_one()));
    }
    assert(p@.take(p@.len() as int) =~= p@);
    out
}

/// A sampled step: `n` drafts were accepted and `list` is what the sampling yields.
pub open spec fn commits_sampled(
    before: Lane,
    after: Lane,
    eos: Seq<u32>,
    drafter: Drafter,
    list: Seq<u32>,
    n: int,
    e: Emission,
) -> bool {
    let p = before.params;
    let count = e.tokens@.len() as int;
    &&& e.accepted == n
    &&& lane::emits(list, before.generated as int, p, eos, count)
    &&& e.tokens@ == list.take(count)
    &&& e.finished == lane::over(list, before.generated as int, p, eos, count)
    &&& same_request(after, before)
    &&& after.schema == before.schema
    &&& after.schema_state == before.schema_state
    &&& after.seed == if drafter is Spark {
        before.seed
    } else {
        rng::mixed(before.seed)
    }
    &&& stands(before, after, drafter, n, e.tokens@, e.finished)
}

/// Commits a sampled step. The key of the draws advances once, except for the ring drafter.
pub fn commit_sampled(
    l: &mut Lane,
    cache: &mut Vec<u32>,
    eos: &Vec<u32>,
    drafter: Drafter,
    drafts: &Vec<u32>,
    list: &Vec<u32>,
    n: usize,
) -> (e: Emission)
    requires
        old(l).schema_ok(),
        room(*old(l), old(cache)@, drafts@),
        n <= drafts@.len(),
        1 <= list@.len() <= drafts@.len() + 1,
    ensures
        final(l).schema_ok(),
        final(l).history@.len() <= lane::HISTORY_MAX,
        commits_sampled(*old(l), *final(l), eos@, drafter, list@, n as int, e),
        final(cache)@ == consumed(old(cache)@, old(l).last_tok, drafts@, n as int),
{
    let (tokens, finished) = lane::emit(list, l.generated, &l.params, eos);
    consume(cache, l.last_tok, drafts, n);
    match drafter {
        Drafter::Spark => {},
        _ => {
            l.seed = rng::splitmix64(l.seed);
        },
    }
    stand(l, drafter, n, &tokens, finished);
    Emission { tokens, accepted: n, finished }
}

/// A lane that goes on has emitted everything that the step offered.
pub proof fn law_unfinished_emits_everything(
    list: Seq<u32>,
    generated: int,
    p: Params,
    eos: Seq<u32>,
    n: int,
)
    requires
        lane::emits(list, generated, p, eos, n),
        !lane::over(list, generated, p, eos, n),
    ensures
        n == list.len(),
{
}

/// A step never emits more than is left of the budget, and nothing where nothing is left.
pub proof fn law_budget_is_kept(
    list: Seq<u32>,
    generated: int,
    p: Params,
    eos: Seq<u32>,
    n: int,
)
    requires
        lane::emits(list, generated, p, eos, n),
    ensures
        generated + n <= p.max_new || n == 0,
{
    if generated + n > p.max_new && n > 0 {
        assert(!lane::stops(list, generated, p, eos, n - 1));
    }
}

/// Nothing is emitted behind a token that ends the answer.
pub proof fn law_nothing_follows_the_end(
    list: Seq<u32>,
    generated: int,
    p: Params,
    eos: Seq<u32>,
    n: int,
    k: int,
)
    requires
        lane::emits(list, generated, p, eos, n),
        0 <= k < n,
        lane::ends(eos, p, list[k], generated + k + 1),
    ensures
        k == n - 1,
{
    if k < n - 1 {
        assert(!lane::stops(list, generated, p, eos, k + 1));
    }
}

/// How much is emitted does not depend on how the tokens were offered: a chain that is served in
/// one step stops where it would stop if its tokens came one by one.
pub proof fn law_stop_rule_is_the_same_one_by_one(
    list: Seq<u32>,
    generated: int,
    p: Params,
    eos: Seq<u32>,
    n: int,
    k: int,
)
    requires
        lane::emits(list, generated, p, eos, n),
        0 <= k < n,
    ensures
        lane::emits(seq![list[k]], generated + k, p, eos, 1),
        lane::over(seq![list[k]], generated + k, p, eos, 1) ==> k == n - 1,
        k == n - 1 && n < list.len() ==> lane::over(seq![list[k]], generated + k, p, eos, 1),
{
    assert(!lane::stops(list, generated, p, eos, k));
    if k < n - 1 {
        assert(!lane::stops(list, generated, p, eos, k + 1));
    }
}


/// Each draw decides by its value: a draft is accepted exactly where its draw, a multiple of two to
/// the -24th, is below the ratio, up to the first that is not.
pub proof fn law_draws_decide_by_their_values(
    key: u64,
    ratios: Seq<Single>,
    count: int,
    n: int,
    j: int,
)
    requires
        draws_accept(key, ratios, count, n),
        0 <= j <= n,
        j < count,
        ratios[j].magnitude() < SINGLE_INFINITY,
    ensures
        (j < n) == ((rng::draw(key, RNG_DOM_ACCEPT, j as u64) >> 8) * pow2(125)
            < single::number_of(ratios[j])),
{
    let d = rng::draw(key, RNG_DOM_ACCEPT, j as u64);
    assert(d >> 8 < 0x100_0000) by (bit_vector);
    let u = single::unit_of((d >> 8) as int);
    single::law_unit_is_exact((d >> 8) as int);
    if j < n {
        assert(draw_below(key, j, ratios[j]));
    }
    if ratios[j].magnitude() < SINGLE_INFINITY {
        single::lemma_unit_is_finite((d >> 8) as int);
        single::law_singles_compare_as_numbers(u, ratios[j]);
    }
}

/// Rejection sampling yields the accepted drafts and one token more: the replacement of the draft
/// that was rejected, or the bonus where all were accepted.
pub proof fn law_sampling_yields_one_token_more(
    drafts: Seq<u32>,
    resid: Seq<u32>,
    bonus: u32,
    n: int,
)
    requires
        0 <= n <= drafts.len(),
    ensures
        resampled(drafts, resid, bonus, n).len() == n + 1,
        resampled(drafts, resid, bonus, n).take(n) == drafts.take(n),
        n < drafts.len() ==> resampled(drafts, resid, bonus, n)[n] == resid[n],
        n == drafts.len() ==> resampled(drafts, resid, bonus, n)[n] == bonus,
{
    assert(resampled(drafts, resid, bonus, n).take(n) =~= drafts.take(n));
}

/// Behind a step the lane and its slot agree: where the lane goes on, what the slot has consumed and
/// the token to be fed are what was there before and what was emitted, and the position counts what
/// was consumed. Where it is done, its position counts what was emitted.
pub proof fn law_the_lane_agrees_with_its_slot(
    before: Lane,
    after: Lane,
    drafter: Drafter,
    drafts: Seq<u32>,
    n: int,
    tokens: Seq<u32>,
    finished: bool,
    cache: Seq<u32>,
)
    requires
        stands(before, after, drafter, n, tokens, finished),
        0 <= n <= drafts.len(),
        tokens.len() > 0,
    ensures
        ({
            let now = consumed(cache, before.last_tok, drafts, n);
            &&& cache.is_prefix_of(now)
            &&& after.generated - before.generated == tokens.len()
            &&& !finished && tokens.len() == n + 1 && tokens.take(n) == drafts.take(n) ==> {
                &&& now.push(after.last_tok) == cache.push(before.last_tok) + tokens
                &&& after.pos - before.pos == now.len() - cache.len()
                &&& drafter is Head || drafter is SelectorTree ==> after.mtp_pos == after.pos - 1
            }
            &&& finished && !(drafter is SelectorTree) ==> after.pos == before.pos + tokens.len()
                && after.last_tok == tokens.last() && after.df2_stale == before.df2_stale
            &&& finished && drafter is SelectorTree ==> after.pos == before.pos && after.last_tok
                == before.last_tok && after.df2_stale
            &&& finished || drafter is Selector || drafter is Spark || drafter is Block
                ==> after.mtp_pos == before.mtp_pos
        }),
{
    let now = consumed(cache, before.last_tok, drafts, n);
    assert(cache =~= now.subrange(0, cache.len() as int));
    if !finished && tokens.len() == n + 1 && tokens.take(n) == drafts.take(n) {
        assert(tokens =~= tokens.take(n).push(tokens.last()));
        assert(now.push(after.last_tok) =~= cache.push(before.last_tok) + tokens);
    }
}


/// What a greedy step emits: a start of the drafts that stand and the target's choice behind them.
/// The answer is over exactly where the budget is used up, an end token was emitted, or a schema
/// that is masked is done. The key of the draws stays, and what was asked of the lane too.
pub proof fn law_a_greedy_step_emits_a_start_of_what_is_offered(
    before: Lane,
    after: Lane,
    eos: Seq<u32>,
    drafter: Drafter,
    drafts: Seq<u32>,
    n: int,
    bonus: u32,
    e: Emission,
)
    requires
        commits_greedy(before, after, eos, drafter, drafts, n, bonus, false, e),
        0 <= n <= drafts.len(),
    ensures
        ({
            let offered = drafts.take(n).push(bonus);
            let g = before.generated as int;
            let c = e.tokens@.len() as int;
            &&& e.tokens@.is_prefix_of(offered)
            &&& e.accepted == n
            &&& g >= before.params.max_new ==> c == 0
            &&& g < before.params.max_new ==> c > 0
            &&& e.finished <==> g + c >= before.params.max_new || (c > 0 && eos.contains(
                e.tokens@[c - 1],
            ) && !before.params.ignore_eos && g + c >= before.params.min_new)
            &&& !e.finished ==> e.tokens@ == offered
            &&& after.seed == before.seed
            &&& after.params == before.params
            &&& after.phys == before.phys
        }),
{
    let list = offered(drafts, n, bonus);
    let g = before.generated as int;
    let c = e.tokens@.len() as int;
    lane::law_emission_stops_where_the_answer_ends(list, g, before.params, eos, c, 0);
    assert(e.tokens@ =~= list.subrange(0, c));
    assert(list.take(list.len() as int) =~= list);
    if c == 0 {
        assert(lane::stops(list, g, before.params, eos, 0));
    }
}

/// A sampled step emits a start of what was sampled, and moves the key of the draws on by one step of
/// the generator, except for the ring drafter.
pub proof fn law_a_sampled_step_moves_the_key_on(
    before: Lane,
    after: Lane,
    eos: Seq<u32>,
    drafter: Drafter,
    list: Seq<u32>,
    n: int,
    e: Emission,
)
    requires
        commits_sampled(before, after, eos, drafter, list, n, e),
    ensures
        e.tokens@.is_prefix_of(list),
        drafter is Spark ==> after.seed == before.seed,
        !(drafter is Spark) ==> after.seed == rng::mixed(before.seed),
        !e.finished ==> e.tokens@ == list,
        after.schema == before.schema && after.params == before.params && after.phys == before.phys,
{
    let c = e.tokens@.len() as int;
    assert(e.tokens@ =~= list.subrange(0, c));
    assert(list.take(list.len() as int) =~= list);
}

} // verus!
