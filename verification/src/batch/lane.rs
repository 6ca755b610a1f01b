//! Lanes: requests that are being decoded.

use vstd::arithmetic::power2::*;
use vstd::prelude::*;

use crate::batch::sources::Domain;
use crate::json_schema::machine;
use crate::json_schema::machine::FrameView;
use crate::json_schema::mask::SchemaMask;
use crate::json_schema::schema::SchemaView;
use crate::json_schema::vocab;
use crate::json_schema::vocab::Pieces;
use crate::single;
use crate::single::{Single, ONE_BITS, SINGLE_INFINITY};

verus! {

/// A token streamed back to a client, or the end of its stream.
pub enum TokEvent {
    Tok(u32),
    Finish { reason: String },
}

/// What a request asks for. Nothing of it changes while the request is served.
#[derive(Clone, Copy, PartialEq, Eq, Structural, Debug)]
pub struct Params {
    /// Where the tokens go.
    pub client: u64,
    pub max_new: usize,
    pub min_new: usize,
    pub ignore_eos: bool,
    /// The temperature is as good as zero.
    pub greedy: bool,
    pub domain: Domain,
    pub temperature: Single,
    pub top_p: Single,
    pub top_k: usize,
    pub rep_penalty: Single,
    pub presence_penalty: Single,
    pub frequency_penalty: Single,
}

/// Penalties that change something: a repetition penalty above one, or another above zero.
pub open spec fn penalizes(rep: Single, presence: Single, frequency: Single) -> bool {
    (Single { bits: ONE_BITS }).lt(rep) || (Single { bits: 0 }).lt(presence) || (Single {
        bits: 0,
    }).lt(frequency)
}

/// True when one of the penalties changes something.
pub fn has_penalties(rep: Single, presence: Single, frequency: Single) -> (r: bool)
    ensures
        r == penalizes(rep, presence, frequency),
{
    let one = Single { bits: ONE_BITS };
    let zero = Single { bits: 0 };
    one.less(rep) || zero.less(presence) || zero.less(frequency)
}

/// A request that is being decoded.
pub struct Lane {
    pub params: Params,
    /// The slot that holds the state of the model.
    pub phys: usize,
    /// Tokens that the model has consumed.
    pub pos: usize,
    /// The token that is fed next.
    pub last_tok: u32,
    pub generated: usize,
    /// Recent tokens, for the penalties.
    pub history: Vec<u32>,
    pub schema: Option<SchemaMask>,
    pub schema_state: u32,
    /// Position of the last committed token in the draft head's cache.
    pub mtp_pos: usize,
    /// The draft head's cache covers the prompt.
    pub mtp_primed: bool,
    /// A token was decoded behind the draft head's back.
    pub mtp_stale: bool,
    /// The drafter's ring covers the prompt.
    pub df2_primed: bool,
    /// A token was decoded behind the drafter's back.
    pub df2_stale: bool,
    /// Key of the random draws.
    pub seed: u64,
    /// Cancelled by the head of a tensor-parallel group.
    pub tp_cancelled: bool,
}

impl Lane {
    /// The state of the schema, if there is one, is known.
    pub open spec fn schema_ok(&self) -> bool {
        self.schema matches Some(m) ==> m.wf() && self.schema_state < m.states().len()
    }

    /// The draft head may serve the lane while drafting is active: its cache has no holes, and a
    /// schema is masked by the greedy chain only.
    pub open spec fn mtp_able(&self) -> bool {
        self.mtp_primed && !self.mtp_stale && (self.schema is None || self.params.greedy)
    }

    pub fn has_penalty(&self) -> (r: bool)
        ensures
            r == penalizes(
                self.params.rep_penalty,
                self.params.presence_penalty,
                self.params.frequency_penalty,
            ),
    {
        has_penalties(
            self.params.rep_penalty,
            self.params.presence_penalty,
            self.params.frequency_penalty,
        )
    }

    /// True when the draft head serves the lane.
    pub fn use_mtp(&self, active: bool) -> (r: bool)
        ensures
            r == (active && self.mtp_able()),
    {
        active && self.mtp_primed && !self.mtp_stale && (self.schema.is_none()
            || self.params.greedy)
    }
}

/// Longest history.
pub const HISTORY_MAX: usize = 256;

/// Tokens dropped from a history that is too long.
pub const HISTORY_DROP: usize = 128;

/// History with one more token.
pub open spec fn remembered(history: Seq<u32>, t: u32) -> Seq<u32> {
    let h = history.push(t);
    if h.len() > HISTORY_MAX {
        h.skip(HISTORY_DROP as int)
    } else {
        h
    }
}

/// History with more tokens.
pub open spec fn all_remembered(history: Seq<u32>, toks: Seq<u32>) -> Seq<u32>
    decreases toks.len(),
{
    if toks.len() == 0 {
        history
    } else {
        remembered(all_remembered(history, toks.drop_last()), toks.last())
    }
}

/// Adds a token to a history.
pub fn remember(history: &mut Vec<u32>, t: u32)
    requires
        old(history)@.len() < usize::MAX,
    ensures
        final(history)@ == remembered(old(history)@, t),
{
    history.push(t);
    if history.len() > HISTORY_MAX {
        let tail = history.split_off(HISTORY_DROP);
        *history = tail;
    }
    assert(history@ =~= remembered(old(history)@, t));
}

/// Adds tokens to a history.
pub fn remember_all(history: &mut Vec<u32>, toks: &Vec<u32>)
    requires
        old(history)@.len() <= HISTORY_MAX,
    ensures
        final(history)@ == all_remembered(old(history)@, toks@),
        final(history)@.len() <= HISTORY_MAX,
{
    let ghost h0 = history@;
    let mut i: usize = 0;
    while i < toks.len()
        invariant
            i <= toks@.len(),
            history@ == all_remembered(h0, toks@.take(i as int)),
            history@.len() <= HISTORY_MAX,
        decreases toks@.len() - i,
    {
        remember(history, toks[i]);
        i += 1;
        assert(toks@.take(i as int).drop_last() =~= toks@.take(i as int - 1));
    }
    assert(toks@.take(toks@.len() as int) =~= toks@);
}

/// Token `t`, the `n`-th that was generated, ends the answer.
pub open spec fn ends(eos: Seq<u32>, p: Params, t: u32, n: int) -> bool {
    eos.contains(t) && !p.ignore_eos && n >= p.min_new
}

/// Emission may stop behind the first `n` tokens of `list`: nothing is left, the budget is used
/// up, or the last of them ends the answer.
pub open spec fn stops(list: Seq<u32>, generated: int, p: Params, eos: Seq<u32>, n: int) -> bool {
    n >= list.len() || generated + n >= p.max_new || (n > 0 && ends(
        eos,
        p,
        list[n - 1],
        generated + n,
    ))
}

/// The first `n` tokens of `list` are emitted: `n` is the first count at which emission may stop.
/// Where the budget is used up, nothing is emitted.
pub open spec fn emits(list: Seq<u32>, generated: int, p: Params, eos: Seq<u32>, n: int) -> bool {
    &&& 0 <= n <= list.len()
    &&& stops(list, generated, p, eos, n)
    &&& forall|m: int| 0 <= m < n ==> !#[trigger] stops(list, generated, p, eos, m)
}

/// The answer is over behind the first `n` tokens of `list`.
pub open spec fn over(list: Seq<u32>, generated: int, p: Params, eos: Seq<u32>, n: int) -> bool {
    generated + n >= p.max_new || (n > 0 && ends(eos, p, list[n - 1], generated + n))
}

/// True when `t` is one of the tokens.
pub fn holds(toks: &Vec<u32>, t: u32) -> (r: bool)
    ensures
        r == toks@.contains(t),
{
    let mut i: usize = 0;
    while i < toks.len()
        invariant
            i <= toks@.len(),
            forall|k: int| 0 <= k < i ==> #[trigger] toks@[k] != t,
        decreases toks@.len() - i,
    {
        if toks[i] == t {
            return true;
        }
        i += 1;
    }
    false
}

/// The emitted tokens of `list`, and whether the answer is over behind them.
pub fn emit(list: &Vec<u32>, generated: usize, p: &Params, eos: &Vec<u32>) -> (r: (
    Vec<u32>,
    bool,
))
    ensures
        emits(list@, generated as int, *p, eos@, r.0@.len() as int),
        r.0@ == list@.take(r.0@.len() as int),
        r.1 == over(list@, generated as int, *p, eos@, r.0@.len() as int),
{
    let mut out: Vec<u32> = Vec::new();
    loop
        invariant
            out@.len() <= list@.len(),
            out@ == list@.take(out@.len() as int),
            forall|m: int|
                0 <= m < out@.len() ==> !#[trigger] stops(
                    list@,
                    generated as int,
                    *p,
                    eos@,
                    m,
                ),
        decreases list@.len() - out@.len(),
    {
        let n: usize = out.len();
        let spent = generated >= p.max_new || n >= p.max_new - generated;
        let ended = n > 0 && holds(eos, list[n - 1]) && !p.ignore_eos && (n >= p.min_new
            || generated >= p.min_new - n);
        if n >= list.len() || spent || ended {
            return (out, spent || ended);
        }
        assert(!stops(list@, generated as int, *p, eos@, n as int));
        out.push(list[n]);
        assert(out@ =~= list@.take(out@.len() as int));
    }
}

/// The stack behind token `tok`, from a stack.
pub open spec fn token_target(
    t: Seq<SchemaView>,
    pieces: Pieces,
    stack: Seq<FrameView>,
    tok: u32,
) -> Option<Seq<FrameView>> {
    match vocab::bytes_of(pieces, tok) {
        None => None,
        Some(w) => if machine::dead(stack) {
            None
        } else {
            machine::run(t, stack, w)
        },
    }
}

/// The stack behind a list of tokens; `None` where one of them is refused.
pub open spec fn reached(
    t: Seq<SchemaView>,
    pieces: Pieces,
    stack: Seq<FrameView>,
    toks: Seq<u32>,
) -> Option<Seq<FrameView>>
    decreases toks.len(),
{
    if toks.len() == 0 {
        Some(stack)
    } else {
        match reached(t, pieces, stack, toks.drop_last()) {
            None => None,
            Some(s) => token_target(t, pieces, s, toks.last()),
        }
    }
}

/// Number of states that a mask can hold.
pub const STATE_LIMIT: u64 = 0x1_0000_0000;

/// Where a run of tokens leads in a schema.
pub struct SchemaStep {
    /// The state behind the tokens that were taken.
    pub state: u32,
    /// Number of tokens that were taken.
    pub taken: usize,
    /// The document is complete, or a token was refused.
    pub done: bool,
}

/// A run of tokens leads from the stack of a state to `r`: it takes the tokens up to the first one
/// that the machine refuses or whose state the mask has no room for.
pub open spec fn advances(
    before: SchemaMask,
    after: SchemaMask,
    state: u32,
    toks: Seq<u32>,
    r: SchemaStep,
) -> bool {
    let t = before.table();
    let pieces = before.pieces();
    let stack = before.states()[state as int];
    &&& after.same_setup(&before)
    &&& before.states().is_prefix_of(after.states())
    &&& r.taken <= toks.len()
    &&& r.state < after.states().len()
    &&& reached(t, pieces, stack, toks.take(r.taken as int)) == Some(
        after.states()[r.state as int],
    )
    &&& r.taken < toks.len() ==> r.done && (reached(
        t,
        pieces,
        stack,
        toks.take(r.taken as int + 1),
    ) is None || after.states().len() >= STATE_LIMIT)
    &&& r.taken == toks.len() ==> r.done == machine::complete(t, after.states()[r.state as int])
}

/// Advances a schema by tokens.
pub fn schema_advance(m: &mut SchemaMask, state: u32, toks: &Vec<u32>) -> (r: SchemaStep)
    requires
        old(m).wf(),
        state < old(m).states().len(),
    ensures
        final(m).wf(),
        advances(*old(m), *final(m), state, toks@, r),
{
    let ghost m0 = *m;
    let ghost t = m.table();
    let ghost pieces = m.pieces();
    let ghost stack = m.states()[state as int];
    let mut at: u32 = state;
    let mut i: usize = 0;
    while i < toks.len()
        invariant
            i <= toks@.len(),
            m0 == *old(m),
            m.wf(),
            m.same_setup(&m0),
            t == m0.table(),
            pieces == m0.pieces(),
            state < m0.states().len(),
            stack == m0.states()[state as int],
            m0.states().is_prefix_of(m.states()),
            at < m.states().len(),
            reached(t, pieces, stack, toks@.take(i as int)) == Some(m.states()[at as int]),
        decreases toks@.len() - i,
    {
        let ghost before = m.states();
        let ghost next = toks@.take(i as int + 1);
        assert(next.drop_last() =~= toks@.take(i as int));
        assert(next.last() == toks@[i as int]);
        assert(reached(t, pieces, stack, next) == m.target(at, toks@[i as int]));
        match m.step(at, toks[i]) {
            Some(next_state) => {
                at = next_state;
            },
            None => {
                return SchemaStep { state: at, taken: i, done: true };
            },
        }
        i += 1;
    }
    assert(toks@.take(toks@.len() as int) =~= toks@);
    SchemaStep { state: at, taken: i, done: m.is_complete(at) }
}


/// Penalties change something exactly where the repetition penalty is above one or another one is
/// above zero.
pub proof fn law_penalties_go_by_their_values(rep: Single, presence: Single, frequency: Single)
    requires
        rep.magnitude() < SINGLE_INFINITY,
        presence.magnitude() < SINGLE_INFINITY,
        frequency.magnitude() < SINGLE_INFINITY,
    ensures
        penalizes(rep, presence, frequency) == (single::number_of(rep) > pow2(149)
            || single::number_of(presence) > 0 || single::number_of(frequency) > 0),
{
    single::law_fixed_values();
    single::law_singles_compare_as_numbers(Single { bits: ONE_BITS }, rep);
    single::law_singles_compare_as_numbers(Single { bits: 0 }, presence);
    single::law_singles_compare_as_numbers(Single { bits: 0 }, frequency);
}

/// A history keeps the latest tokens in their order: it ends with what was added, forgets nothing
/// while there are at most 256, and always holds the last 129.
pub proof fn law_a_history_keeps_the_latest(history: Seq<u32>, toks: Seq<u32>)
    requires
        history.len() <= 256,
    ensures
        ({
            let all = history + toks;
            let kept = all_remembered(history, toks);
            &&& kept.len() <= 256
            &&& kept.len() <= all.len()
            &&& kept == all.skip(all.len() - kept.len())
            &&& all.len() <= 256 ==> kept == all
            &&& all.len() > 129 ==> kept.len() >= 129
        }),
    decreases toks.len(),
{
    let all = history + toks;
    if toks.len() == 0 {
        assert(all =~= history);
        assert(all.skip(0) =~= all);
    } else {
        let fewer = toks.drop_last();
        law_a_history_keeps_the_latest(history, fewer);
        let prior = all_remembered(history, fewer);
        let before = history + fewer;
        let kept = all_remembered(history, toks);
        assert(all =~= before.push(toks.last()));
        assert(kept =~= all.skip(all.len() - kept.len()));
        if all.len() <= 256 {
            assert(kept =~= all);
        }
    }
}

/// Emission stops where the answer ends and nowhere else: the budget had room before every token
/// that was emitted, none but the last of them ends the answer, and tokens are held back only where
/// the budget is used up or the last one ends the answer. A token ends the answer where it is one of
/// the end tokens, they are not ignored, and enough tokens were generated.
pub proof fn law_emission_stops_where_the_answer_ends(
    list: Seq<u32>,
    generated: int,
    p: Params,
    eos: Seq<u32>,
    n: int,
    k: int,
)
    requires
        emits(list, generated, p, eos, n),
    ensures
        0 <= k < n ==> generated + k < p.max_new,
        0 <= k < n - 1 ==> !eos.contains(list[k]) || p.ignore_eos || generated + k + 1 < p.min_new,
        n < list.len() ==> generated + n >= p.max_new || (n > 0 && eos.contains(list[n - 1])
            && !p.ignore_eos && generated + n >= p.min_new),
        over(list, generated, p, eos, n) == (generated + n >= p.max_new || (n > 0 && eos.contains(
            list[n - 1],
        ) && !p.ignore_eos && generated + n >= p.min_new)),
{
    if 0 <= k < n {
        assert(!stops(list, generated, p, eos, k));
        if k < n - 1 {
            assert(!stops(list, generated, p, eos, k + 1));
        }
    }
}

/// Only one count of tokens can be emitted.
pub proof fn law_emission_is_determined(
    list: Seq<u32>,
    generated: int,
    p: Params,
    eos: Seq<u32>,
    n: int,
    m: int,
)
    requires
        emits(list, generated, p, eos, n),
        emits(list, generated, p, eos, m),
    ensures
        n == m,
{
    if n < m {
        assert(!stops(list, generated, p, eos, n));
    } else if m < n {
        assert(!stops(list, generated, p, eos, m));
    }
}

} // verus!
