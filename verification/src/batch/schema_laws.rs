//! What holds of answers under a schema.

use vstd::prelude::*;

use crate::batch::commit;
use crate::batch::commit::MaskChain;
use crate::batch::lane;
use crate::batch::lane_steps;
use crate::json_schema::bits;
use crate::json_schema::grammar;
use crate::json_schema::laws;
use crate::json_schema::machine;
use crate::json_schema::machine::FrameView;
use crate::json_schema::mask;
use crate::json_schema::mask::SchemaMask;
use crate::json_schema::schema::SchemaView;
use crate::json_schema::vocab;
use crate::json_schema::vocab::Pieces;

verus! {

/// The text of a list of tokens.
pub open spec fn spelled(pieces: Pieces, toks: Seq<u32>) -> Seq<u8>
    decreases toks.len(),
{
    if toks.len() == 0 {
        Seq::empty()
    } else {
        spelled(pieces, toks.drop_last()) + match vocab::bytes_of(pieces, toks.last()) {
            Some(w) => w,
            None => Seq::empty(),
        }
    }
}

/// Tokens that are all taken lead where their text leads.
proof fn lemma_reached_is_run(
    t: Seq<SchemaView>,
    pieces: Pieces,
    stack: Seq<FrameView>,
    toks: Seq<u32>,
)
    requires
        lane::reached(t, pieces, stack, toks) is Some,
    ensures
        machine::run(t, stack, spelled(pieces, toks)) == lane::reached(t, pieces, stack, toks),
    decreases toks.len(),
{
    if toks.len() > 0 {
        let head = toks.drop_last();
        lemma_reached_is_run(t, pieces, stack, head);
        let w = vocab::bytes_of(pieces, toks.last())->0;
        laws::law_tokens_compose(t, stack, spelled(pieces, head), w);
    }
}

/// A token of a mask leads somewhere.
proof fn lemma_masked_token_is_taken(
    t: Seq<SchemaView>,
    pieces: Pieces,
    stack: Seq<FrameView>,
    set: Seq<u32>,
    tok: u32,
)
    requires
        laws::one_spelling(pieces, tok),
        mask::is_mask(set, t, stack, pieces),
        bits::bit(set, tok as int),
    ensures
        lane::token_target(t, pieces, stack, tok) is Some,
{
    assert(mask::may_follow(t, stack, pieces, tok as int));
    let w = choose|w: Seq<u8>|
        (#[trigger] vocab::token_of(pieces, w) matches Some(x) && x == tok) && machine::run(
            t,
            stack,
            w,
        ) is Some;
    assert(vocab::token_of(pieces, w) == Some(tok));
    assert(vocab::bytes_of(pieces, tok) == Some(w));
}

/// What a masked step offers is admissible to the last token: the drafts that stand, and the
/// target's choice behind them, which the mask of its column holds.
pub proof fn law_masked_step_is_admissible(
    before: SchemaMask,
    after: SchemaMask,
    state: u32,
    drafts: Seq<u32>,
    words: int,
    chain: MaskChain,
    preds: Seq<u32>,
    n: int,
)
    requires
        laws::one_spelling(before.pieces(), preds[n]),
        commit::masks_columns(before, after, state, drafts, words, chain),
        lane_steps::stand_drafts(drafts, preds, Some(chain.valid), n),
        bits::bit(chain.masks@[n]@, preds[n] as int),
    ensures
        lane::reached(
            before.table(),
            before.pieces(),
            before.states()[state as int],
            commit::offered(drafts, n, preds[n]),
        ) is Some,
{
    let t = before.table();
    let pieces = before.pieces();
    let stack = before.states()[state as int];
    let list = commit::offered(drafts, n, preds[n]);
    assert(list.drop_last() =~= drafts.take(n));
    assert(commit::column_masked(before, state, drafts, n, chain.masks@[n]@));
    let s = lane::reached(t, pieces, stack, drafts.take(n))->0;
    lemma_masked_token_is_taken(t, pieces, s, chain.masks@[n]@, preds[n]);
}

/// Where the tokens of an answer are all taken, the answer counts as complete exactly where its
/// text is a document of the schema.
pub proof fn law_complete_answers_are_documents(m: SchemaMask, toks: Seq<u32>)
    requires
        m.wf(),
        lane::reached(m.table(), m.pieces(), m.states()[m.start_id() as int], toks) is Some,
    ensures
        machine::complete(
            m.table(),
            lane::reached(m.table(), m.pieces(), m.states()[m.start_id() as int], toks)->0,
        ) == grammar::document(m.table(), m.root_index(), spelled(m.pieces(), toks)),
{
    let stack = m.states()[m.start_id() as int];
    lemma_reached_is_run(m.table(), m.pieces(), stack, toks);
    laws::law_finished_means_document(m, spelled(m.pieces(), toks));
}

/// Two steps one behind the other are one step: a schema that has taken `a` and then takes `b` has
/// taken both.
pub proof fn law_steps_compose(
    t: Seq<SchemaView>,
    pieces: Pieces,
    stack: Seq<FrameView>,
    a: Seq<u32>,
    b: Seq<u32>,
)
    ensures
        lane::reached(t, pieces, stack, a + b) == match lane::reached(t, pieces, stack, a) {
            Some(s) => lane::reached(t, pieces, s, b),
            None => None,
        },
    decreases b.len(),
{
    if b.len() == 0 {
        assert(a + b =~= a);
    } else {
        assert((a + b).drop_last() =~= a + b.drop_last());
        law_steps_compose(t, pieces, stack, a, b.drop_last());
    }
}


/// Tokens that lead somewhere do so from their start on: what leads somewhere, leads somewhere behind
/// each of its starts.
pub proof fn law_starts_of_what_is_taken_are_taken(
    t: Seq<SchemaView>,
    pieces: Pieces,
    stack: Seq<FrameView>,
    toks: Seq<u32>,
    m: int,
)
    requires
        0 <= m <= toks.len(),
        lane::reached(t, pieces, stack, toks) is Some,
    ensures
        lane::reached(t, pieces, stack, toks.take(m)) is Some,
    decreases toks.len(),
{
    if m < toks.len() {
        law_starts_of_what_is_taken_are_taken(t, pieces, stack, toks.drop_last(), m);
        assert(toks.drop_last().take(m) =~= toks.take(m));
    } else {
        assert(toks.take(m) =~= toks);
    }
}

/// As many drafts are admitted as can be: where the mask has room for states, the first `m` drafts
/// lead somewhere exactly where `m` is at most the number that is admitted.
pub proof fn law_as_many_drafts_are_admitted_as_can_be(
    before: SchemaMask,
    after: SchemaMask,
    state: u32,
    drafts: Seq<u32>,
    words: int,
    chain: MaskChain,
    m: int,
)
    requires
        commit::masks_columns(before, after, state, drafts, words, chain),
        after.states().len() < 0x1_0000_0000,
        0 <= m <= drafts.len(),
    ensures
        (m <= chain.valid) == (lane::reached(
            before.table(),
            before.pieces(),
            before.states()[state as int],
            drafts.take(m),
        ) is Some),
{
    let (t, pieces, stack) = (before.table(), before.pieces(), before.states()[state as int]);
    if m <= chain.valid {
        assert(commit::column_masked(before, state, drafts, m, chain.masks@[m]@));
    } else if lane::reached(t, pieces, stack, drafts.take(m)) is Some {
        let n = chain.valid as int + 1;
        law_starts_of_what_is_taken_are_taken(t, pieces, stack, drafts.take(m), n);
        assert(drafts.take(m).take(n) =~= drafts.take(n));
    }
}

/// A schema moves over every token that it admits: where the mask has room for states, the first `m`
/// tokens lead somewhere exactly where `m` is at most the number that was taken, and a token that
/// was not taken ends the answer.
pub proof fn law_a_schema_moves_over_what_it_admits(
    before: SchemaMask,
    after: SchemaMask,
    state: u32,
    toks: Seq<u32>,
    r: lane::SchemaStep,
    m: int,
)
    requires
        lane::advances(before, after, state, toks, r),
        after.states().len() < 0x1_0000_0000,
        0 <= m <= toks.len(),
    ensures
        (m <= r.taken) == (lane::reached(
            before.table(),
            before.pieces(),
            before.states()[state as int],
            toks.take(m),
        ) is Some),
        r.taken < toks.len() ==> r.done,
        r.taken == toks.len() ==> r.done == machine::complete(
            before.table(),
            lane::reached(
                before.table(),
                before.pieces(),
                before.states()[state as int],
                toks,
            )->0,
        ),
{
    let (t, pieces, stack) = (before.table(), before.pieces(), before.states()[state as int]);
    let n = r.taken as int;
    if m <= n {
        law_starts_of_what_is_taken_are_taken(t, pieces, stack, toks.take(n), m);
        assert(toks.take(n).take(m) =~= toks.take(m));
    } else if lane::reached(t, pieces, stack, toks.take(m)) is Some {
        law_starts_of_what_is_taken_are_taken(t, pieces, stack, toks.take(m), n + 1);
        assert(toks.take(m).take(n + 1) =~= toks.take(n + 1));
    }
    if n == toks.len() {
        assert(toks.take(n) =~= toks);
    }
}

} // verus!
