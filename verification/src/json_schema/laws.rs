//! What holds of masks as a whole.

use vstd::prelude::*;

use crate::json_schema;
use crate::json_schema::ascii;
use crate::json_schema::bits;
use crate::json_schema::compile;
use crate::json_schema::grammar;
use crate::json_schema::machine;
use crate::json_schema::machine::{FrameView, React};
use crate::json_schema::mask;
use crate::json_schema::mask::SchemaMask;
use crate::json_schema::schema::SchemaView;
use crate::json_schema::value::{Json, Members};
use crate::json_schema::vocab;
use crate::json_schema::vocab::Pieces;

verus! {

/// How a text is cut into tokens does not matter: reading `a` and then `b` is reading them as
/// one text.
pub proof fn law_tokens_compose(t: Seq<SchemaView>, stack: Seq<FrameView>, a: Seq<u8>, b: Seq<u8>)
    ensures
        machine::run(t, stack, a + b) == match machine::run(t, stack, a) {
            Some(next) => machine::run(t, next, b),
            None => None,
        },
    decreases a.len(),
{
    if a.len() == 0 {
        assert(a + b =~= b);
    } else {
        assert((a + b)[0] == a[0]);
        assert((a + b).drop_first() =~= a.drop_first() + b);
        let (next, alive) = machine::feed(t, stack, a[0]);
        if alive {
            law_tokens_compose(t, next, a.drop_first(), b);
        }
    }
}

/// A refused text stays refused, whatever follows.
pub proof fn law_refusal_is_final(t: Seq<SchemaView>, stack: Seq<FrameView>, a: Seq<u8>, b: Seq<u8>)
    requires
        machine::run(t, stack, a) is None,
    ensures
        machine::run(t, stack, a + b) is None,
{
    law_tokens_compose(t, stack, a, b);
}

/// A refused byte leaves a machine that refuses every byte.
pub proof fn law_dead_refuses_everything(t: Seq<SchemaView>, stack: Seq<FrameView>, b: u8, c: u8)
    requires
        !machine::feed(t, stack, b).1,
    ensures
        machine::dead(machine::feed(t, stack, b).0),
        !machine::feed(t, machine::feed(t, stack, b).0, c).1,
    decreases machine::feed_rank(stack),
{
    reveal(machine::react);
    let after = machine::feed(t, stack, b).0;
    if stack.len() == 0 {
        assert(after[0] is Dead);
    } else {
        let below = stack.drop_last();
        machine::lemma_react_rank(t, stack.last(), b);
        match machine::react(t, stack.last(), b) {
            React::Again => {
                law_dead_refuses_everything(t, below, b, c);
            },
            React::AgainWith(f, g) => {
                law_dead_refuses_everything(t, below.push(f).push(g), b, c);
            },
            _ => {
                assert(after[after.len() - 1] is Dead);
            },
        }
    }
}

/// A finished document stays as it is under whitespace and takes nothing else.
pub proof fn law_finished_takes_only_whitespace(t: Seq<SchemaView>, stack: Seq<FrameView>, b: u8)
    requires
        machine::at_end(stack),
    ensures
        machine::feed(t, stack, b).1 == ascii::ws(b),
        ascii::ws(b) ==> machine::feed(t, stack, b).0 == stack,
{
    reveal(machine::react);
    assert(stack.drop_last().push(FrameView::DocEnd) =~= stack);
}

/// No id occurs twice, and no two ids share the bytes of a piece.
pub open spec fn unambiguous(pieces: Pieces) -> bool {
    forall|i: int, j: int|
        0 <= i < pieces.len() && 0 <= j < pieces.len() && i != j ==> {
            &&& (#[trigger] pieces[i]).0 != (#[trigger] pieces[j]).0
            &&& (pieces[i].1 == pieces[j].1 ==> pieces[i].1.len() == 0)
        }
}

/// Bytes stand for `tok` exactly where they are its bytes: it has one spelling, and no other token
/// has taken that over.
pub open spec fn one_spelling(pieces: Pieces, tok: u32) -> bool {
    forall|w: Seq<u8>|
        (#[trigger] vocab::token_of(pieces, w) == Some(tok)) == (vocab::bytes_of(pieces, tok)
            == Some(w))
}

/// In an unambiguous vocabulary every token has one spelling.
pub proof fn law_unambiguous_vocabularies_spell_once(pieces: Pieces, tok: u32)
    requires
        unambiguous(pieces),
    ensures
        one_spelling(pieces, tok),
{
    assert forall|w: Seq<u8>|
        (#[trigger] vocab::token_of(pieces, w) == Some(tok)) == (vocab::bytes_of(pieces, tok)
            == Some(w)) by {
        lemma_unambiguous(pieces, w, tok);
    }
}

/// In an unambiguous vocabulary, bytes stand for a token exactly where they are its bytes.
proof fn lemma_unambiguous(pieces: Pieces, w: Seq<u8>, id: u32)
    requires
        unambiguous(pieces),
    ensures
        (vocab::token_of(pieces, w) == Some(id)) == (vocab::bytes_of(pieces, id) == Some(w)),
        vocab::token_of(pieces, w) matches Some(x) ==> w.len() > 0 && exists|i: int|
            0 <= i < pieces.len() && #[trigger] pieces[i] == (x, w),
        vocab::bytes_of(pieces, id) matches Some(v) ==> v.len() > 0 && exists|i: int|
            0 <= i < pieces.len() && #[trigger] pieces[i] == (id, v),
    decreases pieces.len(),
{
    if pieces.len() > 0 {
        let rest = pieces.drop_last();
        let last = pieces.last();
        let n = pieces.len() - 1;
        assert forall|i: int, j: int|
            0 <= i < rest.len() && 0 <= j < rest.len() && i != j implies {
            &&& (#[trigger] rest[i]).0 != (#[trigger] rest[j]).0
            &&& (rest[i].1 == rest[j].1 ==> rest[i].1.len() == 0)
        } by {
            assert(rest[i] == pieces[i] && rest[j] == pieces[j]);
        }
        lemma_unambiguous(rest, w, id);
        assert(pieces[n] == last);
        if vocab::token_of(rest, w) is Some {
            let x = vocab::token_of(rest, w)->0;
            let i = choose|i: int| 0 <= i < rest.len() && #[trigger] rest[i] == (x, w);
            assert(pieces[i] == rest[i]);
            assert(last.1 != w);
            assert(last.0 != x);
        }
        if vocab::bytes_of(rest, id) is Some {
            let v = vocab::bytes_of(rest, id)->0;
            let i = choose|i: int| 0 <= i < rest.len() && #[trigger] rest[i] == (id, v);
            assert(pieces[i] == rest[i]);
            assert(last.0 != id);
            assert(last.1 != v);
        }
    }
}

/// The set of allowed tokens and stepping agree: a token with one spelling may follow in a state
/// exactly where stepping by it leads somewhere.
pub proof fn law_allowed_agrees_with_step(m: SchemaMask, state: u32, tok: u32)
    requires
        one_spelling(m.pieces(), tok),
        state < m.states().len(),
    ensures
        mask::may_follow(m.table(), m.states()[state as int], m.pieces(), tok as int) == (m.target(
            state,
            tok,
        ) is Some),
{
    let stack = m.states()[state as int];
    let pieces = m.pieces();
    if mask::may_follow(m.table(), stack, pieces, tok as int) {
        let w = choose|w: Seq<u8>|
            (#[trigger] vocab::token_of(pieces, w) matches Some(x) && x == tok) && machine::run(
                m.table(),
                stack,
                w,
            ) is Some;
        assert(vocab::token_of(pieces, w) == Some(tok));
        assert(vocab::bytes_of(pieces, tok) == Some(w));
    }
    if m.target(state, tok) is Some {
        let w = vocab::bytes_of(pieces, tok)->0;
        assert(vocab::bytes_of(pieces, tok) == Some(w));
        assert(vocab::token_of(pieces, w) == Some(tok));
    }
}

/// An id in a piece lies below the size of the vocabulary.
proof fn lemma_below_size(pieces: Pieces, tok: u32)
    requires
        vocab::bytes_of(pieces, tok) is Some,
    ensures
        tok < vocab::size_of_vocab(pieces),
    decreases pieces.len(),
{
    if pieces.len() > 0 && !(pieces.last().0 == tok && pieces.last().1.len() > 0) {
        lemma_below_size(pieces.drop_last(), tok);
    }
}

/// What `allowed` and `step` give agrees in every state, known or not: the set has a bit for each id
/// up to the largest, and the bit of a token is set exactly where a step by it gives a state. The
/// token has one spelling, ids fit in the machine's sizes, and there is an id for the stack that the
/// step leads to.
pub proof fn law_allowed_and_step_give_the_same(
    m: SchemaMask,
    state: u32,
    tok: u32,
    words: Seq<u32>,
    after: Seq<Seq<FrameView>>,
    r: Option<u32>,
)
    requires
        one_spelling(m.pieces(), tok),
        vocab::size_of_vocab(m.pieces()) <= usize::MAX,
        m.target(state, tok) matches Some(stack) ==> m.has_id(stack),
        m.masked_by(state, words),
        m.stepped_by(state, tok, after, r),
    ensures
        words.len() == json_schema::words_for(vocab::size_of_vocab(m.pieces())),
        bits::bit(words, tok as int) == (r is Some),
{
    if state < m.states().len() {
        law_allowed_agrees_with_step(m, state, tok);
        if m.target(state, tok) is Some {
            lemma_below_size(m.pieces(), tok);
        }
    }
}

/// A token that is in no piece, or only in pieces without bytes, is never allowed and never
/// steps.
pub proof fn law_tokens_without_bytes_never_follow(m: SchemaMask, state: u32, tok: u32)
    requires
        state < m.states().len(),
        forall|i: int|
            0 <= i < m.pieces().len() ==> (#[trigger] m.pieces()[i]).0 != tok || m.pieces()[i].1.len()
                == 0,
    ensures
        !mask::may_follow(m.table(), m.states()[state as int], m.pieces(), tok as int),
        m.target(state, tok) is None,
{
    lemma_no_bytes(m.pieces(), tok);
}

proof fn lemma_no_bytes(pieces: Pieces, tok: u32)
    requires
        forall|i: int|
            0 <= i < pieces.len() ==> (#[trigger] pieces[i]).0 != tok || pieces[i].1.len() == 0,
    ensures
        vocab::bytes_of(pieces, tok) is None,
        forall|w: Seq<u8>| #[trigger] vocab::token_of(pieces, w) != Some(tok),
    decreases pieces.len(),
{
    if pieces.len() > 0 {
        let rest = pieces.drop_last();
        assert(pieces[pieces.len() - 1] == pieces.last());
        assert forall|i: int| 0 <= i < rest.len() implies (#[trigger] rest[i]).0 != tok
            || rest[i].1.len() == 0 by {
            assert(rest[i] == pieces[i]);
        }
        lemma_no_bytes(rest, tok);
        assert forall|w: Seq<u8>| #[trigger] vocab::token_of(pieces, w) != Some(tok) by {
            assert(vocab::token_of(rest, w) != Some(tok));
        }
    }
}

/// Without a vocabulary the set of allowed tokens is empty.
pub proof fn law_no_vocabulary_allows_nothing(
    words: Seq<u32>,
    t: Seq<SchemaView>,
    stack: Seq<FrameView>,
)
    requires
        mask::is_mask(words, t, stack, Seq::empty()),
    ensures
        words.len() == 0,
        forall|tok: int| !bits::bit(words, tok),
{
}

/// A schema with a keyword that is not supported is refused, wherever the keyword stands among
/// the others, and before anything below it is compiled.
pub proof fn law_unknown_keyword_is_refused(
    o: Vec<(String, Json)>,
    i: int,
    depth: int,
    via: Seq<char>,
    table: Seq<SchemaView>,
)
    requires
        0 <= i < o@.len(),
        !compile::known(o@[i].0@),
    ensures
        compile::compiled(Json::Object(o), depth, via, table) is Err,
        compile::refused_at_once(Json::Object(o), depth),
{
    lemma_first_unknown(o@, 0, i);
}

proof fn lemma_first_unknown(o: Members, from: int, i: int)
    requires
        0 <= from <= i < o.len(),
        !compile::known(o[i].0@),
    ensures
        compile::first_unknown(o, from) is Some,
    decreases i - from,
{
    if from < i && compile::known(o[from].0@) {
        lemma_first_unknown(o, from + 1, i);
    }
}

/// Reading the tokens of a text one after the other reaches a finished state exactly where the
/// text is a document of the schema.
pub proof fn law_finished_means_document(m: SchemaMask, text: Seq<u8>)
    requires
        m.wf(),
    ensures
        grammar::accepts(m.table(), m.states()[m.start_id() as int], text) == grammar::document(
            m.table(),
            m.root_index(),
            text,
        ),
{
    m.lemma_setup();
    grammar::law_accepts_exactly_the_documents(m.table(), m.root_index(), text);
}

} // verus!
