//! Token masks of a compiled schema.
//!
//! A state is an interned machine stack, so equal stacks have the same id and the set of allowed
//! tokens is computed once per state.

use std::collections::HashMap;
use std::sync::Arc;

use vstd::prelude::*;

use crate::json_schema;
use crate::json_schema::bits;
use crate::json_schema::feed;
use crate::json_schema::machine;
use crate::json_schema::machine::{Frame, FrameView};
use crate::json_schema::roll::Roll;
use crate::json_schema::schema;
use crate::json_schema::schema::{Schema, SchemaView};
use crate::json_schema::state::Machine;
use crate::json_schema::vocab;
use crate::json_schema::vocab::{Pieces, Vocab};
use crate::json_schema::walk;
use crate::text;

verus! {

/// A compiled schema with its states, and the vocabulary it masks.
pub struct SchemaMask {
    schemas: Vec<Schema>,
    root: u32,
    start: u32,
    states: Vec<Machine>,
    /// Sets of allowed tokens that have been computed, by state.
    cache: HashMap<u32, Arc<Vec<u32>>>,
    vocab: Vocab,
    vocab_size: usize,
    words: usize,
    pieces: Ghost<Pieces>,
}

/// Token `tok` may follow in a machine whose stack is `stack`: the machine takes bytes that stand
/// for it.
pub open spec fn may_follow(
    t: Seq<SchemaView>,
    stack: Seq<FrameView>,
    pieces: Pieces,
    tok: int,
) -> bool {
    !machine::dead(stack) && exists|w: Seq<u8>|
        (#[trigger] vocab::token_of(pieces, w) matches Some(x) && x == tok) && machine::run(
            t,
            stack,
            w,
        ) is Some
}

/// `words` is the set of the tokens that may follow.
pub open spec fn is_mask(
    words: Seq<u32>,
    t: Seq<SchemaView>,
    stack: Seq<FrameView>,
    pieces: Pieces,
) -> bool {
    let size = vocab::to_usize(vocab::size_of_vocab(pieces));
    &&& words.len() == json_schema::words_for(size)
    &&& forall|tok: int| #[trigger]
        bits::bit(words, tok) == (tok < size && may_follow(t, stack, pieces, tok))
}

/// Contents of a list of states.
pub open spec fn states_view(s: Seq<Machine>) -> Seq<Seq<FrameView>> {
    Seq::new(s.len(), |i: int| s[i]@)
}

/// No two states are equal.
pub open spec fn distinct(s: Seq<Seq<FrameView>>) -> bool {
    forall|i: int, j: int| 0 <= i < s.len() && 0 <= j < s.len() && s[i] == s[j] ==> i == j
}

impl SchemaMask {
    /// The compiled schemas.
    pub closed spec fn table(&self) -> Seq<SchemaView> {
        schema::table_view(self.schemas@)
    }

    /// Index of the schema of the document.
    pub closed spec fn root_index(&self) -> u32 {
        self.root
    }

    /// The stacks of the states, by id.
    pub closed spec fn states(&self) -> Seq<Seq<FrameView>> {
        states_view(self.states@)
    }

    /// The vocabulary.
    pub closed spec fn pieces(&self) -> Pieces {
        self.pieces@
    }

    /// The id of the first state.
    pub closed spec fn start_id(&self) -> u32 {
        self.start
    }

    /// States whose set of allowed tokens is kept.
    pub closed spec fn cached(&self) -> Set<u32> {
        self.cache@.dom()
    }

    /// Number of tokens that a bitset covers.
    pub open spec fn size(&self) -> int {
        vocab::to_usize(vocab::size_of_vocab(self.pieces()))
    }

    pub closed spec fn wf(&self) -> bool {
        &&& machine::table_wf(self.table())
        &&& self.root < self.schemas@.len()
        &&& self.start < self.states@.len()
        &&& self.states@.len() <= 0x1_0000_0000
        &&& forall|i: int|
            0 <= i < self.states().len() ==> machine::stack_wf(
                #[trigger] self.states()[i],
                self.schemas@.len(),
            )
        &&& distinct(self.states())
        &&& self.states()[self.start as int] == machine::start_stack(self.root)
        &&& self.vocab.wf(self.pieces@)
        &&& self.vocab_size == self.size()
        &&& self.words == json_schema::words_for(self.size())
        &&& self.cache@.dom().finite()
        &&& forall|s: u32| #[trigger]
            self.cache@.contains_key(s) ==> s < self.states@.len() && is_mask(
                self.cache@[s]@,
                self.table(),
                self.states()[s as int],
                self.pieces@,
            )
    }

    /// The table is well formed, and the first state is the stack before a document.
    pub proof fn lemma_setup(&self)
        requires
            self.wf(),
        ensures
            machine::table_wf(self.table()),
            self.root_index() < self.table().len(),
            self.start_id() < self.states().len(),
            self.states()[self.start_id() as int] == machine::start_stack(self.root_index()),
    {
    }

    /// States with the same stack have the same id.
    pub proof fn law_equal_stacks_share_an_id(&self, i: int, j: int)
        requires
            self.wf(),
            0 <= i < self.states().len(),
            0 <= j < self.states().len(),
        ensures
            self.states()[i] == self.states()[j] <==> i == j,
    {
    }

    /// The stack that token `tok` leads to from `state`: the machine must take all its bytes.
    pub open spec fn target(&self, state: u32, tok: u32) -> Option<Seq<FrameView>> {
        match vocab::bytes_of(self.pieces(), tok) {
            None => None,
            Some(w) => if state < self.states().len() && !machine::dead(
                self.states()[state as int],
            ) {
                machine::run(self.table(), self.states()[state as int], w)
            } else {
                None
            },
        }
    }

    /// `words` is the set of the tokens that may follow in `state`; empty in an unknown state.
    pub open spec fn masked_by(&self, state: u32, words: Seq<u32>) -> bool {
        if state < self.states().len() {
            is_mask(words, self.table(), self.states()[state as int], self.pieces())
        } else {
            words.len() == json_schema::words_for(self.size()) && forall|tok: int|
                !#[trigger] bits::bit(words, tok)
        }
    }

    /// There is an id for a stack: it has one, or not all are taken.
    pub open spec fn has_id(&self, stack: Seq<FrameView>) -> bool {
        self.states().contains(stack) || self.states().len() <= u32::MAX
    }

    /// A step by token `tok` from `state` gives `r` and leaves the states `after`: the id of the
    /// stack that the token leads to, which is added where it is new.
    pub open spec fn stepped_by(
        &self,
        state: u32,
        tok: u32,
        after: Seq<Seq<FrameView>>,
        r: Option<u32>,
    ) -> bool {
        match self.target(state, tok) {
            None => r is None && after == self.states(),
            Some(stack) => if self.states().contains(stack) {
                &&& after == self.states()
                &&& r is Some
                &&& r->0 < self.states().len()
                &&& self.states()[r->0 as int] == stack
            } else if self.has_id(stack) {
                &&& after == self.states().push(stack)
                &&& r == Some(self.states().len() as u32)
            } else {
                r is None && after == self.states()
            },
        }
    }

    /// The schema and the vocabulary of `other`.
    pub open spec fn same_setup(&self, other: &SchemaMask) -> bool {
        &&& self.table() == other.table()
        &&& self.root_index() == other.root_index()
        &&& self.start_id() == other.start_id()
        &&& self.pieces() == other.pieces()
    }
}

/// The nodes below the root are those with bytes, so the walk finds the tokens of the vocabulary.
proof fn lemma_walk_root(t: Seq<SchemaView>, stack: Seq<FrameView>, v: Vocab, pieces: Pieces, tok: int)
    requires
        v.wf(pieces),
        !machine::dead(stack),
    ensures
        walk::some_under(t, stack, v.nodes@, v.paths@, 0, tok) == may_follow(t, stack, pieces, tok),
{
    let nodes = v.nodes@;
    let paths = v.paths@;
    if walk::some_under(t, stack, nodes, paths, 0, tok) {
        let n = choose|n: int| walk::token_under(t, stack, nodes, paths, 0, n, tok);
        assert(walk::between(paths, 0, n) =~= paths[n]);
        assert(vocab::token_of(pieces, paths[n]) == nodes[n].token);
    }
    if may_follow(t, stack, pieces, tok) {
        let w = choose|w: Seq<u8>|
            (#[trigger] vocab::token_of(pieces, w) matches Some(x) && x == tok) && machine::run(
                t,
                stack,
                w,
            ) is Some;
        let n = choose|n: int| vocab::leads(paths, w, n);
        assert(w.len() > 0);
        assert(paths[0] =~= paths[n].subrange(0, 0));
        assert(walk::between(paths, 0, n) =~= w);
        assert(nodes[n].token == vocab::token_of(pieces, paths[n]));
        assert(walk::token_under(t, stack, nodes, paths, 0, n, tok));
    }
}

/// Shares a set of tokens, by `Arc::clone`.
///
/// Trusted: the copy is the same set.
#[verifier::external_body]
pub(crate) fn share(a: &Arc<Vec<u32>>) -> (r: Arc<Vec<u32>>)
    ensures
        r@ == a@,
{
    a.clone()
}

impl SchemaMask {
    /// The mask of a compiled schema, before any vocabulary.
    pub(crate) fn over(schemas: Vec<Schema>, root: u32) -> (m: SchemaMask)
        requires
            machine::table_wf(schema::table_view(schemas@)),
            root < schemas.len(),
        ensures
            m.wf(),
            m.table() == schema::table_view(schemas@),
            m.root_index() == root,
            m.states() == seq![machine::start_stack(root)],
            m.start_id() == 0,
            m.pieces() == Seq::<(u32, Seq<u8>)>::empty(),
            m.cached() == Set::<u32>::empty(),
    {
        let mut stack: Vec<Frame> = Vec::new();
        stack.push(Frame::DocEnd);
        stack.push(Frame::Value { si: root });
        let first = Machine { stack };
        assert(first@ =~= machine::start_stack(root));
        let mut states: Vec<Machine> = Vec::new();
        states.push(first);
        let m = SchemaMask {
            schemas,
            root,
            start: 0,
            states,
            cache: HashMap::new(),
            vocab: Vocab::empty(),
            vocab_size: 0,
            words: 0,
            pieces: Ghost(Seq::empty()),
        };
        assert(m.states() =~= seq![machine::start_stack(root)]);
        assert(m.cached() =~= Set::<u32>::empty());
        m
    }

    /// Id of the first state.
    pub fn start_state(&self) -> (r: u32)
        ensures
            r == self.start_id(),
    {
        self.start
    }

    fn compute_allowed(&self, state: u32) -> (r: Vec<u32>)
        requires
            self.wf(),
        ensures
            state < self.states().len() ==> is_mask(
                r@,
                self.table(),
                self.states()[state as int],
                self.pieces(),
            ),
            state >= self.states().len() ==> r@.len() == json_schema::words_for(self.size()) && (
            forall|tok: int| !bits::bit(r@, tok)),
    {
        let mut out = bits::zero_words(self.words);
        if state as usize >= self.states.len() {
            return out;
        }
        let stored = &self.states[state as usize];
        assert(self.states()[state as int] == stored@);
        if stored.is_dead() {
            return out;
        }
        let mut m = stored.duplicate();
        walk::trie_walk(
            &self.schemas,
            &self.vocab.nodes,
            self.vocab_size,
            &mut m,
            0,
            &mut out,
            Ghost(self.vocab.paths@),
        );
        proof {
            assert forall|tok: int| #[trigger]
                bits::bit(out@, tok) == (tok < self.vocab_size && may_follow(
                    self.table(),
                    stored@,
                    self.pieces@,
                    tok,
                )) by {
                lemma_walk_root(self.table(), stored@, self.vocab, self.pieces@, tok);
            }
        }
        out
    }

    /// Set of the tokens that may follow in `state`, as little-endian `u32` words: bit `t` stands
    /// for token `t`. Without a vocabulary, and in a dead or unknown state, no token may follow.
    pub fn allowed(&mut self, state: u32) -> (r: Arc<Vec<u32>>)
        requires
            old(self).wf(),
        ensures
            final(self).wf(),
            final(self).same_setup(old(self)),
            final(self).states() == old(self).states(),
            old(self).masked_by(state, r@),
            final(self).cached() == if state < old(self).states().len() {
                old(self).cached().insert(state)
            } else {
                old(self).cached()
            },
    {
        broadcast use vstd::std_specs::hash::group_hash_axioms;

        if let Some(hit) = self.cache.get(&state) {
            let r = share(hit);
            assert(self.cached() =~= self.cached().insert(state));
            return r;
        }
        let words = self.compute_allowed(state);
        let set = Arc::new(words);
        if (state as usize) < self.states.len() {
            let r = share(&set);
            self.cache.insert(state, set);
            assert(self.cached() =~= old(self).cached().insert(state));
            r
        } else {
            set
        }
    }

    /// Id of the stack of `m`, which is added where it is new; `None` where every id is taken.
    fn intern(&mut self, m: Machine) -> (r: Option<u32>)
        requires
            old(self).wf(),
            machine::stack_wf(m@, old(self).table().len()),
        ensures
            final(self).wf(),
            final(self).same_setup(old(self)),
            final(self).cached() == old(self).cached(),
            if old(self).states().contains(m@) {
                &&& final(self).states() == old(self).states()
                &&& r is Some
                &&& r->0 < old(self).states().len()
                &&& old(self).states()[r->0 as int] == m@
            } else if old(self).states().len() <= u32::MAX {
                &&& final(self).states() == old(self).states().push(m@)
                &&& r == Some(old(self).states().len() as u32)
            } else {
                r is None && final(self).states() == old(self).states()
            },
    {
        let mut i: usize = 0;
        while i < self.states.len()
            invariant
                i <= self.states.len(),
                *self == *old(self),
                old(self).wf(),
                forall|k: int| 0 <= k < i ==> #[trigger] self.states()[k] != m@,
                self.states@.len() <= 0x1_0000_0000,
            decreases self.states.len() - i,
        {
            assert(self.states()[i as int] == self.states@[i as int]@);
            if self.states[i].same(&m) {
                return Some(i as u32);
            }
            i += 1;
        }
        assert(!self.states().contains(m@));
        if self.states.len() as u64 > u32::MAX as u64 {
            return None;
        }
        let id: u32 = self.states.len() as u32;
        let ghost before = self.states();
        let ghost added = m@;
        self.states.push(m);
        let ghost after = self.states();
        proof {
            assert(after =~= before.push(added));
            assert forall|k: int| 0 <= k < after.len() implies machine::stack_wf(
                #[trigger] after[k],
                self.schemas@.len(),
            ) by {
                if k < before.len() {
                    assert(after[k] == before[k]);
                }
            }
            assert(distinct(after)) by {
                assert forall|a: int, b: int|
                    0 <= a < after.len() && 0 <= b < after.len() && after[a] == after[b] implies a
                    == b by {
                    if a < before.len() && b == before.len() {
                        assert(before[a] == added);
                    }
                    if b < before.len() && a == before.len() {
                        assert(before[b] == added);
                    }
                }
            }
            assert forall|s: u32| #[trigger] self.cache@.contains_key(s) implies s
                < self.states@.len() && is_mask(
                self.cache@[s]@,
                self.table(),
                after[s as int],
                self.pieces@,
            ) by {
                assert(after[s as int] == before[s as int]);
            }
        }
        Some(id)
    }

    /// The machine after token `tok` from `state`.
    fn advance(&self, state: u32, tok: u32) -> (r: Option<Machine>)
        requires
            self.wf(),
        ensures
            match self.target(state, tok) {
                None => r is None,
                Some(stack) => r is Some && r->0@ == stack && machine::stack_wf(
                    stack,
                    self.table().len(),
                ),
            },
    {
        broadcast use vstd::std_specs::hash::group_hash_axioms;

        let ghost t = self.table();
        let bytes = match self.vocab.by_id.get(&tok) {
            Some(b) => b,
            None => {
                assert(vocab::bytes_of(self.pieces@, tok) is None);
                return None;
            },
        };
        assert(vocab::bytes_of(self.pieces@, tok) == Some(bytes@));
        if state as usize >= self.states.len() {
            return None;
        }
        let stored = &self.states[state as usize];
        assert(self.states()[state as int] == stored@);
        if stored.is_dead() {
            return None;
        }
        let ghost first = stored@;
        let mut m = stored.duplicate();
        let mut i: usize = 0;
        assert(bytes@.skip(0) =~= bytes@);
        while i < bytes.len()
            invariant
                i <= bytes.len(),
                machine::table_wf(t),
                t == schema::table_view(self.schemas@),
                machine::stack_wf(m@, self.schemas@.len()),
                self.target(state, tok) == machine::run(t, first, bytes@),
                machine::run(t, first, bytes@) == machine::run(t, m@, bytes@.skip(i as int)),
            decreases bytes.len() - i,
        {
            let mut roll = Roll::off();
            let alive = feed::feed(&self.schemas, &mut m, bytes[i], &mut roll);
            let ghost rest = bytes@.skip(i as int);
            assert(rest.drop_first() =~= bytes@.skip(i + 1));
            assert(rest[0] == bytes@[i as int]);
            if !alive {
                return None;
            }
            i += 1;
        }
        assert(bytes@.skip(bytes@.len() as int).len() == 0);
        Some(m)
    }

    /// The state after token `tok`; `None` where the token is unknown, has no bytes, or its bytes
    /// are refused in `state`.
    pub fn step(&mut self, state: u32, tok: u32) -> (r: Option<u32>)
        requires
            old(self).wf(),
        ensures
            final(self).wf(),
            final(self).same_setup(old(self)),
            final(self).cached() == old(self).cached(),
            old(self).stepped_by(state, tok, final(self).states(), r),
    {
        match self.advance(state, tok) {
            Some(m) => self.intern(m),
            None => None,
        }
    }

    /// True when the bytes read so far are a whole document. A number at the end of the document
    /// counts as ended.
    pub fn is_complete(&self, state: u32) -> (r: bool)
        requires
            self.wf(),
        ensures
            r == (state < self.states().len() && machine::complete(
                self.table(),
                self.states()[state as int],
            )),
    {
        if state as usize >= self.states.len() {
            return false;
        }
        let stored = &self.states[state as usize];
        assert(self.states()[state as int] == stored@);
        if stored.is_dead() {
            return false;
        }
        let mut m = stored.duplicate();
        if !feed::finalize_pending_number(&self.schemas, &mut m) {
            return false;
        }
        m.at_doc_end()
    }

    /// True when the state is dead or unknown.
    pub fn is_dead(&self, state: u32) -> (r: bool)
        requires
            self.wf(),
        ensures
            r == (state >= self.states().len() || machine::dead(self.states()[state as int])),
    {
        if state as usize >= self.states.len() {
            return true;
        }
        assert(self.states()[state as int] == self.states@[state as int]@);
        self.states[state as usize].is_dead()
    }

    /// Sets the bytes of the tokens. Sets of allowed tokens that were computed for the previous
    /// vocabulary are dropped.
    pub fn set_vocab(&mut self, pieces: Vec<(u32, Vec<u8>)>)
        requires
            old(self).wf(),
        ensures
            final(self).wf(),
            final(self).table() == old(self).table(),
            final(self).root_index() == old(self).root_index(),
            final(self).start_id() == old(self).start_id(),
            final(self).states() == old(self).states(),
            final(self).pieces() == vocab::pieces_view(pieces@),
            final(self).cached() == Set::<u32>::empty(),
    {
        let ghost views = vocab::pieces_view(pieces@);
        let (v, size) = Vocab::build(pieces);
        self.vocab = v;
        self.vocab_size = size;
        self.words = json_schema::vocab_words(size);
        self.cache = HashMap::new();
        self.pieces = Ghost(views);
        assert(self.cached() =~= Set::<u32>::empty());
    }

    /// Set of the tokens that end generation, for a finished document. Sized to the vocabulary,
    /// or to `stop_ids` where there is none yet; ids beyond the set are left out.
    pub fn end_mask(&self, stop_ids: &[u32]) -> (r: Arc<Vec<u32>>)
        requires
            self.wf(),
        ensures
            r@.len() == end_words(self.size(), stop_ids@),
            forall|tok: int| #[trigger]
                bits::bit(r@, tok) == (tok < 32 * end_words(self.size(), stop_ids@)
                    && exists|k: int| 0 <= k < stop_ids@.len() && #[trigger] stop_ids@[k] == tok),
    {
        let mut words: usize = self.words;
        if words == 0 {
            words = json_schema::vocab_words(span(stop_ids));
        }
        assert(words == end_words(self.size(), stop_ids@));
        let mut out = bits::zero_words(words);
        let mut i: usize = 0;
        while i < stop_ids.len()
            invariant
                i <= stop_ids.len(),
                out@.len() == words,
                forall|tok: int| #[trigger]
                    bits::bit(out@, tok) == (tok < 32 * words && exists|k: int|
                        0 <= k < i && #[trigger] stop_ids@[k] == tok),
            decreases stop_ids.len() - i,
        {
            let t: usize = stop_ids[i] as usize;
            let ghost before = out@;
            if t / 32 < words {
                bits::set_bit(&mut out, t);
            }
            i += 1;
            assert forall|tok: int| #[trigger]
                bits::bit(out@, tok) == (tok < 32 * words && exists|k: int|
                    0 <= k < i && #[trigger] stop_ids@[k] == tok) by {
                let had = exists|k: int| 0 <= k < i - 1 && #[trigger] stop_ids@[k] == tok;
                let has = exists|k: int| 0 <= k < i && #[trigger] stop_ids@[k] == tok;
                assert(has == (had || stop_ids@[i - 1] == tok));
                assert(bits::bit(before, tok) == (tok < 32 * words && had));
            }
        }
        Arc::new(out)
    }
}

/// One more than the largest id.
pub open spec fn id_span(ids: Seq<u32>) -> int
    decreases ids.len(),
{
    if ids.len() == 0 {
        0
    } else {
        let rest = id_span(ids.drop_last());
        if ids.last() + 1 > rest {
            ids.last() + 1
        } else {
            rest
        }
    }
}

/// Words of an end mask.
pub open spec fn end_words(size: int, stop_ids: Seq<u32>) -> int {
    if json_schema::words_for(size) > 0 {
        json_schema::words_for(size)
    } else {
        json_schema::words_for(vocab::to_usize(id_span(stop_ids)))
    }
}

fn span(ids: &[u32]) -> (r: usize)
    ensures
        r == vocab::to_usize(id_span(ids@)),
{
    let mut r: usize = 0;
    let mut i: usize = 0;
    assert(ids@.subrange(0, 0) =~= Seq::empty());
    while i < ids.len()
        invariant
            i <= ids.len(),
            r == vocab::to_usize(id_span(ids@.subrange(0, i as int))),
        decreases ids.len() - i,
    {
        let here: usize = (ids[i] as usize).saturating_add(1);
        assert(ids@.subrange(0, i + 1).drop_last() =~= ids@.subrange(0, i as int));
        if here > r {
            r = here;
        }
        i += 1;
    }
    assert(ids@.subrange(0, ids@.len() as int) =~= ids@);
    r
}

/// Deepest schema of a table.
pub open spec fn deepest(t: Seq<SchemaView>) -> int
    decreases t.len(),
{
    if t.len() == 0 {
        0
    } else {
        let rest = deepest(t.drop_last());
        if t.last().depth > rest {
            t.last().depth as int
        } else {
            rest
        }
    }
}

/// Number of listed `enum` values of a table, up to the largest `u64`.
pub open spec fn listed_values(t: Seq<SchemaView>) -> int
    decreases t.len(),
{
    if t.len() == 0 {
        0
    } else {
        let sum = listed_values(t.drop_last()) + t.last().enum_str.len() + t.last().enum_int.len();
        if sum > u64::MAX {
            u64::MAX as int
        } else {
            sum
        }
    }
}

pub open spec fn bool_text(b: bool) -> Seq<char> {
    if b {
        "true"@
    } else {
        "false"@
    }
}

pub fn bool_str(b: bool) -> (r: &'static str)
    ensures
        r@ == bool_text(b),
{
    if b {
        "true"
    } else {
        "false"
    }
}

/// How the vocabulary is called in a summary.
pub open spec fn vocab_text(size: int) -> Seq<char> {
    if size == 0 {
        "unset"@
    } else {
        text::decimal(size as nat) + " tokens/"@ + text::decimal(
            json_schema::words_for(size) as nat,
        ) + " words"@
    }
}

/// The summary of a mask: shape of the root schema, then sizes.
pub open spec fn summary_text(
    t: Seq<SchemaView>,
    root: u32,
    states: int,
    cached: int,
    size: int,
) -> Seq<char> {
    let r = t[root as int];
    "json_schema: root="@ + r.ty.label() + " properties="@ + text::decimal(r.props.len())
        + " required="@ + text::decimal(r.required.len()) + " additionalProperties="@ + bool_text(
        r.additional,
    ) + " items="@ + bool_text(r.items is Some) + " enum_values="@ + text::decimal(
        listed_values(t) as nat,
    ) + " schemas="@ + text::decimal(t.len()) + " max_depth="@ + text::decimal(deepest(t) as nat)
        + " states="@ + text::decimal(states as nat) + " cached_masks="@ + text::decimal(
        cached as nat,
    ) + " vocab="@ + vocab_text(size)
}

impl SchemaMask {
    fn max_depth(&self) -> (r: usize)
        ensures
            r == deepest(self.table()),
    {
        let mut r: usize = 0;
        let mut i: usize = 0;
        let ghost t = self.table();
        assert(t.subrange(0, 0) =~= Seq::empty());
        while i < self.schemas.len()
            invariant
                i <= self.schemas.len(),
                t == self.table(),
                r == deepest(t.subrange(0, i as int)),
            decreases self.schemas.len() - i,
        {
            assert(t.subrange(0, i + 1).drop_last() =~= t.subrange(0, i as int));
            assert(t.subrange(0, i + 1).last() == self.schemas@[i as int]@);
            let d: usize = self.schemas[i].depth;
            if d > r {
                r = d;
            }
            i += 1;
        }
        assert(t.subrange(0, t.len() as int) =~= t);
        r
    }

    fn enum_values(&self) -> (r: u64)
        ensures
            r == listed_values(self.table()),
    {
        let mut r: u64 = 0;
        let mut i: usize = 0;
        let ghost t = self.table();
        assert(t.subrange(0, 0) =~= Seq::empty());
        while i < self.schemas.len()
            invariant
                i <= self.schemas.len(),
                t == self.table(),
                r == listed_values(t.subrange(0, i as int)),
            decreases self.schemas.len() - i,
        {
            assert(t.subrange(0, i + 1).drop_last() =~= t.subrange(0, i as int));
            assert(t.subrange(0, i + 1).last() == self.schemas@[i as int]@);
            let s = &self.schemas[i];
            r = r.saturating_add(s.enum_str.len() as u64).saturating_add(s.enum_int.len() as u64);
            i += 1;
        }
        assert(t.subrange(0, t.len() as int) =~= t);
        r
    }

    fn vocab_str(&self) -> (r: String)
        requires
            self.wf(),
        ensures
            r@ == vocab_text(self.size()),
    {
        if self.vocab_size == 0 {
            String::from_str("unset")
        } else {
            let words = text::to_decimal(self.words as u64);
            text::to_decimal(self.vocab_size as u64).concat(" tokens/").concat(
                words.as_str(),
            ).concat(" words")
        }
    }

    /// A summary for logs.
    pub fn summary(&self) -> (r: String)
        requires
            self.wf(),
        ensures
            r@ == summary_text(
                self.table(),
                self.root_index(),
                self.states().len() as int,
                self.cached().len() as int,
                self.size(),
            ),
    {
        let root = &self.schemas[self.root as usize];
        assert(self.table()[self.root as int] == root@);
        let props = text::to_decimal(root.props.len() as u64);
        let required = text::to_decimal(root.required.len() as u64);
        let values = text::to_decimal(self.enum_values());
        let schemas = text::to_decimal(self.schemas.len() as u64);
        let depth = text::to_decimal(self.max_depth() as u64);
        let states = text::to_decimal(self.states.len() as u64);
        let cached = text::to_decimal(self.cache.len() as u64);
        let vocab = self.vocab_str();
        String::from_str("json_schema: root=").concat(root.ty.name()).concat(
            " properties=",
        ).concat(props.as_str()).concat(" required=").concat(required.as_str()).concat(
            " additionalProperties=",
        ).concat(bool_str(root.additional)).concat(" items=").concat(
            bool_str(root.items.is_some()),
        ).concat(" enum_values=").concat(values.as_str()).concat(" schemas=").concat(
            schemas.as_str(),
        ).concat(" max_depth=").concat(depth.as_str()).concat(" states=").concat(
            states.as_str(),
        ).concat(" cached_masks=").concat(cached.as_str()).concat(" vocab=").concat(vocab.as_str())
    }
}


/// The span of a list of ids is one more than the largest.
pub proof fn law_the_span_covers_every_id(ids: Seq<u32>)
    ensures
        forall|i: int| 0 <= i < ids.len() ==> #[trigger] ids[i] < id_span(ids),
        ids.len() == 0 ==> id_span(ids) == 0,
        ids.len() > 0 ==> exists|i: int|
            0 <= i < ids.len() && #[trigger] ids[i] + 1 == id_span(ids),
    decreases ids.len(),
{
    if ids.len() > 0 {
        let rest = ids.drop_last();
        law_the_span_covers_every_id(rest);
        assert forall|i: int| 0 <= i < ids.len() implies #[trigger] ids[i] < id_span(ids) by {
            if i < rest.len() {
                assert(rest[i] == ids[i]);
            }
        }
        if ids.last() + 1 > id_span(rest) {
            assert(ids[ids.len() - 1] + 1 == id_span(ids));
        } else {
            let i = choose|i: int|
                0 <= i < rest.len() && #[trigger] rest[i] + 1 == id_span(rest);
            assert(ids[i] == rest[i]);
        }
    }
}

/// The mask that ends an answer has room for every id of the vocabulary, and, where there is no
/// vocabulary, for every id that ends an answer.
pub proof fn law_an_end_mask_has_room(size: int, stop_ids: Seq<u32>, i: int)
    requires
        0 <= size,
        0 <= i < stop_ids.len(),
    ensures
        0 < size ==> size <= 32 * end_words(size, stop_ids) < size + 32,
        size == 0 && stop_ids[i] < usize::MAX ==> stop_ids[i] < 32 * end_words(size, stop_ids),
{
    law_the_span_covers_every_id(stop_ids);
}

/// The depth of a table is that of its deepest schema.
pub proof fn law_the_depth_is_that_of_the_deepest(t: Seq<SchemaView>)
    ensures
        forall|i: int| 0 <= i < t.len() ==> (#[trigger] t[i]).depth <= deepest(t),
        deepest(t) > 0 ==> exists|i: int| 0 <= i < t.len() && (#[trigger] t[i]).depth == deepest(t),
        0 <= deepest(t),
    decreases t.len(),
{
    if t.len() > 0 {
        let rest = t.drop_last();
        law_the_depth_is_that_of_the_deepest(rest);
        assert forall|i: int| 0 <= i < t.len() implies (#[trigger] t[i]).depth <= deepest(t) by {
            if i < rest.len() {
                assert(rest[i] == t[i]);
            }
        }
        if t.last().depth > deepest(rest) {
            assert(t[t.len() - 1].depth == deepest(t));
        } else if deepest(rest) > 0 {
            let i = choose|i: int|
                0 <= i < rest.len() && (#[trigger] rest[i]).depth == deepest(rest);
            assert(t[i] == rest[i]);
        }
    }
}

/// The number of listed values counts the strings and the integers of every schema, as far as a
/// counter goes.
pub proof fn law_listed_values_are_counted(t: Seq<SchemaView>, s: SchemaView)
    ensures
        listed_values(Seq::empty()) == 0,
        listed_values(t) + s.enum_str.len() + s.enum_int.len() <= u64::MAX ==> listed_values(
            t.push(s),
        ) == listed_values(t) + s.enum_str.len() + s.enum_int.len(),
        listed_values(t) <= listed_values(t.push(s)) || listed_values(t.push(s)) == u64::MAX,
        listed_values(t.push(s)) <= u64::MAX,
{
    assert(t.push(s).drop_last() =~= t);
}

} // verus!
