//! What a verify and a masked batch need from the lanes: contexts, chains, penalties and masks.

use vstd::prelude::*;

use crate::batch::decode;
use crate::batch::draft;
use crate::batch::forest::Chain;
use crate::batch::inputs;
use crate::batch::lane;
use crate::batch::lane::Lane;
use crate::batch::penalty;
use crate::batch::penalty::{LaneColumns, PenaltyKey, PenaltyTable};
use crate::batch::scheduler;
use crate::batch::scheduler::BatchScheduler;
use crate::json_schema::bits;
use crate::json_schema::mask;

verus! {

/// The penalties of a lane.
pub open spec fn key_of(l: Lane) -> PenaltyKey {
    PenaltyKey {
        rep: l.params.rep_penalty,
        presence: l.params.presence_penalty,
        frequency: l.params.frequency_penalty,
    }
}

/// The columns of a packed verify, with the penalties of their lanes.
pub open spec fn packed_columns(
    s: BatchScheduler,
    pack: Seq<usize>,
    starts: Seq<usize>,
    widths: Seq<usize>,
    cols: Seq<LaneColumns>,
) -> bool {
    &&& cols.len() == pack.len()
    &&& forall|k: int|
        0 <= k < pack.len() ==> {
            &&& (#[trigger] cols[k]).start == starts[k]
            &&& cols[k].len == widths[k]
            &&& cols[k].key == key_of(s.lanes@[pack[k] as int])
            &&& cols[k].history@ == s.lanes@[pack[k] as int].history@
        }
}

/// A row of a mask: the words of a set, as many as the row holds, the rest zero.
pub open spec fn mask_row(set: Seq<u32>, words: int) -> Seq<u32> {
    Seq::new(
        words as nat,
        |x: int|
            if x < set.len() {
                set[x]
            } else {
                0
            },
    )
}

/// Row `k` of the masks of a batch: what may follow in the lane's state, or nothing for a lane
/// without a schema, whose flag is zero.
pub open spec fn masks_row(l: Lane, words: int, row: Seq<u32>, flag: i32) -> bool {
    match l.schema {
        None => flag == 0 && row == mask_row(Seq::empty(), words),
        Some(m) => flag == 1 && exists|set: Seq<u32>|
            {
                &&& #[trigger] mask::is_mask(
                    set,
                    m.table(),
                    m.states()[l.schema_state as int],
                    m.pieces(),
                )
                &&& row == mask_row(set, words)
            },
    }
}

/// Masks of a batch, row by row, and which rows are to be masked.
pub struct DecodeMasks {
    pub words: Vec<u32>,
    pub flags: Vec<i32>,
}

/// A lane whose schema may have remembered more sets, and is otherwise the same.
pub open spec fn same_but_remembered(a: Lane, b: Lane) -> bool {
    &&& a == (Lane { schema: a.schema, ..b })
    &&& a.schema is Some <==> b.schema is Some
    &&& a.schema matches Some(m) ==> {
        &&& m.wf()
        &&& m.same_setup(&b.schema->0)
        &&& m.states() == b.schema->0.states()
    }
}

fn append_mask(words: &mut Vec<u32>, set: &Vec<u32>, n: usize)
    ensures
        final(words)@ == old(words)@ + mask_row(set@, n as int),
{
    let ghost base = words@;
    let mut x: usize = 0;
    assert(words@ =~= base + mask_row(set@, n as int).take(0));
    while x < n
        invariant
            x <= n,
            words@ == base + mask_row(set@, n as int).take(x as int),
        decreases n - x,
    {
        let ghost row = mask_row(set@, n as int);
        if x < set.len() {
            words.push(set[x]);
        } else {
            words.push(0);
        }
        x += 1;
        assert(row.take(x as int) =~= row.take(x - 1).push(row[x - 1]));
        assert(words@ =~= base + row.take(x as int));
    }
    assert(mask_row(set@, n as int).take(n as int) =~= mask_row(set@, n as int));
}

impl BatchScheduler {
    /// The context that the lookup of drafts searches: what the slot has consumed and the token
    /// that is fed next. Without a lookup it is empty.
    pub fn lookup_context(&self, i: usize) -> (v: Vec<u32>)
        requires
            self.wf(),
            i < self.lanes@.len(),
        ensures
            v@ == if self.setup.ngram_draft > 0 {
                self.slots.cache@[self.lanes@[i as int].phys as int]@.push(
                    self.lanes@[i as int].last_tok,
                )
            } else {
                Seq::empty()
            },
    {
        proof {
            self.lemma_lane_slot(i as int);
        }
        if self.setup.ngram_draft == 0 {
            let v: Vec<u32> = Vec::new();
            assert(v@ =~= Seq::<u32>::empty());
            return v;
        }
        let mut v = self.slots.cache[self.lanes[i].phys].clone();
        assert(v@ =~= self.slots.cache@[self.lanes@[i as int].phys as int]@);
        v.push(self.lanes[i].last_tok);
        v
    }

    /// The chain of lane `i` with the given drafts.
    pub fn chain(&self, i: usize, drafts: Vec<u32>) -> (c: Chain)
        requires
            i < self.lanes@.len(),
        ensures
            c.phys == self.lanes@[i as int].phys,
            c.committed == self.lanes@[i as int].last_tok,
            c.main_pos == self.lanes@[i as int].pos,
            c.drafts == drafts,
    {
        let l = &self.lanes[i];
        Chain { phys: l.phys, committed: l.last_tok, main_pos: l.pos, drafts }
    }

    /// The penalty table of lane `i`'s verify.
    pub fn lane_penalty(&mut self, i: usize, mp: usize) -> (r: Option<PenaltyTable>)
        requires
            old(self).wf(),
            i < old(self).lanes@.len(),
        ensures
            final(self).wf(),
            *final(self) == (BatchScheduler { pen_key: final(self).pen_key, ..*old(self) }),
            r is Some <==> inputs::penalized(old(self).lanes@[i as int]),
            final(self).pen_key == if inputs::penalized(old(self).lanes@[i as int]) {
                Some(key_of(old(self).lanes@[i as int]))
            } else {
                old(self).pen_key
            },
            r matches Some(t) ==> {
                let l = old(self).lanes@[i as int];
                &&& t.tokens@ == penalty::stacked(
                    |c: int| penalty::row_tokens(l.history@, mp as int),
                    draft::MAX_VERIFY as int,
                )
                &&& t.counts@ == penalty::stacked(
                    |c: int| penalty::row_counts(l.history@, mp as int),
                    draft::MAX_VERIFY as int,
                )
                &&& t.values is None <==> old(self).pen_key == Some(key_of(l))
                &&& t.values matches Some(v) ==> {
                    let n = draft::MAX_VERIFY as int;
                    &&& v.rep@ == penalty::copies(l.params.rep_penalty, n)
                    &&& v.presence@ == penalty::copies(l.params.presence_penalty, n)
                    &&& v.frequency@ == penalty::copies(l.params.frequency_penalty, n)
                }
            },
    {
        let ghost before = *self;
        assert(self.lane_known(self.lanes@[i as int]));
        let l = &self.lanes[i];
        let key = PenaltyKey {
            rep: l.params.rep_penalty,
            presence: l.params.presence_penalty,
            frequency: l.params.frequency_penalty,
        };
        let r = penalty::make_penalty(&l.history, key, mp, &mut self.pen_key);
        proof {
            before.lemma_flags_keep_wf(*self);
        }
        r
    }

    /// The penalty table of a packed verify.
    pub fn pack_penalty(
        &mut self,
        pack: &Vec<usize>,
        starts: &Vec<usize>,
        widths: &Vec<usize>,
        mp: usize,
    ) -> (r: Option<PenaltyTable>)
        requires
            old(self).wf(),
            pack@.len() <= starts@.len(),
            pack@.len() <= widths@.len(),
            forall|k: int| 0 <= k < pack@.len() ==> (#[trigger] pack@[k]) < old(self).lanes@.len(),
        ensures
            final(self).wf(),
            *final(self) == (BatchScheduler { pen_key: final(self).pen_key, ..*old(self) }),
            r is None ==> final(self).pen_key == old(self).pen_key,
            r is Some ==> final(self).pen_key is None,
            exists|cols: Seq<LaneColumns>|
                {
                    &&& #[trigger] packed_columns(*old(self), pack@, starts@, widths@, cols)
                    &&& r is Some <==> penalty::some_penalty(cols)
                    &&& r matches Some(t) ==> {
                        &&& t.tokens@ == penalty::stacked(
                            |c: int| penalty::column_tokens(cols, mp as int, c),
                            draft::MAX_VERIFY as int,
                        )
                        &&& t.counts@ == penalty::stacked(
                            |c: int| penalty::column_counts(cols, mp as int, c),
                            draft::MAX_VERIFY as int,
                        )
                        &&& t.values is Some
                        &&& t.values->0.rep@ == Seq::new(
                            draft::MAX_VERIFY as nat,
                            |c: int| penalty::column_key(cols, c).rep,
                        )
                        &&& t.values->0.presence@ == Seq::new(
                            draft::MAX_VERIFY as nat,
                            |c: int| penalty::column_key(cols, c).presence,
                        )
                        &&& t.values->0.frequency@ == Seq::new(
                            draft::MAX_VERIFY as nat,
                            |c: int| penalty::column_key(cols, c).frequency,
                        )
                    }
                },
    {
        let ghost before = *self;
        let mut cols: Vec<LaneColumns> = Vec::new();
        let mut k: usize = 0;
        while k < pack.len()
            invariant
                k <= pack@.len(),
                before == *self,
                self.wf(),
                pack@.len() <= starts@.len(),
                pack@.len() <= widths@.len(),
                forall|k: int| 0 <= k < pack@.len() ==> (#[trigger] pack@[k]) < self.lanes@.len(),
                packed_columns(*self, pack@.take(k as int), starts@, widths@, cols@),
                forall|x: int|
                    0 <= x < cols@.len() ==> (#[trigger] cols@[x]).history@.len()
                        <= lane::HISTORY_MAX,
            decreases pack@.len() - k,
        {
            let i: usize = pack[k];
            assert(self.lane_known(self.lanes@[i as int]));
            let l = &self.lanes[i];
            let key = PenaltyKey {
                rep: l.params.rep_penalty,
                presence: l.params.presence_penalty,
                frequency: l.params.frequency_penalty,
            };
            let history = l.history.clone();
            assert(history@ =~= l.history@);
            let ghost cols0 = cols@;
            cols.push(LaneColumns { start: starts[k], len: widths[k], key, history });
            proof {
                let a = pack@.take(k as int);
                let b = pack@.take(k + 1);
                assert forall|x: int| 0 <= x < b.len() implies {
                    &&& (#[trigger] cols@[x]).start == starts@[x]
                    &&& cols@[x].len == widths@[x]
                    &&& cols@[x].key == key_of(self.lanes@[b[x] as int])
                    &&& cols@[x].history@ == self.lanes@[b[x] as int].history@
                } by {
                    if x < k {
                        assert(cols@[x] == cols0[x]);
                        assert(a[x] == b[x]);
                    }
                }
            }
            k += 1;
        }
        assert(pack@.take(k as int) =~= pack@);
        let r = penalty::make_forest_penalty(&cols, mp, &mut self.pen_key);
        proof {
            before.lemma_flags_keep_wf(*self);
            assert(packed_columns(before, pack@, starts@, widths@, cols@));
        }
        r
    }

    /// The masks of a batch; none where no lane of it has a schema.
    pub fn schema_decode_masks(&mut self, batch: &Vec<usize>, words: usize) -> (r: Option<
        DecodeMasks,
    >)
        requires
            old(self).wf(),
            decode::batchable(*old(self), batch@),
        ensures
            final(self).wf(),
            *final(self) == (BatchScheduler { lanes: final(self).lanes, ..*old(self) }),
            final(self).lanes@.len() == old(self).lanes@.len(),
            forall|i: int|
                0 <= i < old(self).lanes@.len() ==> same_but_remembered(
                    #[trigger] final(self).lanes@[i],
                    old(self).lanes@[i],
                ),
            r is Some <==> inputs::some_schema(inputs::members(old(self).lanes@, batch@)),
            r matches Some(m) ==> {
                &&& m.flags@.len() == batch@.len()
                &&& exists|rows: Seq<Seq<u32>>|
                    {
                        &&& rows.len() == batch@.len()
                        &&& m.words@ == #[trigger] joined(rows)
                        &&& forall|k: int|
                            0 <= k < batch@.len() ==> masks_row(
                                old(self).lanes@[#[trigger] batch@[k] as int],
                                words as int,
                                rows[k],
                                m.flags@[k],
                            )
                    }
            },
    {
        let ghost before = *self;
        let mut any = false;
        let mut k: usize = 0;
        let ghost mem = inputs::members(before.lanes@, batch@);
        while k < batch.len()
            invariant
                k <= batch@.len(),
                before == *self,
                decode::batchable(before, batch@),
                mem == inputs::members(before.lanes@, batch@),
                any == exists|x: int| 0 <= x < k && (#[trigger] mem[x]).schema is Some,
            decreases batch@.len() - k,
        {
            assert(mem[k as int] == self.lanes@[batch@[k as int] as int]);
            if self.lanes[batch[k]].schema.is_some() {
                any = true;
            }
            k += 1;
        }
        if !any {
            proof {
                assert forall|i: int| 0 <= i < before.lanes@.len() implies same_but_remembered(
                    #[trigger] self.lanes@[i],
                    before.lanes@[i],
                ) by {
                    assert(before.lane_known(before.lanes@[i]));
                }
            }
            return None;
        }
        let mut out: Vec<u32> = Vec::new();
        let mut flags: Vec<i32> = Vec::new();
        let ghost mut rows: Seq<Seq<u32>> = Seq::empty();
        let none: Vec<u32> = Vec::new();
        assert(none@ =~= Seq::<u32>::empty());
        assert(out@ =~= joined(rows));
        proof {
            assert forall|i: int| 0 <= i < before.lanes@.len() implies same_but_remembered(
                #[trigger] self.lanes@[i],
                before.lanes@[i],
            ) by {
                assert(before.lane_known(before.lanes@[i]));
            }
        }
        k = 0;
        while k < batch.len()
            invariant
                k <= batch@.len(),
                before.wf(),
                decode::batchable(before, batch@),
                none@ == Seq::<u32>::empty(),
                *self == (BatchScheduler { lanes: self.lanes, ..before }),
                self.lanes@.len() == before.lanes@.len(),
                forall|i: int|
                    0 <= i < before.lanes@.len() ==> same_but_remembered(
                        #[trigger] self.lanes@[i],
                        before.lanes@[i],
                    ),
                flags@.len() == k,
                rows.len() == k,
                out@ == joined(rows),
                forall|x: int|
                    0 <= x < k ==> masks_row(
                        before.lanes@[#[trigger] batch@[x] as int],
                        words as int,
                        rows[x],
                        flags@[x],
                    ),
            decreases batch@.len() - k,
        {
            let i: usize = batch[k];
            let ghost prior = self.lanes@;
            let ghost rows0 = rows;
            let ghost flags0 = flags@;
            assert(same_but_remembered(self.lanes@[i as int], before.lanes@[i as int]));
            assert(before.lane_known(before.lanes@[i as int]));
            let state: u32 = self.lanes[i].schema_state;
            let ghost l0 = before.lanes@[i as int];
            let ghost out0 = out@;
            match &mut self.lanes[i].schema {
                Some(m) => {
                    let set = m.allowed(state);
                    assert(mask::is_mask(
                        set@,
                        l0.schema->0.table(),
                        l0.schema->0.states()[l0.schema_state as int],
                        l0.schema->0.pieces(),
                    ));
                    append_mask(&mut out, &set, words);
                    flags.push(1);
                    proof {
                        rows = rows.push(mask_row(set@, words as int));
                    }
                },
                None => {
                    append_mask(&mut out, &none, words);
                    flags.push(0);
                    proof {
                        rows = rows.push(mask_row(Seq::empty(), words as int));
                    }
                },
            }
            proof {
                assert(rows.drop_last() =~= rows0);
                assert(out@ == joined(rows));
                assert(masks_row(l0, words as int, rows[k as int], flags@[k as int]));
                assert forall|x: int| 0 <= x < k + 1 implies masks_row(
                    before.lanes@[#[trigger] batch@[x] as int],
                    words as int,
                    rows[x],
                    flags@[x],
                ) by {
                    if x < k {
                        assert(rows[x] == rows0[x] && flags@[x] == flags0[x]);
                    }
                }
                assert forall|j: int| 0 <= j < before.lanes@.len() implies same_but_remembered(
                    #[trigger] self.lanes@[j],
                    before.lanes@[j],
                ) by {
                    if j != i {
                        assert(self.lanes@[j] == prior[j]);
                    }
                }
            }
            k += 1;
        }
        proof {
            before.lemma_remembering_keeps_wf(*self);
        }
        Some(DecodeMasks { words: out, flags })
    }

    proof fn lemma_remembering_keeps_wf(&self, after: BatchScheduler)
        requires
            self.wf(),
            after == (BatchScheduler { lanes: after.lanes, ..*self }),
            after.lanes@.len() == self.lanes@.len(),
            forall|i: int|
                0 <= i < self.lanes@.len() ==> same_but_remembered(
                    #[trigger] after.lanes@[i],
                    self.lanes@[i],
                ),
        ensures
            after.wf(),
    {
        assert(scheduler::lane_slots(after.lanes@) =~= scheduler::lane_slots(self.lanes@)) by {
            assert forall|i: int| 0 <= i < self.lanes@.len() implies after.lanes@[i].phys
                == self.lanes@[i].phys by {
                assert(same_but_remembered(after.lanes@[i], self.lanes@[i]));
            }
        }
        assert forall|x: usize| #[trigger] after.holders(x) == if x < after.setup.max_batch {
            1int
        } else {
            0
        } by {
            assert(after.holders(x) == self.holders(x));
        }
        assert forall|i: int| 0 <= i < after.lanes@.len() implies after.lane_known(
            #[trigger] after.lanes@[i],
        ) by {
            assert(same_but_remembered(after.lanes@[i], self.lanes@[i]));
            assert(self.lane_known(self.lanes@[i]));
        }
        assert forall|i: int| 0 <= i < after.lanes@.len() && !after.done@[i] implies after.lane_ok(
            #[trigger] after.lanes@[i],
        ) by {
            assert(same_but_remembered(after.lanes@[i], self.lanes@[i]));
            assert(self.lane_ok(self.lanes@[i]));
        }
        match after.pf {
            Some(c) => {
                assert(self.cursor_ok(c));
            },
            None => {},
        }
    }
}

/// Rows, one behind the other.
pub open spec fn joined(rows: Seq<Seq<u32>>) -> Seq<u32>
    decreases rows.len(),
{
    if rows.len() == 0 {
        Seq::empty()
    } else {
        joined(rows.drop_last()) + rows.last()
    }
}


/// The rows of a mask stand one behind the other, each where its lane's place in the batch says.
pub proof fn law_rows_stand_by_their_lanes(rows: Seq<Seq<u32>>, words: int, k: int, x: int)
    requires
        forall|i: int| 0 <= i < rows.len() ==> (#[trigger] rows[i]).len() == words,
        0 <= k < rows.len(),
        0 <= x < words,
    ensures
        joined(rows).len() == rows.len() * words,
        joined(rows)[k * words + x] == rows[k][x],
    decreases rows.len(),
{
    let fewer = rows.drop_last();
    let n = rows.len() as int;
    lemma_joined_len(rows, words);
    lemma_joined_len(fewer, words);
    if k < n - 1 {
        law_rows_stand_by_their_lanes(fewer, words, k, x);
        assert(0 <= k * words + x < (n - 1) * words) by (nonlinear_arith)
            requires
                0 <= k < n - 1,
                0 <= x < words,
        ;
        assert(fewer[k] == rows[k]);
    }
}

proof fn lemma_joined_len(rows: Seq<Seq<u32>>, words: int)
    requires
        forall|i: int| 0 <= i < rows.len() ==> (#[trigger] rows[i]).len() == words,
    ensures
        joined(rows).len() == rows.len() * words,
    decreases rows.len(),
{
    if rows.len() > 0 {
        lemma_joined_len(rows.drop_last(), words);
        let n = rows.len() as int;
        assert((n - 1) * words + words == n * words) by (nonlinear_arith);
    }
}

/// A row holds the bits of its set as far as it reaches, and no others.
pub proof fn law_a_row_holds_the_bits_of_its_set(set: Seq<u32>, words: int, tok: int)
    requires
        0 <= words,
    ensures
        mask_row(set, words).len() == words,
        bits::bit(mask_row(set, words), tok) == (bits::bit(set, tok) && tok < 32 * words),
{
    let row = mask_row(set, words);
    if 0 <= tok < 32 * words && tok / 32 >= set.len() {
        let k = (tok % 32) as u32;
        assert(row[tok / 32] == 0);
        assert(0u32 & (1u32 << k) == 0) by (bit_vector);
    }
}

} // verus!
