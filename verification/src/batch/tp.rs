//! Serving on several ranks in lockstep: what the head ships, what a mirror replays, and how the
//! ranks check after each step that they hold the same state.

use vstd::arithmetic::div_mod::*;
use vstd::prelude::*;

use crate::batch::lane::Lane;
use crate::batch::scheduler;
use crate::batch::scheduler::{BatchScheduler, PfCursor};

verus! {

/// Start value of the agreement hash.
pub const AGREE_OFFSET: u32 = 0x811c_9dc5;

/// Multiplier of the agreement hash.
pub const AGREE_PRIME: u32 = 0x0100_0193;

/// Inverse of the multiplier.
pub const AGREE_INVERSE: u32 = 0x359c_449b;

/// A rank's word on its state.
#[derive(Clone, Copy, PartialEq, Eq, Structural, Debug)]
pub struct AgreeToken {
    /// Low bits of the number of generated tokens.
    pub count: u8,
    /// Columns of the verify; zero where nothing is drafted.
    pub k_verify: u8,
    pub hash: u32,
    /// The hash as it stands on the wire, with the width folded in.
    pub wire: u32,
}

/// Hash with one more word.
pub open spec fn mixed_in(h: u32, x: u32) -> u32 {
    (h ^ x).wrapping_mul(AGREE_PRIME)
}

/// Hash of a list of words.
pub open spec fn hashed(words: Seq<u32>) -> u32
    decreases words.len(),
{
    if words.len() == 0 {
        AGREE_OFFSET
    } else {
        mixed_in(hashed(words.drop_last()), words.last())
    }
}

/// The words of a lane.
pub open spec fn lane_words(l: Lane) -> Seq<u32> {
    seq![l.last_tok, l.generated as u32, l.pos as u32, l.mtp_pos as u32]
}

/// The words of the first `n` lanes.
pub open spec fn lanes_words(lanes: Seq<Lane>, n: int) -> Seq<u32>
    decreases n,
{
    if n <= 0 {
        Seq::empty()
    } else {
        lanes_words(lanes, n - 1) + lane_words(lanes[n - 1])
    }
}

/// The words of a prefill: it is not a lane, so its progress is folded in on its own.
pub open spec fn cursor_words(pf: Option<PfCursor>) -> Seq<u32> {
    match pf {
        Some(c) => seq![c.phys as u32, c.w0 as u32, c.prompt@.len() as u32],
        None => Seq::empty(),
    }
}

pub open spec fn flag_word(b: bool) -> u32 {
    if b {
        1
    } else {
        0
    }
}

/// The words of the whole state.
pub open spec fn state_words(s: BatchScheduler) -> Seq<u32> {
    lanes_words(s.lanes@, s.lanes@.len() as int) + cursor_words(s.pf) + seq![
        flag_word(s.mtp.active),
        s.mtp.depth as u32,
        flag_word(s.setup.mtp_lanes),
    ]
}

/// Tokens that the first `n` lanes have generated.
pub open spec fn generated_total(lanes: Seq<Lane>, n: int) -> int
    decreases n,
{
    if n <= 0 {
        0
    } else {
        generated_total(lanes, n - 1) + lanes[n - 1].generated
    }
}

/// Width that the step ran with.
pub open spec fn width_word(s: BatchScheduler) -> u8 {
    if s.mtp.active {
        s.mtp.depth as u8
    } else {
        0
    }
}

fn mix(h: u32, x: u32) -> (r: u32)
    ensures
        r == mixed_in(h, x),
{
    (h ^ x).wrapping_mul(AGREE_PRIME)
}

fn low_word(n: usize) -> (r: u32)
    ensures
        r == n as u32,
{
    #[verifier::truncate]
    (n as u32)
}

fn low_byte(n: usize) -> (r: u8)
    ensures
        r == n as u8,
{
    #[verifier::truncate]
    (n as u8)
}

proof fn lemma_hashed_push(words: Seq<u32>, x: u32)
    ensures
        hashed(words.push(x)) == mixed_in(hashed(words), x),
{
    assert(words.push(x).drop_last() =~= words);
}

impl BatchScheduler {
    /// The rank's word on its state after a step. A drill corrupts the hash on purpose.
    pub fn agree_token(&self, drill: bool) -> (r: AgreeToken)
        requires
            self.wf(),
            self.settled(),
        ensures
            r.hash == hashed(state_words(*self)) ^ (if drill {
                0xDEADu32
            } else {
                0
            }),
            r.k_verify == width_word(*self),
            r.count == generated_total(self.lanes@, self.lanes@.len() as int) % 0x100,
            r.wire == r.hash ^ (((r.k_verify & 0xF) as u32) << 27),
    {
        let mut h: u32 = AGREE_OFFSET;
        let mut total: u64 = 0;
        let ghost mut words: Seq<u32> = Seq::empty();
        let mut i: usize = 0;
        while i < self.lanes.len()
            invariant
                self.wf(),
                self.settled(),
                i <= self.lanes@.len(),
                words == lanes_words(self.lanes@, i as int),
                h == hashed(words),
                total == generated_total(self.lanes@, i as int),
                total <= i * 0x8000_0000,
            decreases self.lanes@.len() - i,
        {
            let l = &self.lanes[i];
            assert(!self.done@[i as int]);
            assert(self.lane_ok(self.lanes@[i as int]));
            let ghost w0 = words;
            proof {
                lemma_hashed_push(w0, l.last_tok);
                lemma_hashed_push(w0.push(l.last_tok), l.generated as u32);
                lemma_hashed_push(w0.push(l.last_tok).push(l.generated as u32), l.pos as u32);
                lemma_hashed_push(
                    w0.push(l.last_tok).push(l.generated as u32).push(l.pos as u32),
                    l.mtp_pos as u32,
                );
                words = w0 + lane_words(*l);
                assert(words =~= w0.push(l.last_tok).push(l.generated as u32).push(
                    l.pos as u32,
                ).push(l.mtp_pos as u32));
            }
            h = mix(h, l.last_tok);
            h = mix(h, low_word(l.generated));
            h = mix(h, low_word(l.pos));
            h = mix(h, low_word(l.mtp_pos));
            total = total + l.generated as u64;
            i += 1;
        }
        let ghost w1 = words;
        match &self.pf {
            Some(c) => {
                proof {
                    let a = c.phys as u32;
                    let b = c.w0 as u32;
                    let d = c.prompt@.len() as u32;
                    lemma_hashed_push(w1, a);
                    lemma_hashed_push(w1.push(a), b);
                    lemma_hashed_push(w1.push(a).push(b), d);
                    words = w1 + cursor_words(self.pf);
                    assert(words =~= w1.push(a).push(b).push(d));
                }
                h = mix(h, low_word(c.phys));
                h = mix(h, low_word(c.w0));
                h = mix(h, low_word(c.prompt.len()));
            },
            None => {
                assert(w1 + cursor_words(self.pf) =~= w1);
            },
        }
        let active = self.mtp.active();
        let depth: usize = self.mtp.depth();
        proof {
            let a = flag_word(active);
            let b = depth as u32;
            let d = flag_word(self.setup.mtp_lanes);
            lemma_hashed_push(words, a);
            lemma_hashed_push(words.push(a), b);
            lemma_hashed_push(words.push(a).push(b), d);
            assert(state_words(*self) =~= words.push(a).push(b).push(d));
        }
        h = mix(
            h,
            if active {
                1
            } else {
                0
            },
        );
        h = mix(h, low_word(depth));
        h = mix(
            h,
            if self.setup.mtp_lanes {
                1
            } else {
                0
            },
        );
        let k_verify: u8 = if active {
            low_byte(depth)
        } else {
            0
        };
        let ghost h0 = h;
        if drill {
            h = h ^ 0xDEAD;
        } else {
            assert(h == h ^ 0u32) by (bit_vector);
        }
        let wire: u32 = h ^ (((k_verify & 0xF) as u32) << 27);
        AgreeToken { count: (total % 0x100) as u8, k_verify, hash: h, wire }
    }
}

/// The lanes among the first `n` whose clients are gone and that were not cancelled before.
pub open spec fn newly_gone(lanes: Seq<Lane>, closed: Seq<bool>, n: int) -> Seq<usize>
    decreases n,
{
    if n <= 0 {
        Seq::empty()
    } else if closed[n - 1] && !lanes[n - 1].tp_cancelled {
        newly_gone(lanes, closed, n - 1).push((n - 1) as usize)
    } else {
        newly_gone(lanes, closed, n - 1)
    }
}

/// How a comparison with another rank ends.
#[derive(Clone, Copy, PartialEq, Eq, Structural, Debug)]
pub enum Agreement {
    Agreed,
    /// The link is down, or the peer did not answer in time.
    Lost,
    /// The states differ.
    Mismatch,
}

/// Compares with what the peer sent: its count and its hash as it stood on the wire.
pub fn compare_tokens(own: &AgreeToken, peer: Option<(u8, u32)>) -> (r: Agreement)
    ensures
        r == match peer {
            None => Agreement::Lost,
            Some(p) => if p.0 == own.count && p.1 == own.wire {
                Agreement::Agreed
            } else {
                Agreement::Mismatch
            },
        },
{
    match peer {
        None => Agreement::Lost,
        Some((count, hash)) => if count == own.count && hash == own.wire {
            Agreement::Agreed
        } else {
            Agreement::Mismatch
        },
    }
}

/// Mixing can be undone.
proof fn lemma_unmixed(a: u32)
    ensures
        a.wrapping_mul(AGREE_PRIME).wrapping_mul(AGREE_INVERSE) == a,
{
    let m = 0x1_0000_0000int;
    let p = AGREE_PRIME as int;
    let q = AGREE_INVERSE as int;
    let x = a as int;
    assert(p * q == 3_513_497 * m + 1);
    assert((p * q) % m == 1);
    lemma_mul_mod_noop_left(x * p, q, m);
    assert((x * p) * q == x * (p * q)) by (nonlinear_arith);
    lemma_mul_mod_noop_right(x, p * q, m);
    lemma_small_mod(x as nat, m as nat);
}

proof fn lemma_mix_injective(a: u32, b: u32, x: u32, y: u32)
    requires
        mixed_in(a, x) == mixed_in(b, y),
    ensures
        a ^ x == b ^ y,
{
    lemma_unmixed(a ^ x);
    lemma_unmixed(b ^ y);
}

/// States whose words differ in one place have different hashes: a single divergence is seen in
/// the step in which it happens.
pub proof fn law_a_single_divergence_is_seen(a: Seq<u32>, b: Seq<u32>, k: int)
    requires
        a.len() == b.len(),
        0 <= k < a.len(),
        a[k] != b[k],
        forall|j: int| 0 <= j < a.len() && j != k ==> a[j] == b[j],
    ensures
        hashed(a) != hashed(b),
    decreases a.len(),
{
    let a1 = a.drop_last();
    let b1 = b.drop_last();
    let x = a.last();
    let y = b.last();
    if k == a.len() - 1 {
        assert(a1 =~= b1);
        let h = hashed(a1);
        if hashed(a) == hashed(b) {
            lemma_mix_injective(h, h, x, y);
            assert(x == y) by (bit_vector)
                requires
                    h ^ x == h ^ y,
            ;
        }
    } else {
        law_a_single_divergence_is_seen(a1, b1, k);
        let g = hashed(a1);
        let h = hashed(b1);
        if hashed(a) == hashed(b) {
            lemma_mix_injective(g, h, x, y);
            assert(g == h) by (bit_vector)
                requires
                    g ^ x == h ^ y,
                    x == y,
            ;
        }
    }
}

impl BatchScheduler {
    /// True when another request may be taken in: no prompt is being prefilled, and a lane is
    /// free.
    pub fn may_take(&self) -> (r: bool)
        ensures
            r == (self.pf is None && self.lanes@.len() < self.setup.max_batch),
    {
        self.pf.is_none() && self.lanes.len() < self.setup.max_batch
    }

    /// True when there is nothing to do but to wait for a request. A prompt that is being
    /// prefilled is something to do.
    pub fn idle(&self) -> (r: bool)
        ensures
            r == (self.lanes@.len() == 0 && self.pf is None),
    {
        self.lanes.len() == 0 && self.pf.is_none()
    }

    /// True when the head may draw another request from its queue: lanes, waiting requests and the
    /// prefill leave a slot.
    pub fn may_draw(&self, pending: usize) -> (r: bool)
        requires
            self.wf(),
        ensures
            r == (self.lanes@.len() + pending + (if self.pf is Some {
                1int
            } else {
                0
            }) < self.setup.max_batch),
    {
        let held: usize = self.lanes.len() + if self.pf.is_some() {
            1
        } else {
            0
        };
        held < self.setup.max_batch && pending < self.setup.max_batch - held
    }

    /// True when the head takes in a waiting request in this step: at most one, and only where no
    /// prompt is being prefilled.
    pub fn takes_now(&self, pending: usize) -> (r: bool)
        ensures
            r == (self.pf is None && pending > 0),
    {
        self.pf.is_none() && pending > 0
    }

    /// True when the head shuts the mirrors down: the queue is closed, and nothing is left.
    pub fn shuts_down(&self, closed: bool, pending: usize) -> (r: bool)
        ensures
            r == (closed && pending == 0 && self.lanes@.len() == 0 && self.pf is None),
    {
        closed && pending == 0 && self.lanes.len() == 0 && self.pf.is_none()
    }

    /// Marks lane `i` as cancelled.
    fn mark(&mut self, i: usize)
        requires
            old(self).wf(),
            i < old(self).lanes@.len(),
        ensures
            final(self).wf(),
            *final(self) == (BatchScheduler { lanes: final(self).lanes, ..*old(self) }),
            final(self).lanes@ == old(self).lanes@.update(
                i as int,
                Lane { tp_cancelled: true, ..old(self).lanes@[i as int] },
            ),
    {
        let ghost before = *self;
        self.lanes[i].tp_cancelled = true;
        assert(self.lanes@ =~= before.lanes@.update(
            i as int,
            Lane { tp_cancelled: true, ..before.lanes@[i as int] },
        ));
        proof {
            before.lemma_cancels_keep_wf(*self);
        }
    }

    proof fn lemma_cancels_keep_wf(&self, after: BatchScheduler)
        requires
            self.wf(),
            after == (BatchScheduler { lanes: after.lanes, ..*self }),
            after.lanes@.len() == self.lanes@.len(),
            forall|i: int|
                0 <= i < self.lanes@.len() ==> #[trigger] after.lanes@[i] == (Lane {
                    tp_cancelled: after.lanes@[i].tp_cancelled,
                    ..self.lanes@[i]
                }),
        ensures
            after.wf(),
    {
        assert(scheduler::lane_slots(after.lanes@) =~= scheduler::lane_slots(self.lanes@));
        assert forall|x: usize| #[trigger] after.holders(x) == if x < after.setup.max_batch {
            1int
        } else {
            0
        } by {
            assert(after.holders(x) == self.holders(x));
        }
        assert forall|j: int| 0 <= j < after.lanes@.len() implies after.lane_known(
            #[trigger] after.lanes@[j],
        ) by {
            assert(self.lane_known(self.lanes@[j]));
        }
        assert forall|j: int| 0 <= j < after.lanes@.len() && !after.done@[j] implies after.lane_ok(
            #[trigger] after.lanes@[j],
        ) by {
            assert(self.lane_ok(self.lanes@[j]));
        }
        if self.pf is Some {
            assert(self.cursor_ok(self.pf->0));
        }
    }

    /// Marks the lanes whose clients are gone, and lists those that were not marked before, for
    /// the mirrors.
    pub fn mark_gone(&mut self, closed: &Vec<bool>) -> (r: Vec<usize>)
        requires
            old(self).wf(),
            closed@.len() == old(self).lanes@.len(),
        ensures
            final(self).wf(),
            *final(self) == (BatchScheduler { lanes: final(self).lanes, ..*old(self) }),
            final(self).lanes@ == Seq::new(
                old(self).lanes@.len(),
                |i: int|
                    Lane {
                        tp_cancelled: old(self).lanes@[i].tp_cancelled || closed@[i],
                        ..old(self).lanes@[i]
                    },
            ),
            r@ == newly_gone(old(self).lanes@, closed@, old(self).lanes@.len() as int),
    {
        let ghost before = *self;
        let n: usize = self.lanes.len();
        let mut r: Vec<usize> = Vec::new();
        let mut i: usize = 0;
        while i < n
            invariant
                i <= n,
                n == before.lanes@.len(),
                closed@.len() == n,
                *self == (BatchScheduler { lanes: self.lanes, ..before }),
                self.lanes@.len() == n,
                forall|k: int|
                    0 <= k < i ==> #[trigger] self.lanes@[k] == (Lane {
                        tp_cancelled: before.lanes@[k].tp_cancelled || closed@[k],
                        ..before.lanes@[k]
                    }),
                forall|k: int| i <= k < n ==> #[trigger] self.lanes@[k] == before.lanes@[k],
                r@ == newly_gone(before.lanes@, closed@, i as int),
            decreases n - i,
        {
            if closed[i] && !self.lanes[i].tp_cancelled {
                self.lanes[i].tp_cancelled = true;
                r.push(i);
            }
            i += 1;
        }
        assert(self.lanes@ =~= Seq::new(
            before.lanes@.len(),
            |i: int|
                Lane {
                    tp_cancelled: before.lanes@[i].tp_cancelled || closed@[i],
                    ..before.lanes@[i]
                },
        ));
        proof {
            before.lemma_cancels_keep_wf(*self);
        }
        r
    }

    /// Replays a cancel on a mirror; false where there is no such lane, and the states differ.
    pub fn replay_cancel(&mut self, i: usize) -> (ok: bool)
        requires
            old(self).wf(),
        ensures
            final(self).wf(),
            ok == (i < old(self).lanes@.len()),
            !ok ==> *final(self) == *old(self),
            ok ==> *final(self) == (BatchScheduler { lanes: final(self).lanes, ..*old(self) })
                && final(self).lanes@ == old(self).lanes@.update(
                i as int,
                Lane { tp_cancelled: true, ..old(self).lanes@[i as int] },
            ),
    {
        if i >= self.lanes.len() {
            return false;
        }
        self.mark(i);
        true
    }
}


proof fn lemma_lane_word(lanes: Seq<Lane>, n: int, i: int, f: int)
    requires
        0 <= i < n <= lanes.len(),
        0 <= f < 4,
    ensures
        lanes_words(lanes, n).len() == 4 * n,
        lanes_words(lanes, n)[4 * i + f] == lane_words(lanes[i])[f],
    decreases n,
{
    lemma_lanes_words_len(lanes, n - 1);
    if i < n - 1 {
        lemma_lane_word(lanes, n - 1, i, f);
    }
}

proof fn lemma_lanes_words_len(lanes: Seq<Lane>, n: int)
    requires
        0 <= n <= lanes.len(),
    ensures
        lanes_words(lanes, n).len() == 4 * n,
    decreases n,
{
    if n > 0 {
        lemma_lanes_words_len(lanes, n - 1);
    }
}

/// What the two states have in common apart from their lanes.
pub open spec fn same_apart_from_lanes(a: BatchScheduler, b: BatchScheduler) -> bool {
    &&& a.pf == b.pf
    &&& a.mtp.active == b.mtp.active
    &&& a.mtp.depth == b.mtp.depth
    &&& a.setup.mtp_lanes == b.setup.mtp_lanes
}

/// Two lanes agree in what the token tells of them, but for one thing: the token to be fed, the
/// number of generated tokens, the position, or the position of the draft head.
pub open spec fn differ_in_one_thing(a: Lane, b: Lane) -> bool {
    let fed = a.last_tok != b.last_tok;
    let generated = a.generated as u32 != b.generated as u32;
    let at = a.pos as u32 != b.pos as u32;
    let head = a.mtp_pos as u32 != b.mtp_pos as u32;
    ||| fed && !generated && !at && !head
    ||| !fed && generated && !at && !head
    ||| !fed && !generated && at && !head
    ||| !fed && !generated && !at && head
}

/// A lane that diverges in one thing changes the hash of the whole state, whichever lane it is and
/// whatever the thing.
pub proof fn law_a_diverging_lane_is_seen(a: BatchScheduler, b: BatchScheduler, i: int)
    requires
        same_apart_from_lanes(a, b),
        a.lanes@.len() == b.lanes@.len(),
        0 <= i < a.lanes@.len(),
        forall|k: int| 0 <= k < a.lanes@.len() && k != i ==> a.lanes@[k] == b.lanes@[k],
        differ_in_one_thing(a.lanes@[i], b.lanes@[i]),
    ensures
        hashed(state_words(a)) != hashed(state_words(b)),
{
    let (x, y) = (a.lanes@[i], b.lanes@[i]);
    let n = a.lanes@.len() as int;
    let (u, v) = (state_words(a), state_words(b));
    let f: int = if x.last_tok != y.last_tok {
        0
    } else if x.generated as u32 != y.generated as u32 {
        1
    } else if x.pos as u32 != y.pos as u32 {
        2
    } else {
        3
    };
    lemma_lanes_words_len(a.lanes@, n);
    lemma_lanes_words_len(b.lanes@, n);
    assert forall|j: int| 0 <= j < u.len() && j != 4 * i + f implies u[j] == v[j] by {
        if j < 4 * n {
            let k = j / 4;
            lemma_lane_word(a.lanes@, n, k, j % 4);
            lemma_lane_word(b.lanes@, n, k, j % 4);
        }
    }
    lemma_lane_word(a.lanes@, n, i, f);
    lemma_lane_word(b.lanes@, n, i, f);
    law_a_single_divergence_is_seen(u, v, 4 * i + f);
}

/// A switch or a depth that diverges changes the hash, and so does one thing about the prefill: its
/// slot, its place, or the length of its prompt.
pub proof fn law_a_diverging_setting_is_seen(a: BatchScheduler, b: BatchScheduler)
    requires
        a.lanes@ == b.lanes@,
        ({
            let active = a.mtp.active != b.mtp.active;
            let depth = a.mtp.depth as u32 != b.mtp.depth as u32;
            let shared = a.setup.mtp_lanes != b.setup.mtp_lanes;
            let both = a.pf is Some && b.pf is Some;
            let slot = both && a.pf->0.phys as u32 != b.pf->0.phys as u32;
            let place = both && a.pf->0.w0 as u32 != b.pf->0.w0 as u32;
            let prompt = both && a.pf->0.prompt@.len() as u32 != b.pf->0.prompt@.len() as u32;
            &&& both || a.pf == b.pf
            &&& {
                ||| active && !depth && !shared && !slot && !place && !prompt
                ||| !active && depth && !shared && !slot && !place && !prompt
                ||| !active && !depth && shared && !slot && !place && !prompt
                ||| !active && !depth && !shared && slot && !place && !prompt
                ||| !active && !depth && !shared && !slot && place && !prompt
                ||| !active && !depth && !shared && !slot && !place && prompt
            }
        }),
    ensures
        hashed(state_words(a)) != hashed(state_words(b)),
{
    let n = a.lanes@.len() as int;
    let base = lanes_words(a.lanes@, n).len() as int;
    let past = base + cursor_words(a.pf).len();
    let (u, v) = (state_words(a), state_words(b));
    let k: int = if a.mtp.active != b.mtp.active {
        past
    } else if a.mtp.depth as u32 != b.mtp.depth as u32 {
        past + 1
    } else if a.setup.mtp_lanes != b.setup.mtp_lanes {
        past + 2
    } else if a.pf->0.phys as u32 != b.pf->0.phys as u32 {
        base
    } else if a.pf->0.w0 as u32 != b.pf->0.w0 as u32 {
        base + 1
    } else {
        base + 2
    };
    law_a_single_divergence_is_seen(u, v, k);
}

/// Exactly the lanes are told whose client has gone and that were not cancelled yet, in their order.
pub proof fn law_newly_gone_lanes_are_told(lanes: Seq<Lane>, closed: Seq<bool>, n: int)
    requires
        0 <= n <= lanes.len() <= usize::MAX,
        n <= closed.len(),
    ensures
        forall|i: usize| #[trigger]
            newly_gone(lanes, closed, n).contains(i) == (i < n && closed[i as int]
                && !lanes[i as int].tp_cancelled),
        forall|x: int, y: int|
            0 <= x < y < newly_gone(lanes, closed, n).len() ==> newly_gone(lanes, closed, n)[x]
                < newly_gone(lanes, closed, n)[y],
    decreases n,
{
    if n > 0 {
        law_newly_gone_lanes_are_told(lanes, closed, n - 1);
        let prior = newly_gone(lanes, closed, n - 1);
        let r = newly_gone(lanes, closed, n);
        let last = (n - 1) as usize;
        assert forall|x: int| 0 <= x < prior.len() implies prior[x] < last by {
            assert(prior.contains(prior[x]));
        }
        assert forall|i: usize| #[trigger] r.contains(i) == (i < n && closed[i as int]
            && !lanes[i as int].tp_cancelled) by {
            assert(prior.contains(i) == (i < n - 1 && closed[i as int]
                && !lanes[i as int].tp_cancelled));
            if prior.contains(i) {
                let x = choose|x: int| 0 <= x < prior.len() && prior[x] == i;
                assert(r[x] == i);
            }
            if r.len() > prior.len() {
                assert(r[prior.len() as int] == last);
            }
            if r.contains(i) {
                let x = choose|x: int| 0 <= x < r.len() && r[x] == i;
                if x < prior.len() {
                    assert(prior[x] == i);
                }
            }
        }
    }
}

/// The total counts every lane: one more token in one lane is one more in all.
pub proof fn law_the_total_counts_every_lane(lanes: Seq<Lane>, n: int, i: int, l: Lane)
    requires
        0 <= i < n <= lanes.len(),
    ensures
        generated_total(lanes.update(i, l), n) == generated_total(lanes, n) - lanes[i].generated
            + l.generated,
        generated_total(lanes, 0) == 0,
    decreases n,
{
    let other = lanes.update(i, l);
    if i < n - 1 {
        law_the_total_counts_every_lane(lanes, n - 1, i, l);
    } else {
        lemma_total_of_same(lanes, other, n - 1);
    }
}

proof fn lemma_total_of_same(a: Seq<Lane>, b: Seq<Lane>, n: int)
    requires
        0 <= n <= a.len(),
        n <= b.len(),
        forall|k: int| 0 <= k < n ==> a[k] == b[k],
    ensures
        generated_total(a, n) == generated_total(b, n),
    decreases n,
{
    if n > 0 {
        lemma_total_of_same(a, b, n - 1);
    }
}

} // verus!
