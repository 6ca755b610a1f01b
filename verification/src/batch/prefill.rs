//! Prefilling a prompt window by window, and turning the request into a lane.
//!
//! One window runs between two decode steps, so lanes wait for a window and not for a prompt. A
//! request becomes visible when its last window has run: until then it is neither a lane nor
//! something that another prompt can resume from.

use vstd::prelude::*;

use crate::batch::lane::Lane;
use crate::batch::layout;
use crate::batch::prefix::ImageIdentity;
use crate::batch::rings::Df2Ring;
use crate::batch::scheduler;
use crate::batch::scheduler::{BatchScheduler, DflashLane, PfCursor, Setup};
use crate::batch::slots;
use crate::batch::slots::{Slots, RING_CKPT_K, RING_CKPT_STRIDE};
use crate::dspark::round::DsparkRound;

verus! {

/// Most tokens of a window.
pub const PREFILL_CHUNK: usize = 8192;

/// The smaller of two lengths.
pub open spec fn least(a: int, b: int) -> int {
    if a < b {
        a
    } else {
        b
    }
}

/// End of the window that starts at `w0`: a chunk, cut at the end of the prompt, at the message
/// boundary where reuse is not bound to the grid, and at the next ring checkpoint where there are
/// any.
#[verifier::opaque]
pub open spec fn window_end(
    w0: int,
    plen: int,
    grid: bool,
    ckpt_at: Option<usize>,
    prefix_cache: bool,
) -> int {
    let chunk = least(w0 + PREFILL_CHUNK, plen);
    let cut = match ckpt_at {
        Some(c) => if !grid && w0 < c < chunk {
            c as int
        } else {
            chunk
        },
        None => chunk,
    };
    if prefix_cache {
        least(cut, (w0 / (RING_CKPT_STRIDE as int) + 1) * RING_CKPT_STRIDE)
    } else {
        cut
    }
}

/// Where reuse is bound to the grid, windows depend on the position alone: they end at the next
/// multiple of the stride, or with the prompt.
pub proof fn law_windows_lie_on_the_grid(w0: int, plen: int, ckpt_at: Option<usize>)
    requires
        0 <= w0 < plen,
        w0 % (RING_CKPT_STRIDE as int) == 0,
    ensures
        window_end(w0, plen, true, ckpt_at, true) == least(w0 + RING_CKPT_STRIDE, plen),
        window_end(w0, plen, true, ckpt_at, true) < plen ==> window_end(
            w0,
            plen,
            true,
            ckpt_at,
            true,
        ) % (RING_CKPT_STRIDE as int) == 0,
{
    reveal(window_end);
}

/// Every window holds something, and none reaches past the prompt or past a chunk.
pub proof fn law_windows_progress(
    w0: int,
    plen: int,
    grid: bool,
    ckpt_at: Option<usize>,
    prefix_cache: bool,
)
    requires
        0 <= w0 < plen,
    ensures
        w0 < window_end(w0, plen, grid, ckpt_at, prefix_cache) <= plen,
        window_end(w0, plen, grid, ckpt_at, prefix_cache) <= w0 + PREFILL_CHUNK,
        ckpt_at matches Some(c) ==> !grid && w0 < c ==> window_end(
            w0,
            plen,
            grid,
            ckpt_at,
            prefix_cache,
        ) <= least(c as int, plen),
{
    reveal(window_end);
}

/// The window that runs next.
#[derive(Clone, Copy, PartialEq, Eq, Structural, Debug)]
pub struct Window {
    pub phys: usize,
    pub w0: usize,
    pub w1: usize,
    /// End of the positions whose hidden state is paired with the next token for the draft head;
    /// the last position of a prompt has no next token.
    pub head_end: usize,
}

/// What the device does behind a window, and what the client gets.
pub struct PfStep {
    /// States to copy, from slot to slot.
    pub copies: Vec<(usize, usize)>,
    /// The first token, where it goes to the client.
    pub first: Option<u32>,
}

/// The images that start before `w1`.
pub open spec fn images_before(imgs: Seq<ImageIdentity>, w1: usize) -> Seq<ImageIdentity>
    decreases imgs.len(),
{
    if imgs.len() == 0 {
        Seq::empty()
    } else {
        let rest = images_before(imgs.drop_last(), w1);
        if imgs.last().start < w1 {
            rest.push(imgs.last())
        } else {
            rest
        }
    }
}

fn take_images(imgs: &Vec<ImageIdentity>, w1: usize) -> (r: Vec<ImageIdentity>)
    ensures
        r@ == images_before(imgs@, w1),
{
    let mut r: Vec<ImageIdentity> = Vec::new();
    let mut i: usize = 0;
    while i < imgs.len()
        invariant
            i <= imgs@.len(),
            r@ == images_before(imgs@.take(i as int), w1),
        decreases imgs@.len() - i,
    {
        let ghost next = imgs@.take(i + 1);
        assert(next.drop_last() =~= imgs@.take(i as int));
        if imgs[i].start < w1 {
            r.push(imgs[i]);
        }
        i += 1;
    }
    assert(imgs@.take(imgs@.len() as int) =~= imgs@);
    r
}

fn take_tokens(prompt: &Vec<u32>, n: usize) -> (r: Vec<u32>)
    requires
        n <= prompt@.len(),
    ensures
        r@ == prompt@.take(n as int),
{
    let mut r: Vec<u32> = Vec::new();
    let mut i: usize = 0;
    while i < n
        invariant
            i <= n <= prompt@.len(),
            r@ == prompt@.take(i as int),
        decreases n - i,
    {
        r.push(prompt[i]);
        i += 1;
        assert(r@ =~= prompt@.take(i as int));
    }
    r
}

/// What a cursor keeps while it advances.
pub open spec fn same_cursor(a: PfCursor, b: PfCursor) -> bool {
    &&& a.params == b.params
    &&& a.phys == b.phys
    &&& a.prompt == b.prompt
    &&& a.reuse == b.reuse
    &&& a.ckpt_at == b.ckpt_at
    &&& a.grid_reuse == b.grid_reuse
    &&& a.req_imgs == b.req_imgs
    &&& a.schema == b.schema
    &&& a.will_use_mtp == b.will_use_mtp
    &&& a.will_use_df2 == b.will_use_df2
    &&& a.will_use_dspark == b.will_use_dspark
    &&& a.df2_carry == b.df2_carry
    &&& a.dspark_carry == b.dspark_carry
    &&& a.seed == b.seed
}

/// What the prefill leaves alone.
pub open spec fn prefill_kept(before: BatchScheduler, after: BatchScheduler) -> bool {
    &&& after.setup == before.setup
    &&& after.free_slots == before.free_slots
    &&& after.mtp == before.mtp
    &&& after.df2_prime == before.df2_prime
    &&& after.dspark_prime == before.dspark_prime
    &&& after.pen_had == before.pen_had
    &&& after.pen_key == before.pen_key
    &&& after.stats == before.stats
    &&& after.slots.dspark_len == before.slots.dspark_len
}

impl BatchScheduler {
    /// The end of the cursor's next window.
    pub open spec fn next_end(&self) -> int {
        window_end(
            self.pf->0.w0 as int,
            self.pf->0.prompt@.len() as int,
            self.pf->0.grid_reuse,
            self.pf->0.ckpt_at,
            self.setup.prefix_cache,
        )
    }

    /// The window that runs next; none where nothing is being prefilled or every window has run.
    pub fn pf_window(&self) -> (r: Option<Window>)
        requires
            self.wf(),
        ensures
            match self.pf {
                None => r is None,
                Some(c) => if c.w0 >= c.prompt@.len() {
                    r is None
                } else {
                    r == Some(
                        Window {
                            phys: c.phys,
                            w0: c.w0,
                            w1: self.next_end() as usize,
                            head_end: least(self.next_end(), c.prompt@.len() - 1) as usize,
                        },
                    ) && c.w0 < self.next_end() <= c.prompt@.len()
                },
            },
    {
        proof {
            reveal(window_end);
        }
        match &self.pf {
            None => None,
            Some(c) => {
                let plen: usize = c.prompt.len();
                let w0: usize = c.w0;
                if w0 >= plen {
                    return None;
                }
                let mut w1: usize = if w0 + PREFILL_CHUNK < plen {
                    w0 + PREFILL_CHUNK
                } else {
                    plen
                };
                if !c.grid_reuse {
                    match c.ckpt_at {
                        Some(k) => {
                            if w0 < k && k < w1 {
                                w1 = k;
                            }
                        },
                        None => {},
                    }
                }
                if self.setup.prefix_cache {
                    let boundary: usize = (w0 / RING_CKPT_STRIDE + 1) * RING_CKPT_STRIDE;
                    if boundary < w1 {
                        w1 = boundary;
                    }
                }
                let head_end: usize = if w1 < plen - 1 {
                    w1
                } else {
                    plen - 1
                };
                Some(Window { phys: c.phys, w0, w1, head_end })
            },
        }
    }
}

/// The lane of a request whose prompt has been prefilled. A lane with a schema has emitted nothing
/// yet: its first token was chosen without the mask, so it is only fed.
pub open spec fn lane_of(c: PfCursor, l: Lane) -> bool {
    &&& l.params == c.params
    &&& l.phys == c.phys
    &&& l.pos == c.prompt@.len()
    &&& l.last_tok == c.first_tok
    &&& l.generated == if c.schema is Some {
        0int
    } else {
        1
    }
    &&& l.history@ == seq![c.first_tok]
    &&& l.schema == c.schema
    &&& l.schema_state == match c.schema {
        Some(m) => m.start_id(),
        None => 0,
    }
    &&& l.mtp_pos == if c.prompt@.len() > 0 {
        c.prompt@.len() - 1
    } else {
        0
    }
    &&& l.mtp_primed == c.will_use_mtp
    &&& !l.mtp_stale
    &&& l.df2_primed == ((c.will_use_df2 && c.df2_primed_ok) || (c.will_use_dspark
        && c.dspark_primed_ok))
    &&& !l.df2_stale
    &&& l.seed == c.seed
    &&& !l.tp_cancelled
}

/// The lane of a request, its prompt and its images.
fn make_lane(c: PfCursor) -> (r: (Lane, Vec<u32>, Vec<ImageIdentity>))
    ensures
        lane_of(c, r.0),
        r.1 == c.prompt,
        r.2 == c.req_imgs,
{
    let plen: usize = c.prompt.len();
    let mut history: Vec<u32> = Vec::new();
    history.push(c.first_tok);
    assert(history@ =~= seq![c.first_tok]);
    let generated: usize = if c.schema.is_some() {
        0
    } else {
        1
    };
    let schema_state: u32 = match &c.schema {
        Some(m) => m.start_state(),
        None => 0,
    };
    let l = Lane {
        params: c.params,
        phys: c.phys,
        pos: plen,
        last_tok: c.first_tok,
        generated,
        history,
        schema: c.schema,
        schema_state,
        mtp_pos: if plen > 0 {
            plen - 1
        } else {
            0
        },
        mtp_primed: c.will_use_mtp,
        mtp_stale: false,
        df2_primed: (c.will_use_df2 && c.df2_primed_ok) || (c.will_use_dspark
            && c.dspark_primed_ok),
        df2_stale: false,
        seed: c.seed,
        tp_cancelled: false,
    };
    (l, c.prompt, c.req_imgs)
}

/// The prompt's end is kept as a checkpoint: the prefix cache is on, and no boundary inside the
/// prompt was.
pub open spec fn keeps_end(s: BatchScheduler) -> bool {
    s.setup.prefix_cache && (s.pf->0.ckpt_at is None || s.pf->0.grid_reuse)
}

/// The request becomes a lane, and what its slot remembers is its prompt.
pub open spec fn installs(before: BatchScheduler, after: BatchScheduler, r: PfStep) -> bool {
    let c = before.pf->0;
    let s = c.phys as int;
    &&& prefill_kept(before, after)
    &&& after.df2 == before.df2
    &&& after.dspark == before.dspark
    &&& after.dflash == before.dflash
    &&& after.dflash_prime_armed == before.dflash_prime_armed
    &&& after.dflash_prime_done == before.dflash_prime_done
    &&& after.pf is None
    &&& after.resident_dirty
    &&& after.lanes@.len() == before.lanes@.len() + 1
    &&& forall|i: int|
        0 <= i < before.lanes@.len() ==> #[trigger] after.lanes@[i] == before.lanes@[i]
    &&& lane_of(c, after.lanes@.last())
    &&& after.done@ == before.done@.push(false)
    &&& after.slots.ring_len == before.slots.ring_len
    &&& after.slots.ring_cursor == before.slots.ring_cursor
    &&& after.slots.cache@ == before.slots.cache@.update(s, after.slots.cache@[s])
    &&& after.slots.cache@[s]@ == c.prompt@
    &&& after.slots.cache_images@ == before.slots.cache_images@.update(
        s,
        after.slots.cache_images@[s],
    )
    &&& after.slots.cache_images@[s]@ == c.req_imgs@
    &&& after.slots.ckpt_seq@ == before.slots.ckpt_seq@.update(s, after.slots.ckpt_seq@[s])
    &&& after.slots.ckpt_seq@[s]@ == if keeps_end(before) {
        c.prompt@
    } else {
        before.slots.ckpt_seq@[s]@
    }
    &&& after.slots.ckpt_images@ == before.slots.ckpt_images@.update(
        s,
        after.slots.ckpt_images@[s],
    )
    &&& after.slots.ckpt_images@[s]@ == if keeps_end(before) {
        c.req_imgs@
    } else {
        before.slots.ckpt_images@[s]@
    }
    &&& r.copies@ == if keeps_end(before) {
        seq![(c.phys, (before.setup.layout.prompt_ckpt_slot + c.phys) as usize)]
    } else {
        Seq::empty()
    }
    &&& r.first == if !c.first_sent && c.schema is None {
        Some(c.first_tok)
    } else {
        None
    }
}

/// The message boundary ends the window.
pub open spec fn at_boundary(s: BatchScheduler) -> bool {
    s.pf->0.ckpt_at == Some(s.next_end() as usize)
}

/// The window ends at a ring checkpoint. The end of the prompt is none: it is where generation
/// goes on.
pub open spec fn at_ring_checkpoint(s: BatchScheduler) -> bool {
    s.setup.prefix_cache && s.next_end() < s.pf->0.prompt@.len() && s.next_end()
        % (RING_CKPT_STRIDE as int) == 0
}

/// What the slot remembers behind a window.
#[verifier::opaque]
pub open spec fn window_slots(
    before: BatchScheduler,
    after: Slots,
    copies: Seq<(usize, usize)>,
) -> bool {
    let c = before.pf->0;
    let s = c.phys as int;
    let w1 = before.next_end();
    let j = before.slots.ring_cursor@[s];
    let b = before.slots;
    &&& after.cache == b.cache
    &&& after.cache_images == b.cache_images
    &&& after.dspark_len == b.dspark_len
    &&& after.ckpt_seq@ == b.ckpt_seq@.update(s, after.ckpt_seq@[s])
    &&& after.ckpt_images@ == b.ckpt_images@.update(s, after.ckpt_images@[s])
    &&& after.ring_len@ == b.ring_len@.update(s, after.ring_len@[s])
    &&& after.ckpt_seq@[s]@ == if at_boundary(before) {
        c.prompt@.take(w1)
    } else {
        b.ckpt_seq@[s]@
    }
    &&& after.ckpt_images@[s]@ == if at_boundary(before) {
        images_before(c.req_imgs@, w1 as usize)
    } else {
        b.ckpt_images@[s]@
    }
    &&& after.ring_len@[s]@ == if at_ring_checkpoint(before) {
        b.ring_len@[s]@.update(j as int, w1 as usize)
    } else {
        b.ring_len@[s]@
    }
    &&& after.ring_cursor@ == if at_ring_checkpoint(before) {
        b.ring_cursor@.update(s, ((j + 1) % RING_CKPT_K as int) as usize)
    } else {
        b.ring_cursor@
    }
    &&& copies == (if at_boundary(before) {
        seq![(c.phys, (before.setup.layout.prompt_ckpt_slot + c.phys) as usize)]
    } else {
        Seq::empty()
    }) + (if at_ring_checkpoint(before) {
        seq![
            (
                c.phys,
                layout::ring_slot_of(before.setup.layout, c.phys as int, j as int) as usize,
            ),
        ]
    } else {
        Seq::empty()
    })
}

/// The selector's ring behind a window: it reaches to its end, or nobody's claim on it stands.
pub open spec fn df2_window(s: BatchScheduler, ok: bool) -> Option<Df2Ring> {
    if s.pf->0.will_use_df2 && s.df2 is Some && s.df2_prime {
        Some(
            if ok {
                Df2Ring { nprev: s.next_end() as usize, ..s.df2->0 }
            } else {
                Df2Ring { ring_slot: None, ring_len: 0, ..s.df2->0 }
            },
        )
    } else {
        s.df2
    }
}

/// The block drafter's ring behind a window.
pub open spec fn dspark_window(s: BatchScheduler, ok: bool) -> Option<DsparkRound> {
    if s.pf->0.will_use_dspark && s.dspark is Some && s.dspark_prime && ok {
        Some(DsparkRound { nprev: s.next_end() as usize, ..s.dspark->0 })
    } else {
        s.dspark
    }
}

/// The window is the last one and the drafter with a context feature is waiting for it.
pub open spec fn primes_dflash(s: BatchScheduler) -> bool {
    s.next_end() == s.pf->0.prompt@.len() && s.dflash_prime_armed
}

/// A window has run: it ended with token `tok`, and the rings were primed with it or not.
pub open spec fn window_ran(
    before: BatchScheduler,
    after: BatchScheduler,
    tok: u32,
    df2_ok: bool,
    dspark_ok: bool,
    r: PfStep,
) -> bool {
    let c = before.pf->0;
    let w1 = before.next_end();
    let last = w1 == c.prompt@.len();
    &&& prefill_kept(before, after)
    &&& after.resident_dirty == before.resident_dirty
    &&& window_slots(before, after.slots, r.copies@)
    &&& after.pf is Some
    &&& same_cursor(after.pf->0, c)
    &&& after.pf->0.w0 == w1
    &&& after.pf->0.first_tok == tok
    &&& after.pf->0.first_sent == (c.first_sent || last)
    &&& after.pf->0.df2_primed_ok == (c.df2_primed_ok && (df2_ok || !(c.will_use_df2 && before.df2
        is Some && before.df2_prime)))
    &&& after.pf->0.dspark_primed_ok == (c.dspark_primed_ok && (dspark_ok || !(c.will_use_dspark
        && before.dspark is Some && before.dspark_prime)))
    &&& after.df2 == df2_window(before, df2_ok)
    &&& after.dspark == dspark_window(before, dspark_ok)
    &&& r.first == if last && !c.first_sent && c.schema is None {
        Some(tok)
    } else {
        None
    }
    &&& after.done == before.done
    &&& if primes_dflash(before) {
        &&& after.dflash == match before.dflash {
            Some(d) => Some(DflashLane { row0: 0, ncols: w1 as usize, ..d }),
            None => None,
        }
        &&& after.dflash_prime_done
        &&& !after.dflash_prime_armed
        &&& after.lanes@ == if before.lanes@.len() > 0 {
            before.lanes@.update(0, Lane { df2_primed: true, ..before.lanes@[0] })
        } else {
            before.lanes@
        }
    } else {
        &&& after.dflash == before.dflash
        &&& after.dflash_prime_done == before.dflash_prime_done
        &&& after.dflash_prime_armed == before.dflash_prime_armed
        &&& after.lanes == before.lanes
    }
}

impl BatchScheduler {
    /// Turns the request whose prompt has been prefilled into a lane.
    pub fn pf_finish(&mut self) -> (r: PfStep)
        requires
            old(self).wf(),
            old(self).pf is Some,
            old(self).pf->0.w0 >= old(self).pf->0.prompt@.len(),
        ensures
            final(self).wf(),
            installs(*old(self), *final(self), r),
    {
        let ghost before = *self;
        proof {
            before.lemma_cursor_slot();
        }
        let r = self.pf_install();
        proof {
            before.lemma_install_keeps_wf(*self, r);
        }
        r
    }

    fn pf_install(&mut self) -> (r: PfStep)
        requires
            old(self).setup_ok(),
            old(self).slots.wf(old(self).setup.max_batch as int),
            old(self).pf is Some,
            old(self).pf->0.phys < old(self).setup.max_batch,
        ensures
            installs(*old(self), *final(self), r),
    {
        let ghost before = *self;
        let mut copies: Vec<(usize, usize)> = Vec::new();
        let mut first: Option<u32> = None;
        match self.pf.take() {
            Some(c) => {
                let phys: usize = c.phys;
                if self.setup.prefix_cache && (c.ckpt_at.is_none() || c.grid_reuse) {
                    copies.push((phys, self.setup.layout.prompt_ckpt_slot + phys));
                    let seq = c.prompt.clone();
                    let images = c.req_imgs.clone();
                    assert(seq@ =~= c.prompt@);
                    assert(images@ =~= c.req_imgs@);
                    self.slots.ckpt_seq.set(phys, seq);
                    self.slots.ckpt_images.set(phys, images);
                }
                if !c.first_sent && c.schema.is_none() {
                    first = Some(c.first_tok);
                }
                let (l, prompt, images) = make_lane(c);
                self.slots.cache.set(phys, prompt);
                self.slots.cache_images.set(phys, images);
                self.lanes.push(l);
                self.done.push(false);
                self.resident_dirty = true;
            },
            None => {},
        }
        let r = PfStep { copies, first };
        proof {
            let c = before.pf->0;
            let s = c.phys as int;
            assert(self.slots.cache@ =~= before.slots.cache@.update(s, self.slots.cache@[s]));
            assert(self.slots.cache_images@ =~= before.slots.cache_images@.update(
                s,
                self.slots.cache_images@[s],
            ));
            assert(self.slots.ckpt_seq@ =~= before.slots.ckpt_seq@.update(
                s,
                self.slots.ckpt_seq@[s],
            ));
            assert(self.slots.ckpt_images@ =~= before.slots.ckpt_images@.update(
                s,
                self.slots.ckpt_images@[s],
            ));
            assert(r.copies@ =~= if keeps_end(before) {
                seq![(c.phys, (before.setup.layout.prompt_ckpt_slot + c.phys) as usize)]
            } else {
                Seq::empty()
            });
        }
        r
    }

    proof fn lemma_install_keeps_wf(&self, after: BatchScheduler, r: PfStep)
        requires
            self.wf(),
            self.pf is Some,
            self.pf->0.w0 >= self.pf->0.prompt@.len(),
            installs(*self, after, r),
        ensures
            after.wf(),
    {
        let c = self.pf->0;
        self.lemma_cursor_slot();
        assert(self.cursor_ok(c));
        assert(scheduler::lane_slots(after.lanes@) =~= scheduler::lane_slots(self.lanes@).push(
            c.phys,
        ));
        assert forall|x: usize| #[trigger] after.holders(x) == if x < after.setup.max_batch {
            1int
        } else {
            0
        } by {
            slots::lemma_held_push(scheduler::lane_slots(self.lanes@), c.phys, x);
            assert(self.holders(x) == after.holders(x));
        }
        match c.schema {
            Some(m) => {
                m.lemma_setup();
            },
            None => {},
        }
        assert forall|i: int| 0 <= i < after.lanes@.len() implies after.lane_known(
            #[trigger] after.lanes@[i],
        ) by {
            if i < self.lanes@.len() {
                assert(after.lanes@[i] == self.lanes@[i]);
                assert(self.lane_known(self.lanes@[i]));
            }
        }
        assert forall|i: int| 0 <= i < after.lanes@.len() && !after.done@[i] implies after.lane_ok(
            #[trigger] after.lanes@[i],
        ) by {
            if i < self.lanes@.len() {
                assert(after.lanes@[i] == self.lanes@[i]);
                assert(self.lane_ok(self.lanes@[i]));
                self.lemma_lane_slot(i);
            }
        }
    }
}

/// Remembers the checkpoints that are taken at the end of a window.
fn note_checkpoints(
    m: &mut Slots,
    setup: &Setup,
    c: &PfCursor,
    w1: usize,
    Ghost(before): Ghost<BatchScheduler>,
) -> (copies: Vec<(usize, usize)>)
    requires
        before.setup_ok(),
        old(m).wf(setup.max_batch as int),
        c.phys < setup.max_batch,
        before.pf == Some(*c),
        before.slots == *old(m),
        before.setup == *setup,
        w1 == before.next_end(),
        c.w0 < w1 <= c.prompt@.len(),
    ensures
        window_slots(before, *final(m), copies@),
        final(m).dspark_len == old(m).dspark_len,
        final(m).wf(setup.max_batch as int),
{
    proof {
        reveal(window_slots);
    }
    let phys: usize = c.phys;
    let plen: usize = c.prompt.len();
    let mut copies: Vec<(usize, usize)> = Vec::new();
    let boundary = match c.ckpt_at {
        Some(k) => k == w1,
        None => false,
    };
    if boundary {
        copies.push((phys, setup.layout.prompt_ckpt_slot + phys));
        m.ckpt_seq.set(phys, take_tokens(&c.prompt, w1));
        m.ckpt_images.set(phys, take_images(&c.req_imgs, w1));
    }
    let ghost mid = copies@;
    assert(m.ckpt_seq@ =~= before.slots.ckpt_seq@.update(phys as int, m.ckpt_seq@[phys as int]));
    assert(m.ckpt_images@ =~= before.slots.ckpt_images@.update(
        phys as int,
        m.ckpt_images@[phys as int],
    ));
    if setup.prefix_cache && w1 < plen && w1 % RING_CKPT_STRIDE == 0 {
        let j: usize = m.ring_cursor[phys];
        m.ring_cursor.set(phys, (j + 1) % RING_CKPT_K);
        proof {
            assert(phys * RING_CKPT_K + RING_CKPT_K <= setup.max_batch * RING_CKPT_K)
                by (nonlinear_arith)
                requires
                    phys < setup.max_batch,
            ;
            assert(before.slots.ring_len@[phys as int]@.len() == RING_CKPT_K);
        }
        copies.push((phys, setup.layout.ring_ckpt_slot + phys * RING_CKPT_K + j));
        m.ring_len[phys].set(j, w1);
    }
    proof {
        assert(m.ring_len@ =~= before.slots.ring_len@.update(phys as int, m.ring_len@[phys as int]));
        assert forall|s: int| 0 <= s < setup.max_batch implies (#[trigger] m.ring_len@[s])@.len()
            == RING_CKPT_K && slots::on_grid(m.ring_len@[s]@) by {
            assert(before.slots.ring_len@[s]@.len() == RING_CKPT_K);
            assert(slots::on_grid(before.slots.ring_len@[s]@));
            assert forall|j: int| 0 <= j < m.ring_len@[s]@.len() implies #[trigger] m.ring_len@[s]@[j]
                % RING_CKPT_STRIDE == 0 by {
                assert(before.slots.ring_len@[s]@[j] % RING_CKPT_STRIDE == 0);
            }
        }
        assert forall|s: int| 0 <= s < setup.max_batch implies #[trigger] m.ring_cursor@[s]
            < RING_CKPT_K by {
            assert(before.slots.ring_cursor@[s] < RING_CKPT_K);
        }
        let b1: Seq<(usize, usize)> = if at_boundary(before) {
            seq![(c.phys, (before.setup.layout.prompt_ckpt_slot + c.phys) as usize)]
        } else {
            Seq::empty()
        };
        let b2: Seq<(usize, usize)> = if at_ring_checkpoint(before) {
            seq![
                (
                    c.phys,
                    layout::ring_slot_of(
                        before.setup.layout,
                        c.phys as int,
                        before.slots.ring_cursor@[phys as int] as int,
                    ) as usize,
                ),
            ]
        } else {
            Seq::empty()
        };
        assert(mid =~= b1);
        assert(copies@ =~= b1 + b2);
    }
    copies
}

impl BatchScheduler {
    /// Notes a window that has run.
    fn pf_note(&mut self, tok: u32, df2_ok: bool, dspark_ok: bool) -> (r: PfStep)
        requires
            old(self).wf(),
            old(self).pf is Some,
            old(self).pf->0.w0 < old(self).pf->0.prompt@.len(),
        ensures
            final(self).wf(),
            window_ran(*old(self), *final(self), tok, df2_ok, dspark_ok, r),
    {
        let ghost before = *self;
        proof {
            before.lemma_cursor_slot();
        }
        let w1: usize = match self.pf_window() {
            Some(w) => w.w1,
            None => 0,
        };
        let r = self.pf_record(w1, tok, df2_ok, dspark_ok);
        proof {
            before.lemma_window_keeps_wf(*self, tok, df2_ok, dspark_ok, r);
        }
        r
    }

    /// Records a window that ended at `w1`.
    fn pf_record(&mut self, w1: usize, tok: u32, df2_ok: bool, dspark_ok: bool) -> (r: PfStep)
        requires
            old(self).setup_ok(),
            old(self).slots.wf(old(self).setup.max_batch as int),
            old(self).pf is Some,
            old(self).pf->0.phys < old(self).setup.max_batch,
            old(self).pf->0.w0 < w1 <= old(self).pf->0.prompt@.len(),
            w1 == old(self).next_end(),
        ensures
            final(self).slots.wf(old(self).setup.max_batch as int),
            window_ran(*old(self), *final(self), tok, df2_ok, dspark_ok, r),
    {
        let ghost before = *self;
        let mut c = self.pf.take().unwrap();
        let last = w1 == c.prompt.len();
        let copies = note_checkpoints(&mut self.slots, &self.setup, &c, w1, Ghost(before));
        let first: Option<u32> = if last && !c.first_sent && c.schema.is_none() {
            Some(tok)
        } else {
            None
        };
        c.first_tok = tok;
        c.first_sent = c.first_sent || last;
        c.w0 = w1;
        self.prime_feature(last, w1);
        self.prime_rings(&mut c, w1, df2_ok, dspark_ok);
        self.pf = Some(c);
        PfStep { copies, first }
    }

    /// Hands the prompt to the drafter with a context feature, where it is waiting for it.
    fn prime_feature(&mut self, last: bool, plen: usize)
        ensures
            *final(self) == (BatchScheduler {
                dflash: final(self).dflash,
                dflash_prime_done: final(self).dflash_prime_done,
                dflash_prime_armed: final(self).dflash_prime_armed,
                lanes: final(self).lanes,
                ..*old(self)
            }),
            if last && old(self).dflash_prime_armed {
                &&& final(self).dflash == match old(self).dflash {
                    Some(d) => Some(DflashLane { row0: 0, ncols: plen, ..d }),
                    None => None,
                }
                &&& final(self).dflash_prime_done
                &&& !final(self).dflash_prime_armed
                &&& final(self).lanes@ == if old(self).lanes@.len() > 0 {
                    old(self).lanes@.update(0, Lane { df2_primed: true, ..old(self).lanes@[0] })
                } else {
                    old(self).lanes@
                }
            } else {
                *final(self) == *old(self)
            },
    {
        if last && self.dflash_prime_armed {
            match &mut self.dflash {
                Some(d) => {
                    d.row0 = 0;
                    d.ncols = plen;
                },
                None => {},
            }
            if self.lanes.len() > 0 {
                self.lanes[0].df2_primed = true;
                assert(self.lanes@ =~= old(self).lanes@.update(
                    0,
                    Lane { df2_primed: true, ..old(self).lanes@[0] },
                ));
            }
            self.dflash_prime_done = true;
            self.dflash_prime_armed = false;
        }
    }

    /// Moves the frontiers of the rings that took the window in.
    fn prime_rings(&mut self, c: &mut PfCursor, w1: usize, df2_ok: bool, dspark_ok: bool)
        ensures
            *final(self) == (BatchScheduler {
                df2: final(self).df2,
                dspark: final(self).dspark,
                ..*old(self)
            }),
            *final(c) == (PfCursor {
                df2_primed_ok: final(c).df2_primed_ok,
                dspark_primed_ok: final(c).dspark_primed_ok,
                ..*old(c)
            }),
            final(c).df2_primed_ok == (old(c).df2_primed_ok && (df2_ok || !(old(c).will_use_df2
                && old(self).df2 is Some && old(self).df2_prime))),
            final(c).dspark_primed_ok == (old(c).dspark_primed_ok && (dspark_ok || !(old(c).will_use_dspark && old(self).dspark is Some && old(self).dspark_prime))),
            final(self).df2 == if old(c).will_use_df2 && old(self).df2 is Some && old(self).df2_prime {
                Some(
                    if df2_ok {
                        Df2Ring { nprev: w1, ..old(self).df2->0 }
                    } else {
                        Df2Ring { ring_slot: None, ring_len: 0, ..old(self).df2->0 }
                    },
                )
            } else {
                old(self).df2
            },
            final(self).dspark == if old(c).will_use_dspark && old(self).dspark is Some && old(self).dspark_prime && dspark_ok {
                Some(DsparkRound { nprev: w1, ..old(self).dspark->0 })
            } else {
                old(self).dspark
            },
    {
        if c.will_use_dspark && self.dspark_prime {
            match &mut self.dspark {
                Some(d) => if dspark_ok {
                    d.rewind(w1);
                } else {
                    c.dspark_primed_ok = false;
                },
                None => {},
            }
        }
        if c.will_use_df2 && self.df2_prime {
            match &mut self.df2 {
                Some(d) => if df2_ok {
                    d.rewind(w1);
                } else {
                    c.df2_primed_ok = false;
                    d.invalidate_ring();
                },
                None => {},
            }
        }
    }

    proof fn lemma_window_keeps_wf(
        &self,
        after: BatchScheduler,
        tok: u32,
        df2_ok: bool,
        dspark_ok: bool,
        r: PfStep,
    )
        requires
            self.wf(),
            self.pf is Some,
            self.pf->0.w0 < self.pf->0.prompt@.len(),
            after.slots.wf(self.setup.max_batch as int),
            window_ran(*self, after, tok, df2_ok, dspark_ok, r),
        ensures
            after.wf(),
    {
        reveal(window_slots);
        let c = self.pf->0;
        assert(self.cursor_ok(c));
        law_windows_progress(
            c.w0 as int,
            c.prompt@.len() as int,
            c.grid_reuse,
            c.ckpt_at,
            self.setup.prefix_cache,
        );
        if c.grid_reuse && self.setup.prefix_cache {
            law_windows_lie_on_the_grid(c.w0 as int, c.prompt@.len() as int, c.ckpt_at);
        }
        assert(after.cursor_ok(after.pf->0));
        assert(scheduler::lane_slots(after.lanes@) =~= scheduler::lane_slots(self.lanes@));
        assert forall|x: usize| #[trigger] after.holders(x) == if x < after.setup.max_batch {
            1int
        } else {
            0
        } by {
            assert(after.holders(x) == self.holders(x));
        }
        assert forall|i: int| 0 <= i < after.lanes@.len() implies after.lane_known(
            #[trigger] after.lanes@[i],
        ) by {
            assert(self.lane_known(self.lanes@[i]));
        }
        assert forall|i: int| 0 <= i < after.lanes@.len() && !after.done@[i] implies after.lane_ok(
            #[trigger] after.lanes@[i],
        ) by {
            assert(self.lane_ok(self.lanes@[i]));
        }
    }

    /// Notes that the cursor's window has run: `tok` is what the model chose behind it, and the
    /// flags say whether the drafters' rings took it in. Behind the last window the request
    /// becomes a lane.
    pub fn pf_advance(&mut self, tok: u32, df2_ok: bool, dspark_ok: bool) -> (r: PfStep)
        requires
            old(self).wf(),
            old(self).pf is Some,
            old(self).pf->0.w0 < old(self).pf->0.prompt@.len(),
            old(self).pf->0.will_use_dspark ==> old(self).next_end() <= old(self).dspark->0.max_c,
        ensures
            final(self).wf(),
            old(self).next_end() < old(self).pf->0.prompt@.len() ==> window_ran(
                *old(self),
                *final(self),
                tok,
                df2_ok,
                dspark_ok,
                r,
            ),
            old(self).next_end() == old(self).pf->0.prompt@.len() ==> runs_and_installs(
                *old(self),
                *final(self),
                tok,
                df2_ok,
                dspark_ok,
                r,
            ),
    {
        let ghost before = *self;
        proof {
            let c = before.pf->0;
            assert(before.cursor_ok(c));
            law_windows_progress(
                c.w0 as int,
                c.prompt@.len() as int,
                c.grid_reuse,
                c.ckpt_at,
                before.setup.prefix_cache,
            );
        }
        let mut r = self.pf_note(tok, df2_ok, dspark_ok);
        let ran = match &self.pf {
            Some(c) => c.w0 >= c.prompt.len(),
            None => false,
        };
        if ran {
            let ghost mid = *self;
            let ghost noted = r;
            let mut end = self.pf_finish();
            let ghost made = end;
            r.copies.append(&mut end.copies);
            proof {
                assert(window_ran(before, mid, tok, df2_ok, dspark_ok, noted));
                assert(installs(mid, *self, made));
                assert(r.copies@ == noted.copies@ + made.copies@);
            }
        }
        r
    }
}

/// The last window has run, and the request has become a lane.
pub open spec fn runs_and_installs(
    before: BatchScheduler,
    after: BatchScheduler,
    tok: u32,
    df2_ok: bool,
    dspark_ok: bool,
    r: PfStep,
) -> bool {
    exists|mid: BatchScheduler, noted: PfStep, made: PfStep|
        {
            &&& #[trigger] window_ran(before, mid, tok, df2_ok, dspark_ok, noted)
            &&& #[trigger] installs(mid, after, made)
            &&& r.copies@ == noted.copies@ + made.copies@
            &&& r.first == noted.first
        }
}


/// A window of the prompt may end at `x`: within the prompt and within 8192 tokens, without passing
/// over the place of a checkpoint, and, where prefixes are kept, without passing over a multiple of
/// 512.
pub open spec fn may_end_at(
    w0: int,
    plen: int,
    grid: bool,
    ckpt_at: Option<usize>,
    prefix_cache: bool,
    x: int,
) -> bool {
    &&& w0 < x <= plen
    &&& x - w0 <= 8192
    &&& (!grid && ckpt_at is Some ==> !(w0 < ckpt_at->0 < x))
    &&& (prefix_cache ==> forall|k: int| !(w0 < #[trigger] (k * 512) < x))
}

/// A window goes as far as it may.
pub proof fn law_windows_go_as_far_as_they_may(
    w0: int,
    plen: int,
    grid: bool,
    ckpt_at: Option<usize>,
    prefix_cache: bool,
    x: int,
)
    requires
        0 <= w0 < plen,
    ensures
        may_end_at(
            w0,
            plen,
            grid,
            ckpt_at,
            prefix_cache,
            window_end(w0, plen, grid, ckpt_at, prefix_cache),
        ),
        may_end_at(w0, plen, grid, ckpt_at, prefix_cache, x) ==> x <= window_end(
            w0,
            plen,
            grid,
            ckpt_at,
            prefix_cache,
        ),
{
    reveal(window_end);
    let e = window_end(w0, plen, grid, ckpt_at, prefix_cache);
    let next = (w0 / 512 + 1) * 512;
    assert(w0 < next <= w0 + 512);
    assert(next == (w0 / (RING_CKPT_STRIDE as int) + 1) * RING_CKPT_STRIDE);
    if prefix_cache {
        assert(e <= next);
        assert forall|k: int| !(w0 < #[trigger] (k * 512) < e) by {
            assert(k <= w0 / 512 || k >= w0 / 512 + 1);
        }
        if may_end_at(w0, plen, grid, ckpt_at, prefix_cache, x) {
            let k = w0 / 512 + 1;
            assert(!(w0 < k * 512 < x));
        }
    }
}

/// The images of a checkpoint are those that start before its end, in their order.
pub proof fn law_a_checkpoint_keeps_the_images_before_it(imgs: Seq<ImageIdentity>, w1: usize)
    ensures
        images_before(imgs, w1) == imgs.filter(|i: ImageIdentity| i.start < w1),
    decreases imgs.len(),
{
    reveal(Seq::filter);
    if imgs.len() > 0 {
        law_a_checkpoint_keeps_the_images_before_it(imgs.drop_last(), w1);
    }
}

/// A lane that comes out of its prefill stands behind its prompt: its slot has consumed the prompt,
/// and the token to be fed is the one that the prefill chose, which counts as generated unless a
/// schema is to choose it. It keeps what was asked of it.
pub proof fn law_a_lane_starts_behind_its_prompt(
    before: BatchScheduler,
    after: BatchScheduler,
    tok: u32,
    df2_ok: bool,
    dspark_ok: bool,
    r: PfStep,
)
    requires
        before.pf is Some,
        before.pf->0.phys < before.slots.cache@.len(),
        runs_and_installs(before, after, tok, df2_ok, dspark_ok, r),
    ensures
        ({
            let c = before.pf->0;
            let l = after.lanes@.last();
            &&& after.pf is None
            &&& after.slots.cache@[l.phys as int]@ == c.prompt@
            &&& l.pos == c.prompt@.len()
            &&& l.last_tok == tok
            &&& l.history@ == seq![tok]
            &&& l.phys == c.phys
            &&& l.params == c.params
            &&& l.schema == c.schema
            &&& l.seed == c.seed
            &&& (c.schema is None ==> l.generated == 1)
            &&& (c.schema is Some ==> l.generated == 0 && r.first is None)
            &&& (r.first is Some ==> r.first == Some(tok) && !c.first_sent)
            &&& (!c.first_sent && c.schema is None && before.next_end() == c.prompt@.len()
                ==> r.first == Some(tok))
            &&& after.lanes@.len() == before.lanes@.len() + 1
        }),
{
}

/// A checkpoint that is taken is taken of the right place: where a window ends on the grid inside
/// the prompt and prefixes are kept, the state is copied to the slot's next ring checkpoint, which
/// then claims the length of the window's end. Other claims stay.
pub proof fn law_ring_checkpoints_claim_what_was_consumed(
    before: BatchScheduler,
    after: Slots,
    copies: Seq<(usize, usize)>,
    j: int,
)
    requires
        before.pf is Some,
        before.slots.wf(before.setup.max_batch as int),
        before.pf->0.phys < before.setup.max_batch,
        before.next_end() >= 0,
        before.next_end() <= usize::MAX,
        window_slots(before, after, copies),
        0 <= j < 16,
    ensures
        ({
            let s = before.pf->0.phys as int;
            let e = before.next_end();
            let next = before.slots.ring_cursor@[s];
            let due = before.setup.prefix_cache && e < before.pf->0.prompt@.len() && e % 512 == 0;
            &&& due && j == next ==> after.ring_len@[s]@[j] == e && copies.contains(
                (
                    s as usize,
                    (before.setup.layout.ring_ckpt_slot + s * 16 + j) as usize,
                ),
            )
            &&& !(due && j == next) ==> after.ring_len@[s]@[j] == before.slots.ring_len@[s]@[j]
            &&& due ==> after.ring_cursor@[s] == if next == 15 {
                0int
            } else {
                next + 1
            }
            &&& !due ==> after.ring_cursor@[s] == next
        }),
{
    reveal(window_slots);
    let s = before.pf->0.phys as int;
    let next = before.slots.ring_cursor@[s];
    assert(before.slots.ring_len@[s]@.len() == 16);
    assert(before.slots.ring_cursor@[s] < 16);
    if at_ring_checkpoint(before) {
        assert(copies.last() == (
            before.pf->0.phys,
            layout::ring_slot_of(before.setup.layout, s, next as int) as usize,
        ));
        assert(copies.contains(copies.last()));
    }
}

/// The checkpoint of a prompt holds the start of the prompt up to the asked place, with its images,
/// and its state is copied.
pub proof fn law_prompt_checkpoints_hold_the_start(
    before: BatchScheduler,
    after: Slots,
    copies: Seq<(usize, usize)>,
)
    requires
        before.pf is Some,
        before.slots.wf(before.setup.max_batch as int),
        before.pf->0.phys < before.setup.max_batch,
        0 <= before.next_end() <= usize::MAX,
        window_slots(before, after, copies),
        before.pf->0.ckpt_at is Some,
        before.pf->0.ckpt_at->0 == before.next_end(),
    ensures
        ({
            let s = before.pf->0.phys as int;
            let e = before.next_end();
            &&& after.ckpt_seq@[s]@ == before.pf->0.prompt@.take(e)
            &&& after.ckpt_images@[s]@ == before.pf->0.req_imgs@.filter(
                |i: ImageIdentity| i.start < e as usize,
            )
            &&& copies.contains(
                (s as usize, (before.setup.layout.prompt_ckpt_slot + s) as usize),
            )
        }),
{
    reveal(window_slots);
    law_a_checkpoint_keeps_the_images_before_it(
        before.pf->0.req_imgs@,
        before.next_end() as usize,
    );
    assert(copies[0] == (
        before.pf->0.phys,
        (before.setup.layout.prompt_ckpt_slot + before.pf->0.phys) as usize,
    ));
}


/// A lane without a checkpoint of its own keeps the end of its prompt: the checkpoint then holds the
/// whole prompt with its images, and the state is copied. Otherwise the checkpoint stays as it is and
/// nothing is copied.
pub proof fn law_the_end_of_a_prompt_is_kept(
    before: BatchScheduler,
    after: BatchScheduler,
    r: PfStep,
)
    requires
        before.pf is Some,
        before.slots.wf(before.setup.max_batch as int),
        before.pf->0.phys < before.setup.max_batch,
        installs(before, after, r),
    ensures
        ({
            let c = before.pf->0;
            let s = c.phys as int;
            let kept = before.setup.prefix_cache && (c.ckpt_at is None || c.grid_reuse);
            &&& kept ==> after.slots.ckpt_seq@[s]@ == c.prompt@ && after.slots.ckpt_images@[s]@
                == c.req_imgs@ && r.copies@.len() == 1 && r.copies@[0].0 == c.phys && r.copies@[0].1
                == (before.setup.layout.prompt_ckpt_slot + c.phys) as usize
            &&& !kept ==> after.slots.ckpt_seq@[s]@ == before.slots.ckpt_seq@[s]@
                && after.slots.ckpt_images@[s]@ == before.slots.ckpt_images@[s]@ && r.copies@.len()
                == 0
            &&& after.slots.cache@[s]@ == c.prompt@ && after.slots.cache_images@[s]@ == c.req_imgs@
            &&& forall|i: int|
                0 <= i < before.lanes@.len() ==> #[trigger] after.lanes@[i] == before.lanes@[i]
            &&& after.free_slots == before.free_slots
            &&& after.pf is None
            &&& after.resident_dirty
        }),
{
}

/// A drafter whose context was primed with a window stands behind it; one that failed is not used
/// for the request, and its ring is given up where it has one of its own.
pub proof fn law_a_failed_window_is_not_used(
    before: BatchScheduler,
    after: BatchScheduler,
    tok: u32,
    df2_ok: bool,
    dspark_ok: bool,
    r: PfStep,
)
    requires
        before.pf is Some,
        0 <= before.next_end() <= usize::MAX,
        window_ran(before, after, tok, df2_ok, dspark_ok, r),
    ensures
        ({
            let c = before.pf->0;
            let d = after.pf->0;
            let uses = c.will_use_df2 && before.df2 is Some && before.df2_prime;
            let sparks = c.will_use_dspark && before.dspark is Some && before.dspark_prime;
            &&& d.w0 == before.next_end() && d.first_tok == tok
            &&& uses && df2_ok ==> after.df2->0.nprev == before.next_end() && d.df2_primed_ok
                == c.df2_primed_ok
            &&& uses && !df2_ok ==> after.df2->0.ring_slot is None && after.df2->0.ring_len == 0
                && !d.df2_primed_ok
            &&& !uses ==> after.df2 == before.df2 && d.df2_primed_ok == c.df2_primed_ok
            &&& sparks && dspark_ok ==> after.dspark->0.nprev == before.next_end()
                && d.dspark_primed_ok == c.dspark_primed_ok
            &&& sparks && !dspark_ok ==> after.dspark == before.dspark && !d.dspark_primed_ok
            &&& !sparks ==> after.dspark == before.dspark && d.dspark_primed_ok == c.dspark_primed_ok
            &&& d.prompt == c.prompt && d.phys == c.phys && d.reuse == c.reuse && d.params == c.params
                && d.seed == c.seed && d.schema == c.schema
            &&& after.free_slots == before.free_slots && after.setup == before.setup
            &&& before.next_end() == c.prompt@.len() && before.dflash_prime_armed && before.dflash
                is Some ==> after.dflash->0.row0 == 0 && after.dflash->0.ncols == c.prompt@.len()
                && after.dflash_prime_done && !after.dflash_prime_armed
        }),
{
}

/// A lane's own drafter is primed where its context took in every window.
pub proof fn law_a_lane_is_primed_where_its_drafter_is(c: PfCursor, l: Lane)
    requires
        lane_of(c, l),
    ensures
        l.df2_primed <==> (c.will_use_df2 && c.df2_primed_ok) || (c.will_use_dspark
            && c.dspark_primed_ok),
        l.mtp_primed == c.will_use_mtp,
        !l.mtp_stale && !l.df2_stale && !l.tp_cancelled,
        c.prompt@.len() > 0 ==> l.mtp_pos + 1 == l.pos,
        c.schema matches Some(m) ==> l.schema_state == m.start_id(),
{
}

} // verus!
