//! Taking a byte back.

use vstd::prelude::*;

use crate::json_schema::machine::{Frame, FrameView};
use crate::json_schema::state::Machine;

verus! {

/// Undo log of one byte: the frames that were popped, top first. Frames change only after they
/// were popped, so these frames and the untouched ones below them are the stack before the byte.
pub struct Roll {
    /// False: nothing is logged.
    on: bool,
    orig_len: usize,
    frames: Vec<(usize, Frame)>,
}

impl Roll {
    /// The logged frames and the rest of `cur` below them make up `orig`.
    pub closed spec fn covers(self, orig: Seq<FrameView>, cur: Seq<FrameView>) -> bool {
        let k = self.frames@.len();
        &&& self.on
        &&& self.orig_len == orig.len()
        &&& k <= orig.len()
        &&& orig.len() - k <= cur.len()
        &&& forall|j: int|
            0 <= j < k ==> (#[trigger] self.frames@[j]).0 == orig.len() - 1 - j && self.frames@[j].1@
                == orig[orig.len() - 1 - j]
        &&& forall|j: int| 0 <= j < orig.len() - k ==> #[trigger] cur[j] == orig[j]
    }

    pub closed spec fn logs(self) -> bool {
        self.on
    }

    /// A log for a byte that is about to be fed to a stack of `orig_len` frames.
    pub fn new(orig_len: usize) -> (r: Roll)
        ensures
            r.logs(),
            forall|s: Seq<FrameView>| s.len() == orig_len ==> #[trigger] r.covers(s, s),
    {
        Roll { on: true, orig_len, frames: Vec::new() }
    }

    /// A log that keeps nothing.
    pub fn off() -> (r: Roll)
        ensures
            !r.logs(),
    {
        Roll { on: false, orig_len: 0, frames: Vec::new() }
    }

    /// Notes that the frame `f` at `idx` is about to be popped.
    pub fn note_pop(&mut self, idx: usize, f: &Frame)
        ensures
            final(self).logs() == old(self).logs(),
            forall|orig: Seq<FrameView>, cur: Seq<FrameView>|
                old(self).covers(orig, cur) && cur.len() == idx + 1 && cur[idx as int] == f@
                    ==> #[trigger] final(self).covers(orig, cur.drop_last()),
    {
        if !self.on || idx >= self.orig_len {
            return;
        }
        if self.frames.len() >= self.orig_len - idx {
            // Logged before.
            return;
        }
        self.frames.push((idx, f.duplicate()));
    }

    /// Puts the stack back as it was before the byte.
    pub fn restore(&self, m: &mut Machine, Ghost(orig): Ghost<Seq<FrameView>>)
        requires
            self.covers(orig, old(m)@),
        ensures
            final(m)@ == orig,
    {
        let k: usize = self.frames.len();
        let base: usize = self.orig_len - k;
        let ghost cur = m@;
        m.stack.truncate(base);
        assert forall|j: int| 0 <= j < base implies #[trigger] m@[j] == orig[j] by {
            assert(cur[j] == orig[j]);
        }
        let mut i: usize = k;
        while i > 0
            invariant
                i <= k,
                k == self.frames.len(),
                self.covers(orig, cur),
                base == orig.len() - k,
                m.stack.len() == base + (k - i),
                forall|j: int| 0 <= j < m.stack.len() ==> #[trigger] m@[j] == orig[j],
            decreases i,
        {
            i -= 1;
            let ghost before = m@;
            m.stack.push(self.frames[i].1.duplicate());
            assert(self.frames@[i as int].1@ == orig[orig.len() - 1 - i]);
            assert(forall|j: int| 0 <= j < before.len() ==> #[trigger] m@[j] == before[j]);
        }
        assert(m@ =~= orig);
    }

    /// What lies above the frames that count does not matter.
    pub proof fn lemma_covers_longer(
        self,
        orig: Seq<FrameView>,
        cur: Seq<FrameView>,
        longer: Seq<FrameView>,
    )
        requires
            self.covers(orig, cur),
            cur.len() <= longer.len(),
            forall|j: int| 0 <= j < cur.len() ==> #[trigger] longer[j] == cur[j],
        ensures
            self.covers(orig, longer),
    {
        assert forall|j: int| 0 <= j < orig.len() - self.frames@.len() implies #[trigger] longer[j]
            == orig[j] by {
            assert(cur[j] == orig[j]);
        }
    }
}

} // verus!
