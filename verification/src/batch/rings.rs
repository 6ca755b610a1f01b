//! The ring of the selector round.

use vstd::prelude::*;

verus! {

/// Where the ring stands. It wraps, so a claim on it names the frontier at which it was made:
/// `ring_len` tokens of the slot `ring_slot`.
#[derive(Clone, Copy, PartialEq, Eq, Structural, Debug)]
pub struct Df2Ring {
    pub nprev: usize,
    pub ring_slot: Option<usize>,
    pub ring_len: usize,
}

impl Df2Ring {
    /// Binds the ring to a slot at the committed frontier.
    pub fn note_ring(&mut self, slot: usize)
        ensures
            *final(self) == (Df2Ring {
                ring_slot: Some(slot),
                ring_len: old(self).nprev,
                ..*old(self)
            }),
    {
        self.ring_slot = Some(slot);
        self.ring_len = self.nprev;
    }

    /// Drops the claim.
    pub fn invalidate_ring(&mut self)
        ensures
            *final(self) == (Df2Ring { ring_slot: None, ring_len: 0, ..*old(self) }),
    {
        self.ring_slot = None;
        self.ring_len = 0;
    }

    /// Drops the rows and the claim.
    pub fn reset(&mut self)
        ensures
            *final(self) == (Df2Ring { nprev: 0, ring_slot: None, ring_len: 0 }),
    {
        self.nprev = 0;
        self.ring_slot = None;
        self.ring_len = 0;
    }

    /// Moves the frontier. Whose rows these are does not change.
    pub fn rewind(&mut self, nprev: usize)
        ensures
            *final(self) == (Df2Ring { nprev, ..*old(self) }),
    {
        self.nprev = nprev;
    }
}

} // verus!
