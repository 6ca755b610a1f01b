//! A round of the block drafter: geometry, ring and frontier.

use vstd::prelude::*;

use crate::batch::penalty;
use crate::text;

verus! {

/// Drafts of a round.
pub const BLOCK: usize = 7;

/// Columns of a verify, and most rows that one step adds to the ring.
pub const COLUMNS: usize = 8;

/// Fewest rows of a ring.
pub const MIN_ROWS: usize = 1024;

/// Limit of a packed size.
pub const PACK_LIMIT: usize = 0x20_0000;

/// Sizes that follow from the rows of the ring.
#[derive(Clone, Copy, PartialEq, Eq, Structural, Debug)]
pub struct Geometry {
    /// Rows of the rotary tables.
    pub max_pos: usize,
    /// Rows of the ring; the block's rows stand behind them.
    pub c_ring: usize,
    pub ring_stride: usize,
    /// Scores of a row.
    pub score_stride: usize,
}

/// Rings that the packed arguments can describe.
pub open spec fn ring_fits(max_c: usize) -> bool {
    max_c >= MIN_ROWS && max_c + BLOCK + 8 < PACK_LIMIT
}

/// Rows of the rotary tables.
pub fn rope_rows(max_c: usize) -> (r: usize)
    requires
        max_c + BLOCK + 1 <= usize::MAX,
    ensures
        r == max_c + BLOCK + 1,
{
    max_c + BLOCK + 1
}

/// The sizes of a ring; none where the packed arguments cannot describe it.
pub fn geometry(max_c: usize) -> (r: Option<Geometry>)
    ensures
        r == if ring_fits(max_c) {
            Some(
                Geometry {
                    max_pos: (max_c + BLOCK + 1) as usize,
                    c_ring: max_c,
                    ring_stride: (max_c + 8) as usize,
                    score_stride: (max_c + BLOCK) as usize,
                },
            )
        } else {
            None
        },
{
    if max_c < MIN_ROWS || max_c >= PACK_LIMIT - BLOCK - 8 {
        return None;
    }
    Some(
        Geometry {
            max_pos: rope_rows(max_c),
            c_ring: max_c,
            ring_stride: max_c + 8,
            score_stride: max_c + BLOCK,
        },
    )
}

/// What a ring that does not fit is answered.
pub open spec fn range_text(max_c: usize) -> Seq<char> {
    "dspark max_c "@ + text::decimal(max_c as nat)
        + " out of the packed-arg range (1024..=2097136); larger contexts need the ntot_dev arm"@
}

/// What a ring that does not fit is answered.
pub fn range_message(max_c: usize) -> (r: String)
    ensures
        r@ == range_text(max_c),
{
    let mut r = String::from_str("dspark max_c ");
    r.append(text::to_decimal(max_c as u64).as_str());
    r.append(
        " out of the packed-arg range (1024..=2097136); larger contexts need the ntot_dev arm",
    );
    r
}

/// Rows attended to, rows of the ring and its stride, in one word.
pub open spec fn packed_rows(ntot: u64, c_ring: u64, stride: u64) -> u64 {
    (ntot << 42) | (c_ring << 21) | stride
}

/// Packs the rows that a layer attends to, the rows of the ring and its stride.
pub fn pack_rows(ntot: usize, c_ring: usize, stride: usize) -> (r: u64)
    ensures
        r == packed_rows(ntot as u64, c_ring as u64, stride as u64),
{
    ((ntot as u64) << 42) | ((c_ring as u64) << 21) | stride as u64
}

/// Packed rows can be taken apart again, for every ring that fits and every frontier in it.
pub proof fn law_rows_can_be_unpacked(max_c: usize, nprev: usize)
    requires
        ring_fits(max_c),
        nprev <= max_c,
    ensures
        ({
            let p = packed_rows((nprev + BLOCK) as u64, max_c as u64, (max_c + 8) as u64);
            &&& p >> 42 == nprev + BLOCK
            &&& (p >> 21) & 0x1F_FFFF == max_c
            &&& p & 0x1F_FFFF == max_c + 8
        }),
{
    let n = (nprev + BLOCK) as u64;
    let c = max_c as u64;
    let s = (max_c + 8) as u64;
    let p = (n << 42) | (c << 21) | s;
    assert(p >> 42 == n && (p >> 21) & 0x1F_FFFF == c && p & 0x1F_FFFF == s) by (bit_vector)
        requires
            n < 0x40_0000,
            c < 0x20_0000,
            s < 0x20_0000,
            p == (n << 42) | (c << 21) | s,
    ;
}

/// Positions of consecutive rows.
pub open spec fn rows_from(first: int, n: int) -> Seq<i32> {
    Seq::new(n as nat, |j: int| (first + j) as i32)
}

fn list_rows(first: usize, n: usize) -> (v: Vec<i32>)
    requires
        first + n <= i32::MAX,
    ensures
        v@ == rows_from(first as int, n as int),
{
    let mut v: Vec<i32> = Vec::new();
    while v.len() < n
        invariant
            first + n <= i32::MAX,
            v@.len() <= n,
            v@ == rows_from(first as int, v@.len() as int),
        decreases n - v@.len(),
    {
        let j: usize = v.len();
        v.push((first + j) as i32);
        assert(v@ =~= rows_from(first as int, j + 1));
    }
    v
}

/// Where the ring stands: rows `0..nprev` hold the keys and values of a committed sequence, and
/// `ring_slot` names the slot whose sequence it is, where that is known.
#[derive(Clone, Copy, PartialEq, Eq, Structural, Debug)]
pub struct DsparkRound {
    pub nprev: usize,
    /// Rows of the ring.
    pub max_c: usize,
    pub ring_slot: Option<usize>,
}

impl DsparkRound {
    pub fn nprev(&self) -> (r: usize)
        ensures
            r == self.nprev,
    {
        self.nprev
    }

    pub fn max_c(&self) -> (r: usize)
        ensures
            r == self.max_c,
    {
        self.max_c
    }

    /// The slot whose committed prefix the ring reflects.
    pub fn ring_slot(&self) -> (r: Option<usize>)
        ensures
            r == self.ring_slot,
    {
        self.ring_slot
    }

    /// Binds the ring to a slot.
    pub fn note_ring(&mut self, slot: usize)
        ensures
            *final(self) == (DsparkRound { ring_slot: Some(slot), ..*old(self) }),
    {
        self.ring_slot = Some(slot);
    }

    /// Drops the claim: the ring can no longer be attributed to a slot.
    pub fn invalidate_ring(&mut self)
        ensures
            *final(self) == (DsparkRound { ring_slot: None, ..*old(self) }),
    {
        self.ring_slot = None;
    }

    /// Drops the rows and the claim.
    pub fn reset(&mut self)
        ensures
            *final(self) == (DsparkRound { nprev: 0, ring_slot: None, ..*old(self) }),
    {
        self.nprev = 0;
        self.ring_slot = None;
    }

    /// Moves the frontier. Whose rows these are does not change.
    pub fn rewind(&mut self, nprev: usize)
        ensures
            *final(self) == (DsparkRound { nprev, ..*old(self) }),
    {
        self.nprev = nprev;
    }

    /// The ring is one that the packed arguments can describe.
    pub open spec fn wf(&self) -> bool {
        ring_fits(self.max_c)
    }

    /// Takes in `n` positions of a prompt, from `pos_start` on. Returns their positions, which are
    /// also their rows: the ring does not wrap.
    pub fn prime_window(&mut self, n: usize, pos_start: usize) -> (rows: Vec<i32>)
        requires
            old(self).wf(),
            n >= 1,
            pos_start + n <= old(self).max_c,
        ensures
            *final(self) == (DsparkRound { nprev: (pos_start + n) as usize, ..*old(self) }),
            rows@ == rows_from(pos_start as int, n as int),
    {
        let rows = list_rows(pos_start, n);
        self.nprev = pos_start + n;
        rows
    }

    /// Takes in `m` committed positions at the frontier. Returns their rows, filled up to the
    /// columns of a verify.
    pub fn inject_dev(&mut self, m: usize) -> (rows: Vec<i32>)
        requires
            old(self).wf(),
            m <= COLUMNS,
            old(self).nprev + m <= old(self).max_c,
        ensures
            *final(self) == (DsparkRound { nprev: (old(self).nprev + m) as usize, ..*old(self) }),
            rows@ == rows_from(old(self).nprev as int, m as int) + Seq::new(
                (COLUMNS - m) as nat,
                |j: int| 0i32,
            ),
    {
        let ghost first = self.nprev as int;
        let mut rows = list_rows(self.nprev, m);
        while rows.len() < COLUMNS
            invariant
                m <= rows@.len() <= COLUMNS,
                rows@ == rows_from(first, m as int) + Seq::new(
                    (rows@.len() - m) as nat,
                    |j: int| 0i32,
                ),
            decreases COLUMNS - rows@.len(),
        {
            let ghost k = rows@.len();
            rows.push(0);
            assert(rows@ =~= rows_from(first, m as int) + Seq::new(
                (k + 1 - m) as nat,
                |j: int| 0i32,
            ));
        }
        self.nprev = self.nprev + m;
        rows
    }

    /// The scalars of a round: the anchor, the frontier, the rows of the ring, and a shift of the
    /// block's positions.
    pub fn upload_scalars(&self, anchor: u32, shift: i32) -> (r: Vec<i32>)
        requires
            self.wf(),
            self.nprev <= self.max_c,
        ensures
            r@ == seq![penalty::on_device(anchor), self.nprev as i32, self.max_c as i32, shift],
    {
        let mut r: Vec<i32> = Vec::new();
        r.push(penalty::device_token(anchor));
        r.push(self.nprev as i32);
        r.push(self.max_c as i32);
        r.push(shift);
        assert(r@ =~= seq![
            penalty::on_device(anchor),
            self.nprev as i32,
            self.max_c as i32,
            shift,
        ]);
        r
    }
}


/// Rows are consecutive, from the first on.
pub proof fn law_rows_are_consecutive(first: int, n: int, j: int)
    requires
        0 <= first,
        first + n <= i32::MAX,
        0 <= j < n,
    ensures
        rows_from(first, n).len() == n,
        rows_from(first, n)[j] == first + j,
{
}

/// A ring fits exactly where it has 1024 rows or more and its sizes can be packed.
pub proof fn law_rings_fit_between_their_limits(max_c: usize)
    ensures
        ring_fits(max_c) <==> 1024 <= max_c <= 2097136,
{
}

} // verus!
