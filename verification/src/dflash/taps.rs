//! Captures of the target's hidden states: which layers are tapped, and where a capture goes.

use vstd::prelude::*;

use crate::dflash::config::{MAX_BLOCK, MAX_TAPS};
use crate::text;

verus! {

/// Where the captures go. The staging has a row of `h` elements per tapped layer in each column.
/// A wide target, where there is one, has a column per position.
pub struct DflashTapSink {
    pub h: usize,
    pub layers: Vec<usize>,
    /// Positions of the wide target.
    pub wide_stride: Option<usize>,
    /// Position of the first column that the next forward captures.
    pub wide_pos: usize,
}

/// A copy of a rectangle between buffers; widths and pitches in bytes. The source starts at its
/// buffer's start.
#[derive(Clone, Copy, PartialEq, Eq, Structural, Debug)]
pub struct Copy2d {
    pub src_pitch: usize,
    pub dst_x: usize,
    pub dst_y: usize,
    pub dst_pitch: usize,
    pub width: usize,
    pub height: usize,
}

impl Copy2d {
    /// Where byte `x` of row `r` goes.
    pub open spec fn target(self, r: int, x: int) -> int {
        (self.dst_y + r) * self.dst_pitch + self.dst_x + x
    }

    /// Byte `x` of row `r` is copied.
    pub open spec fn copies(self, r: int, x: int) -> bool {
        0 <= r < self.height && 0 <= x < self.width
    }
}

/// The first place at or behind `i` at which `li` stands.
pub open spec fn tap_from(layers: Seq<usize>, li: usize, i: int) -> Option<int>
    decreases layers.len() - i,
{
    if i < 0 || i >= layers.len() {
        None
    } else if layers[i] == li {
        Some(i)
    } else {
        tap_from(layers, li, i + 1)
    }
}

/// The copy of `n` columns of two-byte elements into row `tap_li` of the columns from `dst_y` on.
pub open spec fn capture(pitch: int, dst_y: usize, h: int, n: usize, tap_li: int) -> Copy2d {
    Copy2d {
        src_pitch: (h * 2) as usize,
        dst_x: (tap_li * h * 2) as usize,
        dst_y,
        dst_pitch: (pitch * 2) as usize,
        width: (h * 2) as usize,
        height: n,
    }
}

impl DflashTapSink {
    /// Some layers are tapped, and the staging can be addressed.
    pub open spec fn wf(&self) -> bool {
        &&& 0 < self.layers@.len() <= MAX_TAPS
        &&& self.h * 256 <= usize::MAX
    }

    /// Bytes of the staging.
    pub open spec fn staging_bytes(&self) -> int {
        MAX_TAPS * self.h * MAX_BLOCK * 2
    }

    /// A sink without a wide target.
    pub fn new(h: usize, layers: Vec<usize>) -> (s: DflashTapSink)
        requires
            0 < layers@.len() <= MAX_TAPS,
            h * 256 <= usize::MAX,
        ensures
            s.wf(),
            s.h == h,
            s.layers == layers,
            s.wide_stride is None,
            s.wide_pos == 0,
    {
        DflashTapSink { h, layers, wide_stride: None, wide_pos: 0 }
    }

    /// Sets up the wide target.
    pub fn arm_wide(&mut self, stride: usize)
        ensures
            *final(self) == (DflashTapSink { wide_stride: Some(stride), ..*old(self) }),
    {
        self.wide_stride = Some(stride);
    }

    /// Sets the position of the next forward.
    pub fn set_wide_pos(&mut self, p: usize)
        ensures
            *final(self) == (DflashTapSink { wide_pos: p, ..*old(self) }),
    {
        self.wide_pos = p;
    }

    /// Place of a layer among the tapped layers.
    pub fn tap_index(&self, li: usize) -> (r: Option<usize>)
        ensures
            match tap_from(self.layers@, li, 0) {
                Some(i) => r == Some(i as usize) && 0 <= i < self.layers@.len(),
                None => r is None,
            },
    {
        let mut i: usize = 0;
        while i < self.layers.len()
            invariant
                i <= self.layers@.len(),
                tap_from(self.layers@, li, 0) == tap_from(self.layers@, li, i as int),
            decreases self.layers@.len() - i,
        {
            if self.layers[i] == li {
                return Some(i);
            }
            i += 1;
        }
        None
    }
}

/// The copy of one tapped layer into a buffer of columns of `dst_pitch_elems` elements.
pub fn tap_capture_to(
    dst_pitch_elems: usize,
    dst_y: usize,
    h: usize,
    n: usize,
    tap_li: usize,
) -> (c: Copy2d)
    requires
        dst_pitch_elems * 2 <= usize::MAX,
        h * 2 <= usize::MAX,
        tap_li * h * 2 <= usize::MAX,
    ensures
        c == capture(dst_pitch_elems as int, dst_y, h as int, n, tap_li as int),
{
    proof {
        assert(tap_li * h <= tap_li * h * 2) by (nonlinear_arith);
    }
    Copy2d {
        src_pitch: h * 2,
        dst_x: tap_li * h * 2,
        dst_y,
        dst_pitch: dst_pitch_elems * 2,
        width: h * 2,
        height: n,
    }
}

/// The copy of one tapped layer into the staging.
pub fn tap_capture(sink: &DflashTapSink, n: usize, tap_li: usize) -> (c: Copy2d)
    requires
        sink.wf(),
        n <= MAX_BLOCK,
        tap_li < sink.layers@.len(),
    ensures
        c == capture(sink.layers@.len() * sink.h, 0, sink.h as int, n, tap_li as int),
{
    let nctx: usize = sink.layers.len();
    let h: usize = sink.h;
    proof {
        assert(nctx * h <= 8 * h && tap_li * h <= 8 * h) by (nonlinear_arith)
            requires
                nctx <= 8,
                tap_li < nctx,
                0 <= h,
        ;
    }
    tap_capture_to(nctx * h, 0, h, n, tap_li)
}

/// A capture never writes outside of the staging.
pub proof fn law_captures_stay_inside(
    sink: DflashTapSink,
    n: usize,
    tap_li: int,
    r: int,
    x: int,
)
    requires
        sink.wf(),
        n <= MAX_BLOCK,
        0 <= tap_li < sink.layers@.len(),
        capture(sink.layers@.len() * sink.h, 0, sink.h as int, n, tap_li).copies(r, x),
    ensures
        0 <= capture(sink.layers@.len() * sink.h, 0, sink.h as int, n, tap_li).target(r, x)
            < sink.staging_bytes(),
{
    let h = sink.h as int;
    let k = sink.layers@.len() as int;
    lemma_sizes(h, k, tap_li);
    assert(0 <= r * (k * h * 2) + tap_li * h * 2 + x < 8 * h * 16 * 2) by (nonlinear_arith)
        requires
            0 <= r < 16,
            0 <= tap_li < k,
            k <= 8,
            0 <= x < h * 2,
    ;
}

/// Captures of different layers, and different columns, do not overlap.
pub proof fn law_captures_do_not_overlap(
    sink: DflashTapSink,
    n: usize,
    a: int,
    b: int,
    ra: int,
    rb: int,
    xa: int,
    xb: int,
)
    requires
        sink.wf(),
        n <= MAX_BLOCK,
        0 <= a < sink.layers@.len(),
        0 <= b < sink.layers@.len(),
        capture(sink.layers@.len() * sink.h, 0, sink.h as int, n, a).copies(ra, xa),
        capture(sink.layers@.len() * sink.h, 0, sink.h as int, n, b).copies(rb, xb),
        capture(sink.layers@.len() * sink.h, 0, sink.h as int, n, a).target(ra, xa) == capture(
            sink.layers@.len() * sink.h,
            0,
            sink.h as int,
            n,
            b,
        ).target(rb, xb),
    ensures
        a == b && ra == rb && xa == xb,
{
    let h = sink.h as int;
    let k = sink.layers@.len() as int;
    lemma_sizes(h, k, a);
    lemma_sizes(h, k, b);
    let w = h * 2;
    assert(k * h * 2 == k * w && a * h * 2 == a * w && b * h * 2 == b * w) by (nonlinear_arith)
        requires
            w == h * 2,
    ;
    let ia = ra * k + a;
    let ib = rb * k + b;
    assert(ra * (k * w) + a * w == ia * w && rb * (k * w) + b * w == ib * w)
        by (nonlinear_arith)
        requires
            ia == ra * k + a,
            ib == rb * k + b,
    ;
    lemma_digits(ia, ib, xa, xb, w);
    lemma_digits(ra, rb, a, b, k);
}

proof fn lemma_sizes(h: int, k: int, t: int)
    requires
        0 <= h,
        h * 256 <= usize::MAX,
        0 <= t < k <= 8,
    ensures
        0 <= k * h * 2 <= usize::MAX,
        0 <= t * h * 2 <= usize::MAX,
        0 <= h * 2 <= usize::MAX,
{
    assert(0 <= k * h <= 8 * h && 0 <= t * h <= 8 * h) by (nonlinear_arith)
        requires
            0 <= t < k <= 8,
            0 <= h,
    ;
}

/// A number has one quotient and one remainder.
proof fn lemma_digits(qa: int, qb: int, ra: int, rb: int, d: int)
    requires
        0 <= ra < d,
        0 <= rb < d,
        qa * d + ra == qb * d + rb,
    ensures
        qa == qb,
        ra == rb,
{
    assert(qa == qb) by (nonlinear_arith)
        requires
            0 <= ra < d,
            0 <= rb < d,
            qa * d + ra == qb * d + rb,
    ;
}

/// True when `n` captured columns from position `p0` on lie in a wide target of `stride`
/// positions. Where they do not, the capture is left out.
pub fn capture_fits(p0: usize, n: usize, stride: usize) -> (r: bool)
    ensures
        r == (p0 + n <= stride),
{
    p0 <= stride && n <= stride - p0
}

/// What is said of a capture that was left out.
pub open spec fn skip_message(p0: nat, n: nat, stride: nat) -> Seq<char> {
    "[dflash] WARNING: wide tap capture SKIPPED \u{2014} window ["@ + text::decimal(p0) + ", "@
        + text::decimal(p0 + n) + ") exceeds the ctx surface stride "@ + text::decimal(stride)
        + "; the drafter would condition on stale ctx columns. (Raise --max-seq-len or shrink the prefill window.)"@
}

/// The warning for a capture that was left out.
pub fn warn_wide_skip(p0: usize, n: usize, stride: usize) -> (r: String)
    requires
        p0 + n <= u64::MAX,
    ensures
        r@ == skip_message(p0 as nat, n as nat, stride as nat),
{
    let a = text::to_decimal(p0 as u64);
    let b = text::to_decimal(p0 as u64 + n as u64);
    let c = text::to_decimal(stride as u64);
    String::from_str("[dflash] WARNING: wide tap capture SKIPPED \u{2014} window [").concat(
        a.as_str(),
    ).concat(", ").concat(b.as_str()).concat(") exceeds the ctx surface stride ").concat(
        c.as_str(),
    ).concat(
        "; the drafter would condition on stale ctx columns. (Raise --max-seq-len or shrink the prefill window.)",
    )
}


/// A layer is tapped exactly where it is listed, and its tap is its first place in the list.
pub proof fn law_taps_are_found_by_layer(layers: Seq<usize>, li: usize, from: int)
    requires
        0 <= from,
    ensures
        match tap_from(layers, li, from) {
            Some(i) => from <= i < layers.len() && layers[i] == li && forall|k: int|
                from <= k < i ==> #[trigger] layers[k] != li,
            None => forall|k: int| from <= k < layers.len() ==> #[trigger] layers[k] != li,
        },
    decreases layers.len() - from,
{
    if from < layers.len() && layers[from] != li {
        law_taps_are_found_by_layer(layers, li, from + 1);
    }
}

/// A capture copies the whole of each column, two bytes per value, into the tap's part of a row: the
/// taps of a row stand one behind the other.
pub proof fn law_a_capture_fills_its_part_of_a_row(
    pitch: int,
    dst_y: usize,
    h: int,
    n: usize,
    tap: int,
    r: int,
    x: int,
)
    requires
        0 <= pitch && pitch * 2 <= usize::MAX,
        0 <= h && h * 2 <= usize::MAX,
        0 <= tap && 0 <= tap * h && tap * h * 2 <= usize::MAX,
        0 <= r < n,
        0 <= x < 2 * h,
    ensures
        ({
            let c = capture(pitch, dst_y, h, n, tap);
            &&& c.copies(r, x)
            &&& !c.copies(r, 2 * h)
            &&& !c.copies(n as int, x)
            &&& c.src_pitch == 2 * h
            &&& c.target(r, x) == 2 * pitch * (dst_y + r) + 2 * h * tap + x
        }),
{
    assert((dst_y + r) * (pitch * 2) == 2 * pitch * (dst_y + r)) by (nonlinear_arith);
    assert(tap * h * 2 == 2 * h * tap) by (nonlinear_arith);
}

} // verus!
