//! A forward of the drafter: what it checks, and the kernels that it runs, in order.
//!
//! The columns of context that are appended end where the block starts. Keys and values of both go
//! into the layer's cache before the layer attends, so every row that attention reads has been
//! written.

use vstd::prelude::*;

use crate::dflash::config::{DflashCfg, MAX_BLOCK};
use crate::dflash::shape;

verus! {

/// Buffers of a forward.
#[derive(Clone, Copy, PartialEq, Eq, Structural, Debug)]
pub enum Buf {
    /// The context feature.
    Feature,
    /// The context after the shared projection.
    Cond,
    Hidden,
    Normed,
    QRaw,
    KRaw,
    Q,
    KBlock,
    VBlock,
    KCtx,
    VCtx,
    Attn,
    AttnOut,
    Gate,
    Up,
    MlpOut,
    Last,
}

/// Matrices of the artifact; a layer's carry its number.
#[derive(Clone, Copy, PartialEq, Eq, Structural, Debug)]
pub enum Matrix {
    Fc,
    Q(usize),
    K(usize),
    V(usize),
    O(usize),
    Gate(usize),
    Up(usize),
    Down(usize),
}

/// Norms of the artifact; a layer's carry its number.
#[derive(Clone, Copy, PartialEq, Eq, Structural, Debug)]
pub enum NormWeight {
    Hidden,
    Input(usize),
    Post(usize),
    Query(usize),
    Key(usize),
    Last,
}

/// One kernel.
#[allow(inconsistent_fields)]
#[derive(Clone, Copy, PartialEq, Eq, Structural, Debug)]
pub enum Op {
    /// `out = w x`, over `batch` columns.
    Gemm { w: Matrix, x: Buf, out: Buf, inn: usize, outn: usize, batch: usize },
    /// Normalizes `heads` groups of `n` values per column.
    Norm { x: Buf, out: Buf, w: NormWeight, heads: usize, n: usize, batch: usize },
    /// The embeddings of the block's tokens.
    Noise { batch: usize },
    /// Rotates `heads` heads per column; the first column stands at position `pos`.
    Rope { x: Buf, heads: usize, pos: usize, batch: usize },
    /// Writes keys and values of the context to rows `row..row + n` of a layer's cache.
    WriteContext { layer: usize, row: usize, n: usize },
    /// Writes keys and values of the block to rows `row..row + n` of a layer's cache.
    WriteBlock { layer: usize, row: usize, n: usize },
    /// The block attends to rows `0..keys` of a layer's cache.
    Attend { layer: usize, keys: usize, mask: u64, batch: usize },
    /// `hidden += x`.
    AddResidual { x: Buf, n: usize },
    /// `gate = silu(gate) * up`.
    SiluMul { n: usize },
}

/// What a forward is asked to do.
#[derive(Clone, Copy, PartialEq, Eq, Structural, Debug)]
pub struct Ask {
    /// Columns of context that are appended.
    pub ctx_len: usize,
    /// Row of the first of them.
    pub ctx_row0: usize,
    /// Tokens of the block.
    pub q: usize,
    /// Position of the first of them.
    pub pos_start: usize,
    /// Rows of a cache.
    pub stride: usize,
    /// Values of the context feature.
    pub feature: usize,
}

/// Why a forward is refused.
#[derive(Clone, Copy, PartialEq, Eq, Structural, Debug)]
pub enum ForwardError {
    /// The block is empty or too long.
    Block,
    /// The cache is too short.
    Stride,
    /// The feature has another size.
    Feature,
    /// The context does not end where the block starts.
    Frontier,
}

/// The sizes that a forward multiplies stay within the machine's.
pub open spec fn measurable(c: DflashCfg, a: Ask) -> bool {
    &&& a.ctx_row0 + a.ctx_len + a.q <= usize::MAX
    &&& c.tap_layers@.len() * c.h * a.ctx_len <= usize::MAX
    &&& c.tap_layers@.len() * c.h <= usize::MAX
    &&& c.nh * c.hd <= usize::MAX
    &&& c.nkv * c.hd <= usize::MAX
    &&& c.h * MAX_BLOCK <= usize::MAX
    &&& c.inter * MAX_BLOCK <= usize::MAX
}

/// What is wrong with a forward first; `None` where nothing is.
pub open spec fn objection(c: DflashCfg, a: Ask) -> Option<ForwardError> {
    if !(0 < a.q <= c.block && a.q <= MAX_BLOCK) {
        Some(ForwardError::Block)
    } else if a.stride < a.ctx_row0 + a.ctx_len + a.q {
        Some(ForwardError::Stride)
    } else if a.feature != c.tap_layers@.len() * c.h * a.ctx_len {
        Some(ForwardError::Feature)
    } else if a.ctx_row0 + a.ctx_len != a.pos_start {
        Some(ForwardError::Frontier)
    } else {
        None
    }
}

/// The mask of a layer: a sliding layer is causal and has the window, another sees everything.
pub open spec fn layer_mask(c: DflashCfg, a: Ask, l: int) -> u64 {
    let slides = l < c.sliding@.len() && c.sliding@[l];
    shape::packed_mask(
        (a.ctx_row0 + a.ctx_len) as usize,
        slides,
        if slides {
            c.sliding_window
        } else {
            0
        },
    )
}

/// The kernels of layer `l`.
pub open spec fn layer_ops(c: DflashCfg, a: Ask, l: int) -> Seq<Op> {
    let n = l as usize;
    let h = c.h;
    let qw = (c.nh * c.hd) as usize;
    let kw = (c.nkv * c.hd) as usize;
    let q = a.q;
    let m = a.ctx_len;
    let ctx_pos = (a.pos_start - a.ctx_len) as usize;
    seq![
        Op::Norm { x: Buf::Hidden, out: Buf::Normed, w: NormWeight::Input(n), heads: 1, n: h, batch: q },
        Op::Gemm { w: Matrix::Q(n), x: Buf::Normed, out: Buf::QRaw, inn: h, outn: qw, batch: q },
        Op::Gemm { w: Matrix::K(n), x: Buf::Normed, out: Buf::KRaw, inn: h, outn: kw, batch: q },
        Op::Gemm { w: Matrix::V(n), x: Buf::Normed, out: Buf::VBlock, inn: h, outn: kw, batch: q },
        Op::Gemm { w: Matrix::K(n), x: Buf::Cond, out: Buf::KCtx, inn: h, outn: kw, batch: m },
        Op::Gemm { w: Matrix::V(n), x: Buf::Cond, out: Buf::VCtx, inn: h, outn: kw, batch: m },
        Op::Norm { x: Buf::QRaw, out: Buf::Q, w: NormWeight::Query(n), heads: c.nh, n: c.hd, batch: q },
        Op::Norm { x: Buf::KRaw, out: Buf::KBlock, w: NormWeight::Key(n), heads: c.nkv, n: c.hd, batch: q },
        Op::Norm { x: Buf::KCtx, out: Buf::KCtx, w: NormWeight::Key(n), heads: c.nkv, n: c.hd, batch: m },
        Op::Rope { x: Buf::Q, heads: c.nh, pos: a.pos_start, batch: q },
        Op::Rope { x: Buf::KBlock, heads: c.nkv, pos: a.pos_start, batch: q },
        Op::Rope { x: Buf::KCtx, heads: c.nkv, pos: ctx_pos, batch: m },
        Op::WriteContext { layer: n, row: a.ctx_row0, n: m },
        Op::WriteBlock { layer: n, row: a.pos_start, n: q },
        Op::Attend {
            layer: n,
            keys: (a.ctx_row0 + a.ctx_len + a.q) as usize,
            mask: layer_mask(c, a, l),
            batch: q,
        },
        Op::Gemm { w: Matrix::O(n), x: Buf::Attn, out: Buf::AttnOut, inn: qw, outn: h, batch: q },
        Op::AddResidual { x: Buf::AttnOut, n: (h * q) as usize },
        Op::Norm { x: Buf::Hidden, out: Buf::Normed, w: NormWeight::Post(n), heads: 1, n: h, batch: q },
        Op::Gemm { w: Matrix::Gate(n), x: Buf::Normed, out: Buf::Gate, inn: h, outn: c.inter, batch: q },
        Op::Gemm { w: Matrix::Up(n), x: Buf::Normed, out: Buf::Up, inn: h, outn: c.inter, batch: q },
        Op::SiluMul { n: (c.inter * q) as usize },
        Op::Gemm { w: Matrix::Down(n), x: Buf::Gate, out: Buf::MlpOut, inn: c.inter, outn: h, batch: q },
        Op::AddResidual { x: Buf::MlpOut, n: (h * q) as usize },
    ]
}

/// The kernels of the first `n` layers.
pub open spec fn layers_ops(c: DflashCfg, a: Ask, n: int) -> Seq<Op>
    decreases n,
{
    if n <= 0 {
        Seq::empty()
    } else {
        layers_ops(c, a, n - 1) + layer_ops(c, a, n - 1)
    }
}

/// The kernels before the first layer: the context's shared projection and the block's embeddings.
pub open spec fn opening_ops(c: DflashCfg, a: Ask) -> Seq<Op> {
    let width = (c.tap_layers@.len() * c.h) as usize;
    seq![
        Op::Gemm {
            w: Matrix::Fc,
            x: Buf::Feature,
            out: Buf::Cond,
            inn: width,
            outn: c.h,
            batch: a.ctx_len,
        },
        Op::Norm {
            x: Buf::Cond,
            out: Buf::Cond,
            w: NormWeight::Hidden,
            heads: 1,
            n: c.h,
            batch: a.ctx_len,
        },
        Op::Noise { batch: a.q },
    ]
}

/// The kernels of a forward.
pub open spec fn forward_ops(c: DflashCfg, a: Ask) -> Seq<Op> {
    (opening_ops(c, a) + layers_ops(c, a, c.n_layers as int)).push(
        Op::Norm {
            x: Buf::Hidden,
            out: Buf::Last,
            w: NormWeight::Last,
            heads: 1,
            n: c.h,
            batch: a.q,
        },
    )
}

/// The kernels of layer `l`.
fn push_layer(ops: &mut Vec<Op>, c: &DflashCfg, a: &Ask, l: usize)
    requires
        measurable(*c, *a),
        objection(*c, *a) is None,
        l < c.n_layers,
    ensures
        final(ops)@ == old(ops)@ + layer_ops(*c, *a, l as int),
{
    let ghost before = ops@;
    proof {
        assert(0 <= c.nh * c.hd && 0 <= c.nkv * c.hd) by (nonlinear_arith);
        assert(c.h * a.q <= c.h * MAX_BLOCK && c.inter * a.q <= c.inter * MAX_BLOCK)
            by (nonlinear_arith)
            requires
                a.q <= MAX_BLOCK,
        ;
        assert(0 <= c.h * a.q && 0 <= c.inter * a.q) by (nonlinear_arith);
    }
    let n: usize = l;
    let h: usize = c.h;
    let qw: usize = c.nh * c.hd;
    let kw: usize = c.nkv * c.hd;
    let q: usize = a.q;
    let m: usize = a.ctx_len;
    let ctx_pos: usize = a.pos_start - a.ctx_len;
    let slides = l < c.sliding.len() && c.sliding[l];
    let window: usize = if slides {
        c.sliding_window
    } else {
        0
    };
    let mask: u64 = shape::dflash_mask_pack(a.ctx_row0 + a.ctx_len, slides, window);
    ops.push(
        Op::Norm { x: Buf::Hidden, out: Buf::Normed, w: NormWeight::Input(n), heads: 1, n: h, batch: q },
    );
    ops.push(Op::Gemm { w: Matrix::Q(n), x: Buf::Normed, out: Buf::QRaw, inn: h, outn: qw, batch: q });
    ops.push(Op::Gemm { w: Matrix::K(n), x: Buf::Normed, out: Buf::KRaw, inn: h, outn: kw, batch: q });
    ops.push(
        Op::Gemm { w: Matrix::V(n), x: Buf::Normed, out: Buf::VBlock, inn: h, outn: kw, batch: q },
    );
    ops.push(Op::Gemm { w: Matrix::K(n), x: Buf::Cond, out: Buf::KCtx, inn: h, outn: kw, batch: m });
    ops.push(Op::Gemm { w: Matrix::V(n), x: Buf::Cond, out: Buf::VCtx, inn: h, outn: kw, batch: m });
    ops.push(
        Op::Norm { x: Buf::QRaw, out: Buf::Q, w: NormWeight::Query(n), heads: c.nh, n: c.hd, batch: q },
    );
    ops.push(
        Op::Norm { x: Buf::KRaw, out: Buf::KBlock, w: NormWeight::Key(n), heads: c.nkv, n: c.hd, batch: q },
    );
    ops.push(
        Op::Norm { x: Buf::KCtx, out: Buf::KCtx, w: NormWeight::Key(n), heads: c.nkv, n: c.hd, batch: m },
    );
    ops.push(Op::Rope { x: Buf::Q, heads: c.nh, pos: a.pos_start, batch: q });
    ops.push(Op::Rope { x: Buf::KBlock, heads: c.nkv, pos: a.pos_start, batch: q });
    ops.push(Op::Rope { x: Buf::KCtx, heads: c.nkv, pos: ctx_pos, batch: m });
    ops.push(Op::WriteContext { layer: n, row: a.ctx_row0, n: m });
    ops.push(Op::WriteBlock { layer: n, row: a.pos_start, n: q });
    ops.push(Op::Attend { layer: n, keys: a.ctx_row0 + a.ctx_len + a.q, mask, batch: q });
    ops.push(Op::Gemm { w: Matrix::O(n), x: Buf::Attn, out: Buf::AttnOut, inn: qw, outn: h, batch: q });
    ops.push(Op::AddResidual { x: Buf::AttnOut, n: h * q });
    ops.push(
        Op::Norm { x: Buf::Hidden, out: Buf::Normed, w: NormWeight::Post(n), heads: 1, n: h, batch: q },
    );
    ops.push(
        Op::Gemm { w: Matrix::Gate(n), x: Buf::Normed, out: Buf::Gate, inn: h, outn: c.inter, batch: q },
    );
    ops.push(
        Op::Gemm { w: Matrix::Up(n), x: Buf::Normed, out: Buf::Up, inn: h, outn: c.inter, batch: q },
    );
    ops.push(Op::SiluMul { n: c.inter * q });
    ops.push(
        Op::Gemm { w: Matrix::Down(n), x: Buf::Gate, out: Buf::MlpOut, inn: c.inter, outn: h, batch: q },
    );
    ops.push(Op::AddResidual { x: Buf::MlpOut, n: h * q });
    assert(ops@ =~= before + layer_ops(*c, *a, l as int));
}

/// Checks a forward and lists its kernels.
pub fn forward_step(c: &DflashCfg, a: &Ask) -> (r: Result<Vec<Op>, ForwardError>)
    requires
        measurable(*c, *a),
    ensures
        match objection(*c, *a) {
            Some(e) => r == Err::<Vec<Op>, ForwardError>(e),
            None => r matches Ok(ops) && ops@ == forward_ops(*c, *a),
        },
{
    if !(0 < a.q && a.q <= c.block && a.q <= MAX_BLOCK) {
        return Err(ForwardError::Block);
    }
    if a.stride < a.ctx_row0 + a.ctx_len + a.q {
        return Err(ForwardError::Stride);
    }
    proof {
        assert(0 <= c.tap_layers@.len() * c.h) by (nonlinear_arith);
        assert(0 <= c.tap_layers@.len() * c.h * a.ctx_len) by (nonlinear_arith);
    }
    let width: usize = c.nctx() * c.h;
    if a.feature != width * a.ctx_len {
        return Err(ForwardError::Feature);
    }
    if a.ctx_row0 + a.ctx_len != a.pos_start {
        return Err(ForwardError::Frontier);
    }
    let mut ops: Vec<Op> = Vec::new();
    ops.push(
        Op::Gemm {
            w: Matrix::Fc,
            x: Buf::Feature,
            out: Buf::Cond,
            inn: width,
            outn: c.h,
            batch: a.ctx_len,
        },
    );
    ops.push(
        Op::Norm {
            x: Buf::Cond,
            out: Buf::Cond,
            w: NormWeight::Hidden,
            heads: 1,
            n: c.h,
            batch: a.ctx_len,
        },
    );
    ops.push(Op::Noise { batch: a.q });
    assert(ops@ =~= opening_ops(*c, *a));
    let ghost opening = ops@;
    let mut l: usize = 0;
    assert(ops@ =~= opening + layers_ops(*c, *a, 0));
    while l < c.n_layers
        invariant
            l <= c.n_layers,
            measurable(*c, *a),
            objection(*c, *a) is None,
            ops@ == opening + layers_ops(*c, *a, l as int),
        decreases c.n_layers - l,
    {
        push_layer(&mut ops, c, a, l);
        l += 1;
        assert(ops@ =~= opening + layers_ops(*c, *a, l as int));
    }
    ops.push(
        Op::Norm {
            x: Buf::Hidden,
            out: Buf::Last,
            w: NormWeight::Last,
            heads: 1,
            n: c.h,
            batch: a.q,
        },
    );
    Ok(ops)
}

/// Row `r` of a layer's cache is written by the kernel.
pub open spec fn writes_row(op: Op, layer: usize, r: int) -> bool {
    match op {
        Op::WriteContext { layer: l, row, n } => l == layer && row <= r < row + n,
        Op::WriteBlock { layer: l, row, n } => l == layer && row <= r < row + n,
        _ => false,
    }
}

/// Every row from the appended context on that a layer attends to is written by the layer before
/// it attends; the rows before are those of earlier forwards.
pub proof fn law_attended_rows_are_written(c: DflashCfg, a: Ask, l: int, r: int)
    requires
        objection(c, a) is None,
        measurable(c, a),
        0 <= l <= usize::MAX,
        a.ctx_row0 <= r < a.ctx_row0 + a.ctx_len + a.q,
    ensures
        layer_ops(c, a, l)[14] is Attend,
        layer_ops(c, a, l)[14]->keys == a.ctx_row0 + a.ctx_len + a.q,
        exists|k: int| 0 <= k < 14 && writes_row(#[trigger] layer_ops(c, a, l)[k], l as usize, r),
{
    let ops = layer_ops(c, a, l);
    if r < a.pos_start {
        assert(writes_row(ops[12], l as usize, r));
    } else {
        assert(writes_row(ops[13], l as usize, r));
    }
}

/// Two forwards one behind the other leave no gap: the second appends what the first verified,
/// from where the first's block started.
pub proof fn law_frontier_moves_on(c: DflashCfg, a: Ask, b: Ask)
    requires
        objection(c, a) is None,
        objection(c, b) is None,
        b.ctx_row0 == a.pos_start,
    ensures
        b.ctx_row0 == a.ctx_row0 + a.ctx_len,
        b.pos_start == a.pos_start + b.ctx_len,
{
}


/// Values per column of a buffer.
pub open spec fn width_of(c: DflashCfg, b: Buf) -> int {
    match b {
        Buf::Feature => c.tap_layers@.len() * c.h,
        Buf::Cond | Buf::Hidden | Buf::Normed | Buf::AttnOut | Buf::MlpOut | Buf::Last => c.h as int,
        Buf::QRaw | Buf::Q | Buf::Attn => c.nh * c.hd,
        Buf::KRaw | Buf::KBlock | Buf::VBlock | Buf::KCtx | Buf::VCtx => c.nkv * c.hd,
        Buf::Gate | Buf::Up => c.inter as int,
    }
}

/// Columns of a buffer: those of the context, or those of the block.
pub open spec fn columns_of(a: Ask, b: Buf) -> int {
    match b {
        Buf::Feature | Buf::Cond | Buf::KCtx | Buf::VCtx => a.ctx_len as int,
        _ => a.q as int,
    }
}

/// Rows and columns of a matrix.
pub open spec fn matrix_shape(c: DflashCfg, w: Matrix) -> (int, int) {
    match w {
        Matrix::Fc => (c.tap_layers@.len() * c.h, c.h as int),
        Matrix::Q(_) => (c.h as int, c.nh * c.hd),
        Matrix::K(_) | Matrix::V(_) => (c.h as int, c.nkv * c.hd),
        Matrix::O(_) => (c.nh * c.hd, c.h as int),
        Matrix::Gate(_) | Matrix::Up(_) => (c.h as int, c.inter as int),
        Matrix::Down(_) => (c.inter as int, c.h as int),
    }
}

/// A kernel runs over the whole of its buffers, and these have the shapes that it multiplies,
/// normalizes or adds.
pub open spec fn shapes_agree(c: DflashCfg, a: Ask, op: Op) -> bool {
    match op {
        Op::Gemm { w, x, out, inn, outn, batch } => {
            &&& (inn as int, outn as int) == matrix_shape(c, w)
            &&& inn == width_of(c, x)
            &&& outn == width_of(c, out)
            &&& batch == columns_of(a, x)
            &&& batch == columns_of(a, out)
        },
        Op::Norm { x, out, w, heads, n, batch } => {
            &&& heads * n == width_of(c, x)
            &&& heads * n == width_of(c, out)
            &&& batch == columns_of(a, x)
            &&& batch == columns_of(a, out)
        },
        Op::Noise { batch } => batch == columns_of(a, Buf::Hidden),
        Op::Rope { x, heads, pos, batch } => {
            &&& heads * c.hd == width_of(c, x)
            &&& batch == columns_of(a, x)
            &&& pos == if columns_of(a, x) == columns_of(a, Buf::KCtx) && x is KCtx {
                a.ctx_row0
            } else {
                a.pos_start
            }
        },
        Op::WriteContext { layer, row, n } => row == a.ctx_row0 && n == columns_of(a, Buf::KCtx),
        Op::WriteBlock { layer, row, n } => row == a.pos_start && n == columns_of(a, Buf::KBlock),
        Op::Attend { layer, keys, mask, batch } => keys == a.pos_start + a.q && batch
            == columns_of(a, Buf::Q),
        Op::AddResidual { x, n } => n == width_of(c, x) * columns_of(a, x),
        Op::SiluMul { n } => n == width_of(c, Buf::Gate) * columns_of(a, Buf::Gate),
    }
}

/// Every kernel of a layer runs over whole buffers of the shapes that it needs.
pub proof fn law_shapes_of_a_layer_agree(c: DflashCfg, a: Ask, l: int, k: int)
    requires
        measurable(c, a),
        objection(c, a) is None,
        0 <= l < c.n_layers,
        0 <= k < layer_ops(c, a, l).len(),
    ensures
        shapes_agree(c, a, layer_ops(c, a, l)[k]),
{
    let (h, i, q) = (c.h as int, c.inter as int, a.q as int);
    assert(h * q <= h * MAX_BLOCK && i * q <= i * MAX_BLOCK) by (nonlinear_arith)
        requires
            h >= 0,
            i >= 0,
            q <= MAX_BLOCK,
    ;
    lemma_one_group(layer_ops(c, a, l)[k]);
}

/// One group is as wide as its values.
proof fn lemma_one_group(op: Op)
    ensures
        op matches Op::Norm { heads, n, .. } ==> heads == 1 ==> heads * n == n,
{
    match op {
        Op::Norm { x, out, w, heads, n, batch } => {
            assert(heads == 1 ==> heads * n == n) by (nonlinear_arith);
        },
        _ => {},
    }
}

/// Buffers that a kernel reads.
pub open spec fn reads(op: Op, b: Buf) -> bool {
    match op {
        Op::Gemm { w, x, out, inn, outn, batch } => b == x,
        Op::Norm { x, out, w, heads, n, batch } => b == x,
        Op::Noise { batch } => false,
        Op::Rope { x, heads, pos, batch } => b == x,
        Op::WriteContext { layer, row, n } => b is KCtx || b is VCtx,
        Op::WriteBlock { layer, row, n } => b is KBlock || b is VBlock,
        Op::Attend { layer, keys, mask, batch } => b is Q,
        Op::AddResidual { x, n } => b == x || b is Hidden,
        Op::SiluMul { n } => b is Gate || b is Up,
    }
}

/// Buffer that a kernel writes.
pub open spec fn fills(op: Op, b: Buf) -> bool {
    match op {
        Op::Gemm { w, x, out, inn, outn, batch } => b == out,
        Op::Norm { x, out, w, heads, n, batch } => b == out,
        Op::Noise { batch } => b is Hidden,
        Op::Rope { x, heads, pos, batch } => b == x,
        Op::Attend { layer, keys, mask, batch } => b is Attn,
        Op::AddResidual { x, n } => b is Hidden,
        Op::SiluMul { n } => b is Gate,
        _ => false,
    }
}

/// A kernel before `k` writes `b`.
pub open spec fn filled_before(ops: Seq<Op>, k: int, b: Buf) -> bool {
    exists|j: int| 0 <= j < k && fills(#[trigger] ops[j], b)
}

/// A layer reads only what is there: the context and the hidden state that it was handed, and
/// buffers that it has written before.
pub proof fn law_a_layer_reads_what_it_has_written(c: DflashCfg, a: Ask, l: int, k: int, b: Buf)
    requires
        0 <= k < layer_ops(c, a, l).len(),
        reads(layer_ops(c, a, l)[k], b),
        !(b is Cond),
        !(b is Hidden),
    ensures
        filled_before(layer_ops(c, a, l), k, b),
{
    let ops = layer_ops(c, a, l);
    let j: int = match b {
        Buf::Normed => if k < 17 {
            0
        } else {
            17
        },
        Buf::QRaw => 1,
        Buf::KRaw => 2,
        Buf::VBlock => 3,
        Buf::KCtx => 4,
        Buf::VCtx => 5,
        Buf::Q => 6,
        Buf::KBlock => 7,
        Buf::Attn => 14,
        Buf::AttnOut => 15,
        Buf::Gate => 18,
        Buf::Up => 19,
        Buf::MlpOut => 21,
        _ => 0,
    };
    assert(0 <= j < k);
    assert(fills(ops[j], b));
}

/// Every weight of a layer is used, once, and keys and values twice: for the block and for the
/// context. The queries and the keys of both are normalized and rotated, and both halves of the
/// layer are added to the hidden state.
pub proof fn law_a_layer_uses_all_its_weights(c: DflashCfg, a: Ask, l: usize)
    ensures
        ({
            let ops = layer_ops(c, a, l as int);
            &&& ops.len() == 23
            &&& exists|k: int| 0 <= k < 23 && (#[trigger] ops[k] matches Op::Gemm { w, x, out, .. } && w == Matrix::Q(l) && x is Normed && out is QRaw)
            &&& exists|k: int| 0 <= k < 23 && (#[trigger] ops[k] matches Op::Gemm { w, x, out, .. } && w == Matrix::K(l) && x is Normed && out is KRaw)
            &&& exists|k: int| 0 <= k < 23 && (#[trigger] ops[k] matches Op::Gemm { w, x, out, .. } && w == Matrix::V(l) && x is Normed && out is VBlock)
            &&& exists|k: int| 0 <= k < 23 && (#[trigger] ops[k] matches Op::Gemm { w, x, out, .. } && w == Matrix::K(l) && x is Cond && out is KCtx)
            &&& exists|k: int| 0 <= k < 23 && (#[trigger] ops[k] matches Op::Gemm { w, x, out, .. } && w == Matrix::V(l) && x is Cond && out is VCtx)
            &&& exists|k: int| 0 <= k < 23 && (#[trigger] ops[k] matches Op::Gemm { w, x, out, .. } && w == Matrix::O(l) && x is Attn && out is AttnOut)
            &&& exists|k: int| 0 <= k < 23 && (#[trigger] ops[k] matches Op::Gemm { w, x, out, .. } && w == Matrix::Gate(l) && x is Normed && out is Gate)
            &&& exists|k: int| 0 <= k < 23 && (#[trigger] ops[k] matches Op::Gemm { w, x, out, .. } && w == Matrix::Up(l) && x is Normed && out is Up)
            &&& exists|k: int| 0 <= k < 23 && (#[trigger] ops[k] matches Op::Gemm { w, x, out, .. } && w == Matrix::Down(l) && x is Gate && out is MlpOut)
            &&& exists|k: int| 0 <= k < 23 && (#[trigger] ops[k] matches Op::Norm { x, w, .. } && w == NormWeight::Input(l) && x is Hidden)
            &&& exists|k: int| 0 <= k < 23 && (#[trigger] ops[k] matches Op::Norm { x, w, .. } && w == NormWeight::Post(l) && x is Hidden)
            &&& exists|k: int| 0 <= k < 23 && (#[trigger] ops[k] matches Op::Norm { x, out, w, .. } && w == NormWeight::Query(l) && x is QRaw && out is Q)
            &&& exists|k: int| 0 <= k < 23 && (#[trigger] ops[k] matches Op::Norm { x, out, w, .. } && w == NormWeight::Key(l) && x is KRaw && out is KBlock)
            &&& exists|k: int| 0 <= k < 23 && (#[trigger] ops[k] matches Op::Norm { x, out, w, .. } && w == NormWeight::Key(l) && x is KCtx && out is KCtx)
            &&& exists|k: int| 0 <= k < 23 && (#[trigger] ops[k] matches Op::Rope { x, .. } && x is Q)
            &&& exists|k: int| 0 <= k < 23 && (#[trigger] ops[k] matches Op::Rope { x, .. } && x is KBlock)
            &&& exists|k: int| 0 <= k < 23 && (#[trigger] ops[k] matches Op::Rope { x, .. } && x is KCtx)
            &&& exists|k: int| 0 <= k < 23 && (#[trigger] ops[k] matches Op::AddResidual { x, .. } && x is AttnOut)
            &&& exists|k: int| 0 <= k < 23 && (#[trigger] ops[k] matches Op::AddResidual { x, .. } && x is MlpOut)
            &&& exists|k: int| 0 <= k < 23 && (#[trigger] ops[k] is SiluMul)
            &&& exists|k: int| 0 <= k < 23 && (#[trigger] ops[k] matches Op::Attend { layer, mask, .. } && layer == l && mask == layer_mask(c, a, l as int))
        }),
{
    let ops = layer_ops(c, a, l as int);
    assert(ops[0] is Norm && ops[1] is Gemm && ops[2] is Gemm && ops[3] is Gemm && ops[4] is Gemm);
    assert(ops[5] is Gemm && ops[6] is Norm && ops[7] is Norm && ops[8] is Norm && ops[9] is Rope);
    assert(ops[10] is Rope && ops[11] is Rope && ops[14] is Attend && ops[15] is Gemm);
    assert(ops[16] is AddResidual && ops[17] is Norm && ops[18] is Gemm && ops[19] is Gemm);
    assert(ops[20] is SiluMul && ops[21] is Gemm && ops[22] is AddResidual);
}

/// A forward is the projection of the context, the embeddings of the block, every layer once and in
/// order, and a last norm.
pub proof fn law_a_forward_runs_every_layer(c: DflashCfg, a: Ask, l: int, k: int)
    requires
        0 <= l < c.n_layers,
        0 <= k < 23,
    ensures
        ({
            let ops = forward_ops(c, a);
            &&& ops.len() == 4 + 23 * c.n_layers
            &&& ops[3 + 23 * l + k] == layer_ops(c, a, l)[k]
            &&& (ops[0] matches Op::Gemm { w, x, out, .. } && w is Fc && x is Feature && out is Cond)
            &&& (ops[1] matches Op::Norm { x, out, w, .. } && w is Hidden && x is Cond && out is Cond)
            &&& ops[2] is Noise
            &&& (ops.last() matches Op::Norm { x, out, w, .. } && w is Last && x is Hidden && out
                is Last)
            &&& shapes_agree(c, a, ops.last())
        }),
{
    lemma_layers_ops(c, a, c.n_layers as int, l, k);
    let tail = layers_ops(c, a, c.n_layers as int);
    let ops = forward_ops(c, a);
    assert(ops[3 + (23 * l + k)] == tail[23 * l + k]);
    lemma_one_group(ops.last());
}

proof fn lemma_layers_ops(c: DflashCfg, a: Ask, n: int, l: int, k: int)
    requires
        0 <= l < n,
        0 <= k < 23,
    ensures
        layers_ops(c, a, n).len() == 23 * n,
        layers_ops(c, a, n)[23 * l + k] == layer_ops(c, a, l)[k],
    decreases n,
{
    if n == 1 {
        assert(layers_ops(c, a, 0).len() == 0);
    } else if l < n - 1 {
        lemma_layers_ops(c, a, n - 1, l, k);
    } else {
        lemma_layers_ops(c, a, n - 1, n - 2, 0);
    }
}

/// A layer that slides attends causally and within the window; another attends to everything.
pub proof fn law_sliding_layers_attend_within_the_window(c: DflashCfg, a: Ask, l: int)
    requires
        measurable(c, a),
        a.ctx_row0 + a.ctx_len < 0x1_0000_0000,
        c.sliding_window < 0x8000_0000,
        0 <= l,
    ensures
        ({
            let m = layer_mask(c, a, l);
            let slides = l < c.sliding@.len() && c.sliding@[l];
            &&& m & 0xFFFF_FFFF == a.ctx_row0 + a.ctx_len
            &&& slides ==> (m >> 32) & 1 == 1 && m >> 33 == c.sliding_window
            &&& !slides ==> (m >> 32) & 1 == 0 && m >> 33 == 0
        }),
{
    let slides = l < c.sliding@.len() && c.sliding@[l];
    shape::law_mask_can_be_unpacked(
        (a.ctx_row0 + a.ctx_len) as usize,
        slides,
        if slides {
            c.sliding_window
        } else {
            0
        },
    );
}

/// A forward is refused for the first thing that is wrong, and for nothing else.
pub proof fn law_forwards_are_refused_for_cause(c: DflashCfg, a: Ask)
    ensures
        objection(c, a) is None <==> {
            &&& 1 <= a.q <= 16
            &&& a.q <= c.block
            &&& a.pos_start + a.q <= a.stride
            &&& a.pos_start == a.ctx_row0 + a.ctx_len
            &&& a.feature == c.tap_layers@.len() * c.h * a.ctx_len
        },
{
}

} // verus!
