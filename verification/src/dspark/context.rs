//! The kernels that take context into the ring, in order, and how each is launched.
//!
//! A prompt comes in windows of any width, committed tokens in at most the columns of a verify.
//! Both project the taps once and write each layer's keys and values.

use vstd::prelude::*;

use crate::dspark::kernels;
use crate::dspark::kernels::{
    Launch, HEAD_DIM, HIDDEN, LOADED, NUM_KV_HEADS, N_LAYERS,
};
use crate::dspark::round::{COLUMNS, PACK_LIMIT};

verus! {

/// How context comes in.
#[derive(Clone, Copy, PartialEq, Eq, Structural, Debug)]
pub enum Intake {
    /// A window of a prompt.
    Prime,
    /// Committed tokens.
    Inject,
}

/// One kernel; a layer's carry its number.
#[derive(Clone, Copy, PartialEq, Eq, Structural, Debug)]
pub enum ContextStep {
    GatherRope,
    /// Projects the taps.
    Project,
    HiddenNorm,
    KGemm(usize),
    KNorm(usize),
    KRope(usize),
    VGemm(usize),
    WriteRows(usize),
}

/// The kernels of layer `l`.
pub open spec fn layer_intake(l: usize) -> Seq<ContextStep> {
    seq![
        ContextStep::KGemm(l),
        ContextStep::KNorm(l),
        ContextStep::KRope(l),
        ContextStep::VGemm(l),
        ContextStep::WriteRows(l),
    ]
}

/// The kernels of the first `n` layers.
pub open spec fn layers_intake(n: int) -> Seq<ContextStep>
    decreases n,
{
    if n <= 0 {
        Seq::empty()
    } else {
        layers_intake(n - 1) + layer_intake((n - 1) as usize)
    }
}

/// The kernels of an intake.
pub open spec fn intake_steps(kind: Intake) -> Seq<ContextStep> {
    (match kind {
        Intake::Prime => seq![
            ContextStep::GatherRope,
            ContextStep::Project,
            ContextStep::HiddenNorm,
        ],
        Intake::Inject => seq![
            ContextStep::Project,
            ContextStep::HiddenNorm,
            ContextStep::GatherRope,
        ],
    }) + layers_intake(N_LAYERS as int)
}

/// Lists the kernels of an intake.
pub fn context_kernels(kind: Intake) -> (v: Vec<ContextStep>)
    ensures
        v@ == intake_steps(kind),
{
    let mut v: Vec<ContextStep> = Vec::new();
    match kind {
        Intake::Prime => {
            v.push(ContextStep::GatherRope);
            v.push(ContextStep::Project);
            v.push(ContextStep::HiddenNorm);
        },
        Intake::Inject => {
            v.push(ContextStep::Project);
            v.push(ContextStep::HiddenNorm);
            v.push(ContextStep::GatherRope);
        },
    }
    let ghost opening = v@;
    let mut l: usize = 0;
    assert(v@ =~= opening + layers_intake(0));
    while l < N_LAYERS
        invariant
            l <= N_LAYERS,
            v@ == opening + layers_intake(l as int),
        decreases N_LAYERS - l,
    {
        v.push(ContextStep::KGemm(l));
        v.push(ContextStep::KNorm(l));
        v.push(ContextStep::KRope(l));
        v.push(ContextStep::VGemm(l));
        v.push(ContextStep::WriteRows(l));
        l += 1;
        assert(v@ =~= opening + layers_intake(l as int));
    }
    assert(v@ =~= intake_steps(kind));
    v
}

/// Name of the kernel of a step.
pub open spec fn context_kernel(kind: Intake, interleaved: bool, s: ContextStep) -> Seq<char> {
    match s {
        ContextStep::GatherRope => "gather_rope_b"@,
        ContextStep::HiddenNorm => "rmsnorm_b"@,
        ContextStep::KNorm(_) => "rmsnorm_perhead_b"@,
        ContextStep::KRope(_) => if interleaved {
            "dspark_rope_b"@
        } else {
            "rope_b"@
        },
        ContextStep::WriteRows(_) => "write_kv_b"@,
        ContextStep::Project => product_kernel(kind),
        ContextStep::KGemm(_) => product_kernel(kind),
        ContextStep::VGemm(_) => product_kernel(kind),
    }
}

/// Wide products are tiled.
pub open spec fn product_kernel(kind: Intake) -> Seq<char> {
    match kind {
        Intake::Prime => "gemm_tiled_b"@,
        Intake::Inject => "gemm_dsp_b_m8_r4"@,
    }
}

/// Grid and block of a product with `outn` outputs over `n` columns.
pub open spec fn product_shape(kind: Intake, outn: int, n: int) -> (
    (u32, u32, u32),
    (u32, u32, u32),
    u32,
) {
    match kind {
        Intake::Prime => (
            (((n + 127) / 128) as u32, ((outn + 127) / 128) as u32, 1u32),
            (16u32, 16u32, 1u32),
            0u32,
        ),
        Intake::Inject => ((kernels::quads(outn), 1u32, 1u32), (256u32, 1u32, 1u32), 0u32),
    }
}

/// Grid, block and shared memory of a step over `n` columns.
pub open spec fn context_shape(kind: Intake, n: int, s: ContextStep) -> (
    (u32, u32, u32),
    (u32, u32, u32),
    u32,
) {
    let t = (256u32, 1u32, 1u32);
    match s {
        ContextStep::GatherRope => ((kernels::blocks(n * HEAD_DIM), 1u32, 1u32), t, 0u32),
        ContextStep::Project => product_shape(kind, HIDDEN as int, n),
        ContextStep::HiddenNorm => ((n as u32, 1u32, 1u32), (1024u32, 1u32, 1u32), 4096u32),
        ContextStep::KGemm(_) => product_shape(kind, NUM_KV_HEADS * HEAD_DIM, n),
        ContextStep::VGemm(_) => product_shape(kind, NUM_KV_HEADS * HEAD_DIM, n),
        ContextStep::KNorm(_) => (
            ((n * NUM_KV_HEADS) as u32, 1u32, 1u32),
            (HEAD_DIM as u32, 1u32, 1u32),
            (HEAD_DIM * 4) as u32,
        ),
        ContextStep::KRope(_) => (
            (kernels::blocks(n * NUM_KV_HEADS * (HEAD_DIM / 2)), 1u32, 1u32),
            t,
            0u32,
        ),
        ContextStep::WriteRows(_) => (
            (kernels::blocks(n * NUM_KV_HEADS * HEAD_DIM), 1u32, 1u32),
            t,
            0u32,
        ),
    }
}

fn product(kind: Intake, outn: usize, n: usize) -> (r: Launch)
    requires
        n < PACK_LIMIT,
        outn <= HIDDEN,
    ensures
        r.kernel@ == product_kernel(kind),
        (r.grid, r.block, r.smem) == product_shape(kind, outn as int, n as int),
{
    match kind {
        Intake::Prime => Launch {
            kernel: "gemm_tiled_b",
            grid: (((n + 127) / 128) as u32, ((outn + 127) / 128) as u32, 1),
            block: (16, 16, 1),
            smem: 0,
        },
        Intake::Inject => Launch {
            kernel: "gemm_dsp_b_m8_r4",
            grid: (((outn + 3) / 4) as u32, 1, 1),
            block: (256, 1, 1),
            smem: 0,
        },
    }
}

/// How a step over `n` columns is launched.
pub fn context_launch(kind: Intake, interleaved: bool, n: usize, s: ContextStep) -> (r: Launch)
    requires
        n < PACK_LIMIT,
        kind is Inject ==> n <= COLUMNS,
    ensures
        r.kernel@ == context_kernel(kind, interleaved, s),
        (r.grid, r.block, r.smem) == context_shape(kind, n as int, s),
{
    let t: (u32, u32, u32) = (256, 1, 1);
    match s {
        ContextStep::GatherRope => Launch {
            kernel: "gather_rope_b",
            grid: (((n * HEAD_DIM + 255) / 256) as u32, 1, 1),
            block: t,
            smem: 0,
        },
        ContextStep::Project => product(kind, HIDDEN, n),
        ContextStep::HiddenNorm => Launch {
            kernel: "rmsnorm_b",
            grid: (n as u32, 1, 1),
            block: (1024, 1, 1),
            smem: 4096,
        },
        ContextStep::KGemm(_) => product(kind, NUM_KV_HEADS * HEAD_DIM, n),
        ContextStep::VGemm(_) => product(kind, NUM_KV_HEADS * HEAD_DIM, n),
        ContextStep::KNorm(_) => Launch {
            kernel: "rmsnorm_perhead_b",
            grid: ((n * NUM_KV_HEADS) as u32, 1, 1),
            block: (HEAD_DIM as u32, 1, 1),
            smem: (HEAD_DIM * 4) as u32,
        },
        ContextStep::KRope(_) => Launch {
            kernel: if interleaved {
                "dspark_rope_b"
            } else {
                "rope_b"
            },
            grid: (((n * NUM_KV_HEADS * (HEAD_DIM / 2) + 255) / 256) as u32, 1, 1),
            block: t,
            smem: 0,
        },
        ContextStep::WriteRows(_) => Launch {
            kernel: "write_kv_b",
            grid: (((n * NUM_KV_HEADS * HEAD_DIM + 255) / 256) as u32, 1, 1),
            block: t,
            smem: 0,
        },
    }
}

/// Every kernel of an intake is one of those that are loaded.
pub proof fn law_intake_launches_loaded_kernels(kind: Intake, interleaved: bool, s: ContextStep)
    ensures
        exists|i: int|
            0 <= i < LOADED && context_kernel(kind, interleaved, s) == #[trigger] kernels::loaded(i),
{
    let wide: int = match kind {
        Intake::Prime => 12,
        Intake::Inject => 11,
    };
    let i: int = match s {
        ContextStep::GatherRope => 3,
        ContextStep::HiddenNorm => 0,
        ContextStep::KNorm(_) => 1,
        ContextStep::KRope(_) => if interleaved {
            28
        } else {
            2
        },
        ContextStep::WriteRows(_) => 4,
        ContextStep::Project => wide,
        ContextStep::KGemm(_) => wide,
        ContextStep::VGemm(_) => wide,
    };
    assert(context_kernel(kind, interleaved, s) == kernels::loaded(i));
}

/// Every layer's rows are written, and only behind its keys were projected, normalized and
/// rotated and its values projected.
pub proof fn law_rows_are_written_complete(kind: Intake, l: int)
    requires
        0 <= l < N_LAYERS,
    ensures
        ({
            let steps = intake_steps(kind);
            let n = l as usize;
            &&& steps.len() == 3 + 5 * N_LAYERS
            &&& steps[3 + 5 * l] == ContextStep::KGemm(n)
            &&& steps[3 + 5 * l + 1] == ContextStep::KNorm(n)
            &&& steps[3 + 5 * l + 2] == ContextStep::KRope(n)
            &&& steps[3 + 5 * l + 3] == ContextStep::VGemm(n)
            &&& steps[3 + 5 * l + 4] == ContextStep::WriteRows(n)
        }),
{
    lemma_layer_at(N_LAYERS as int, l);
    let tail = layers_intake(N_LAYERS as int);
    let steps = intake_steps(kind);
    assert forall|j: int| 0 <= j < tail.len() implies steps[3 + j] == #[trigger] tail[j] by {}
    assert forall|j: int| 0 <= j < 5 implies steps[3 + (5 * l + j)] == #[trigger] layer_intake(
        l as usize,
    )[j] by {
        assert(tail[5 * l + j] == layer_intake(l as usize)[j]);
    }
    let own = layer_intake(l as usize);
    assert(own[0] == ContextStep::KGemm(l as usize));
    assert(own[1] == ContextStep::KNorm(l as usize));
    assert(own[2] == ContextStep::KRope(l as usize));
    assert(own[3] == ContextStep::VGemm(l as usize));
    assert(own[4] == ContextStep::WriteRows(l as usize));
}

proof fn lemma_layer_at(n: int, l: int)
    requires
        0 <= l < n,
    ensures
        layers_intake(n).len() == 5 * n,
        forall|j: int|
            0 <= j < 5 ==> #[trigger] layers_intake(n)[5 * l + j] == layer_intake(l as usize)[j],
    decreases n,
{
    if l < n - 1 {
        lemma_layer_at(n - 1, l);
    } else if n > 1 {
        lemma_layer_at(n - 1, n - 2);
    } else {
        assert(layers_intake(0).len() == 0);
    }
    assert forall|j: int| 0 <= j < 5 implies #[trigger] layers_intake(n)[5 * l + j]
        == layer_intake(l as usize)[j] by {
        if l < n - 1 {
            assert(layers_intake(n)[5 * l + j] == layers_intake(n - 1)[5 * l + j]);
        }
    }
}


/// Every kernel of an intake of `n` columns covers them: the products in tiles of 128 by 128 where
/// many columns are primed, and in groups of four rows where a few are injected.
pub proof fn law_intakes_are_covered(n: int, l: usize)
    requires
        0 < n < PACK_LIMIT,
    ensures
        ({
            let p = context_shape(Intake::Prime, n, ContextStep::KGemm(l)).0;
            let i = context_shape(Intake::Inject, n, ContextStep::KGemm(l)).0;
            &&& 128 * (p.0 - 1) < n <= 128 * p.0
            &&& p.1 * 128 == 8 * 128
            &&& i.0 * 4 == 8 * 128
            &&& context_shape(Intake::Prime, n, ContextStep::VGemm(l)).0 == p
            &&& context_shape(Intake::Inject, n, ContextStep::VGemm(l)).0 == i
            &&& context_shape(Intake::Prime, n, ContextStep::Project).0.1 * 128 == 5120
            &&& context_shape(Intake::Inject, n, ContextStep::Project).0.0 * 4 == 5120
        }),
        forall|kind: Intake|
            {
                let norm = #[trigger] context_shape(kind, n, ContextStep::KNorm(l));
                norm.0.0 == 8 * n && norm.1.0 == 128
            },
        forall|kind: Intake| (#[trigger] context_shape(kind, n, ContextStep::HiddenNorm)).0.0 == n,
        forall|kind: Intake|
            (#[trigger] context_shape(kind, n, ContextStep::KRope(l))).0.0 * 256 >= n * 8 * 64,
        forall|kind: Intake|
            (#[trigger] context_shape(kind, n, ContextStep::WriteRows(l))).0.0 * 256 >= n * 8 * 128,
        forall|kind: Intake|
            (#[trigger] context_shape(kind, n, ContextStep::GatherRope)).0.0 * 256 >= n * 128,
{
}

/// The context is projected and then normalized before any layer takes it in, and the rotation's
/// table is there.
pub proof fn law_the_context_is_ready_for_the_layers(kind: Intake)
    ensures
        ({
            let s = intake_steps(kind);
            &&& exists|i: int, j: int|
                0 <= i < j < 3 && #[trigger] s[i] is Project && #[trigger] s[j] is HiddenNorm
            &&& exists|i: int| 0 <= i < 3 && #[trigger] s[i] is GatherRope
        }),
{
    let s = intake_steps(kind);
    if kind is Prime {
        assert(s[0] is GatherRope && s[1] is Project && s[2] is HiddenNorm);
    } else {
        assert(s[0] is Project && s[1] is HiddenNorm && s[2] is GatherRope);
    }
}

} // verus!
