//! The kernels of a draft round, in order, and how each is launched.

use vstd::prelude::*;

use crate::dspark::round::BLOCK;
use crate::text;

verus! {

pub const HIDDEN: usize = 5120;

pub const HEAD_DIM: usize = 128;

pub const NUM_HEADS: usize = 40;

pub const NUM_KV_HEADS: usize = 8;

pub const N_LAYERS: usize = 5;

pub const INTER: usize = 10240;

pub const MARKOV_RANK: usize = 256;

pub const VOCAB: usize = 248320;

/// Blocks that scan the vocabulary for the next token of a chain.
pub const CHAIN_BLOCKS: usize = 512;

/// Rows that an attention kernel stages at a time.
pub const DSPARK_ATTN_TILE: usize = 128;

/// Heads, head size and key heads, in one word.
pub const HEADS_PACKED: i32 = 42_074_120;

/// The attention kernels; the last one is the default, the others are kept for comparison.
#[derive(Clone, Copy, PartialEq, Eq, Structural, Debug)]
pub enum AttnKind {
    Scores,
    Tiled,
    Split,
    Tensor,
}

/// The kernel that a setting names.
pub open spec fn named_attn(s: Seq<char>) -> AttnKind {
    if s == "b"@ {
        AttnKind::Scores
    } else if s == "c"@ {
        AttnKind::Tiled
    } else if s == "d"@ {
        AttnKind::Split
    } else {
        AttnKind::Tensor
    }
}

/// The attention kernel that a setting names; the default for any other.
pub fn attn_kind(s: &str) -> (k: AttnKind)
    ensures
        k == named_attn(s@),
{
    if text::same_str(s, "b") {
        AttnKind::Scores
    } else if text::same_str(s, "c") {
        AttnKind::Tiled
    } else if text::same_str(s, "d") {
        AttnKind::Split
    } else {
        AttnKind::Tensor
    }
}

/// True when a setting switches something on.
pub fn switched_on(v: Option<&str>) -> (r: bool)
    ensures
        r == (v matches Some(s) && (s@ == "1"@ || s@ == "on"@)),
{
    match v {
        Some(s) => text::same_str(s, "1") || text::same_str(s, "on"),
        None => false,
    }
}

/// How a matrix of the target is stored.
#[derive(Clone, Copy, PartialEq, Eq, Structural, Debug)]
pub enum Borrowed {
    Bf16,
    Nvfp4,
    /// A coarse pass over the vocabulary and an exact one over a shortlist.
    TwoStage,
}

/// Settings of a round.
#[derive(Clone, Copy, PartialEq, Eq, Structural, Debug)]
pub struct RoundOptions {
    pub attn: AttnKind,
    pub head: Borrowed,
    pub embed: Borrowed,
    /// Rotate neighbouring values instead of halves.
    pub rope_interleaved: bool,
    /// Take the first draft without the Markov head.
    pub first_plain: bool,
    /// Scan with the broadcasting kernel.
    pub scan_broadcast: bool,
    /// Multiprocessors of the device.
    pub sms: usize,
}

/// One kernel of a round; a layer's carry its number, a chain's the place of the draft.
#[derive(Clone, Copy, PartialEq, Eq, Structural, Debug)]
pub enum Step {
    Scalars,
    GatherRope,
    Embed,
    InputNorm(usize),
    QGemm(usize),
    QNorm(usize),
    KGemm(usize),
    KNorm(usize),
    QRope(usize),
    KRope(usize),
    VGemm(usize),
    WriteBlock(usize),
    Attend(usize),
    Merge(usize),
    OGemm(usize),
    AddAttention(usize),
    PostNorm(usize),
    GateGemm(usize),
    UpGemm(usize),
    SiluMul(usize),
    DownGemm(usize),
    AddMlp(usize),
    FinalNorm,
    Head,
    Shortlist,
    Rerank,
    FirstDraft,
    ChainScan(usize),
    ChainPick(usize),
}

/// A launch.
#[derive(Clone, Copy, PartialEq, Eq, Debug)]
pub struct Launch {
    pub kernel: &'static str,
    pub grid: (u32, u32, u32),
    pub block: (u32, u32, u32),
    pub smem: u32,
}

/// The kernels of layer `l`. The kernels that split the ring leave partial sums to be merged.
pub open spec fn layer_steps(o: RoundOptions, l: usize) -> Seq<Step> {
    seq![
        Step::InputNorm(l),
        Step::QGemm(l),
        Step::QNorm(l),
        Step::KGemm(l),
        Step::KNorm(l),
        Step::QRope(l),
        Step::KRope(l),
        Step::VGemm(l),
        Step::WriteBlock(l),
        Step::Attend(l),
    ] + (if o.attn is Split || o.attn is Tensor {
        seq![Step::Merge(l)]
    } else {
        Seq::empty()
    }) + seq![
        Step::OGemm(l),
        Step::AddAttention(l),
        Step::PostNorm(l),
        Step::GateGemm(l),
        Step::UpGemm(l),
        Step::SiluMul(l),
        Step::DownGemm(l),
        Step::AddMlp(l),
    ]
}

/// The kernels of the first `n` layers.
pub open spec fn layers_steps(o: RoundOptions, n: int) -> Seq<Step>
    decreases n,
{
    if n <= 0 {
        Seq::empty()
    } else {
        layers_steps(o, n - 1) + layer_steps(o, (n - 1) as usize)
    }
}

/// The target's head.
pub open spec fn head_steps(o: RoundOptions) -> Seq<Step> {
    if o.head is TwoStage {
        seq![Step::Head, Step::Shortlist, Step::Rerank]
    } else {
        seq![Step::Head]
    }
}

/// The chain of drafts from place `k` on up to `n`: a scan and a pick for each.
pub open spec fn chain_steps(k: int, n: int) -> Seq<Step>
    decreases n - k,
{
    if n <= k {
        Seq::empty()
    } else {
        chain_steps(k, n - 1).push(Step::ChainScan((n - 1) as usize)).push(
            Step::ChainPick((n - 1) as usize),
        )
    }
}

/// The kernels of a round over the first `nlayers` layers; with fewer than all, the head and the
/// chain are left out.
pub open spec fn round_steps(o: RoundOptions, nlayers: int) -> Seq<Step> {
    let backbone = seq![Step::Scalars, Step::GatherRope, Step::Embed] + layers_steps(o, nlayers);
    if nlayers < N_LAYERS {
        backbone
    } else {
        backbone + seq![Step::FinalNorm] + head_steps(o) + (if o.first_plain {
            seq![Step::FirstDraft] + chain_steps(1, BLOCK as int)
        } else {
            chain_steps(0, BLOCK as int)
        })
    }
}

fn push_layer(v: &mut Vec<Step>, o: &RoundOptions, l: usize)
    ensures
        final(v)@ == old(v)@ + layer_steps(*o, l),
{
    let ghost before = v@;
    v.push(Step::InputNorm(l));
    v.push(Step::QGemm(l));
    v.push(Step::QNorm(l));
    v.push(Step::KGemm(l));
    v.push(Step::KNorm(l));
    v.push(Step::QRope(l));
    v.push(Step::KRope(l));
    v.push(Step::VGemm(l));
    v.push(Step::WriteBlock(l));
    v.push(Step::Attend(l));
    match o.attn {
        AttnKind::Split => v.push(Step::Merge(l)),
        AttnKind::Tensor => v.push(Step::Merge(l)),
        _ => {},
    }
    v.push(Step::OGemm(l));
    v.push(Step::AddAttention(l));
    v.push(Step::PostNorm(l));
    v.push(Step::GateGemm(l));
    v.push(Step::UpGemm(l));
    v.push(Step::SiluMul(l));
    v.push(Step::DownGemm(l));
    v.push(Step::AddMlp(l));
    assert(v@ =~= before + layer_steps(*o, l));
}

/// Lists the kernels of a round over the first `nlayers` layers.
pub fn draft_round_kernels_partial(o: &RoundOptions, nlayers: usize) -> (v: Vec<Step>)
    requires
        nlayers <= N_LAYERS,
    ensures
        v@ == round_steps(*o, nlayers as int),
{
    let mut v: Vec<Step> = Vec::new();
    v.push(Step::Scalars);
    v.push(Step::GatherRope);
    v.push(Step::Embed);
    let ghost opening = v@;
    assert(opening =~= seq![Step::Scalars, Step::GatherRope, Step::Embed]);
    let mut l: usize = 0;
    assert(v@ =~= opening + layers_steps(*o, 0));
    while l < nlayers
        invariant
            l <= nlayers <= N_LAYERS,
            v@ == opening + layers_steps(*o, l as int),
        decreases nlayers - l,
    {
        push_layer(&mut v, o, l);
        l += 1;
        assert(v@ =~= opening + layers_steps(*o, l as int));
    }
    if nlayers < N_LAYERS {
        return v;
    }
    v.push(Step::FinalNorm);
    v.push(Step::Head);
    match o.head {
        Borrowed::TwoStage => {
            v.push(Step::Shortlist);
            v.push(Step::Rerank);
        },
        _ => {},
    }
    let ghost backbone = opening + layers_steps(*o, nlayers as int) + seq![Step::FinalNorm]
        + head_steps(*o);
    assert(v@ =~= backbone);
    let mut k: usize = 0;
    let ghost lead: Seq<Step> = if o.first_plain {
        seq![Step::FirstDraft]
    } else {
        Seq::empty()
    };
    let ghost from: int = if o.first_plain {
        1
    } else {
        0
    };
    if o.first_plain {
        v.push(Step::FirstDraft);
        k = 1;
    }
    assert(v@ =~= backbone + lead + chain_steps(from, k as int));
    while k < BLOCK
        invariant
            from <= k <= BLOCK,
            v@ == backbone + lead + chain_steps(from, k as int),
        decreases BLOCK - k,
    {
        v.push(Step::ChainScan(k));
        v.push(Step::ChainPick(k));
        k += 1;
        assert(v@ =~= backbone + lead + chain_steps(from, k as int));
    }
    assert(v@ =~= round_steps(*o, nlayers as int));
    v
}

/// Lists the kernels of a whole round.
pub fn draft_round_kernels(o: &RoundOptions) -> (v: Vec<Step>)
    ensures
        v@ == round_steps(*o, N_LAYERS as int),
{
    draft_round_kernels_partial(o, N_LAYERS)
}

/// Name of the kernel of a step.
pub open spec fn kernel_text(o: RoundOptions, s: Step) -> Seq<char> {
    match s {
        Step::Scalars => "dspark_scalars_b"@,
        Step::GatherRope => "gather_rope_b"@,
        Step::Embed => if o.embed is Nvfp4 {
            "embed_gather_fp4_tiled_b"@
        } else {
            "embed_gather_b"@
        },
        Step::InputNorm(_) => "rmsnorm_b"@,
        Step::PostNorm(_) => "rmsnorm_b"@,
        Step::FinalNorm => "rmsnorm_b"@,
        Step::QNorm(_) => "rmsnorm_perhead_b"@,
        Step::KNorm(_) => "rmsnorm_perhead_b"@,
        Step::QGemm(_) => "gemm_dsp_b_m8_r4"@,
        Step::KGemm(_) => "gemm_dsp_b_m8_r4"@,
        Step::VGemm(_) => "gemm_dsp_b_m8_r4"@,
        Step::OGemm(_) => "gemm_dsp_b_m8_r4"@,
        Step::GateGemm(_) => "gemm_dsp_b_m8_r4"@,
        Step::UpGemm(_) => "gemm_dsp_b_m8_r4"@,
        Step::DownGemm(_) => "gemm_dsp_b_m8_r4"@,
        Step::QRope(_) => if o.rope_interleaved {
            "dspark_rope_b"@
        } else {
            "rope_b"@
        },
        Step::KRope(_) => if o.rope_interleaved {
            "dspark_rope_b"@
        } else {
            "rope_b"@
        },
        Step::WriteBlock(_) => "write_kv_b"@,
        Step::Attend(_) => match o.attn {
            AttnKind::Scores => "dspark_attn_full_ring_b"@,
            AttnKind::Tiled => "dspark_attn_full_ring_c"@,
            AttnKind::Split => "dspark_attn_full_ring_d"@,
            AttnKind::Tensor => "dspark_attn_full_ring_e"@,
        },
        Step::Merge(_) => "dspark_attn_merge_d"@,
        Step::AddAttention(_) => "add_residual_b"@,
        Step::AddMlp(_) => "add_residual_b"@,
        Step::SiluMul(_) => "silu_mul_b"@,
        Step::Head => if o.head is Bf16 {
            "gemm_binv_b"@
        } else {
            "gemm_mma_fp4_b"@
        },
        Step::Shortlist => "df2_top256_b"@,
        Step::Rerank => "df2_head_rerank_b"@,
        Step::FirstDraft => "dspark_row0_argmax_b"@,
        Step::ChainScan(_) => if o.first_plain || o.scan_broadcast {
            "dspark_chain_a"@
        } else {
            "dspark_chain_c"@
        },
        Step::ChainPick(_) => "dspark_chain_b"@,
    }
}

/// Blocks of 256 threads that cover `n` elements.
pub open spec fn blocks(n: int) -> u32 {
    ((n + 255) / 256) as u32
}

/// Blocks of a narrow product with `n` outputs, four each.
pub open spec fn quads(n: int) -> u32 {
    ((n + 3) / 4) as u32
}

/// Blocks of the coarse head: six per multiprocessor, at most one per sixteen tokens.
pub open spec fn head_blocks(sms: usize) -> u32 {
    if sms * 6 < VOCAB / 16 {
        (sms * 6) as u32
    } else {
        (VOCAB / 16) as u32
    }
}

/// Grid, block and shared memory of a step.
pub open spec fn shape_of(o: RoundOptions, s: Step) -> (
    (u32, u32, u32),
    (u32, u32, u32),
    u32,
) {
    let t = (256u32, 1u32, 1u32);
    match s {
        Step::Scalars => ((1u32, 1u32, 1u32), (32u32, 1u32, 1u32), 0u32),
        Step::GatherRope => ((blocks(BLOCK * HEAD_DIM), 1u32, 1u32), t, 0u32),
        Step::Embed => ((blocks(HIDDEN * BLOCK), 1u32, 1u32), t, 0u32),
        Step::InputNorm(_) => ((BLOCK as u32, 1u32, 1u32), (1024u32, 1u32, 1u32), 4096u32),
        Step::PostNorm(_) => ((BLOCK as u32, 1u32, 1u32), (1024u32, 1u32, 1u32), 4096u32),
        Step::FinalNorm => ((BLOCK as u32, 1u32, 1u32), (1024u32, 1u32, 1u32), 4096u32),
        Step::QNorm(_) => (
            ((BLOCK * NUM_HEADS) as u32, 1u32, 1u32),
            (HEAD_DIM as u32, 1u32, 1u32),
            (HEAD_DIM * 4) as u32,
        ),
        Step::KNorm(_) => (
            ((BLOCK * NUM_KV_HEADS) as u32, 1u32, 1u32),
            (HEAD_DIM as u32, 1u32, 1u32),
            (HEAD_DIM * 4) as u32,
        ),
        Step::QGemm(_) => ((quads(NUM_HEADS * HEAD_DIM), 1u32, 1u32), t, 0u32),
        Step::KGemm(_) => ((quads(NUM_KV_HEADS * HEAD_DIM), 1u32, 1u32), t, 0u32),
        Step::VGemm(_) => ((quads(NUM_KV_HEADS * HEAD_DIM), 1u32, 1u32), t, 0u32),
        Step::OGemm(_) => ((quads(HIDDEN as int), 1u32, 1u32), t, 0u32),
        Step::GateGemm(_) => ((quads(INTER as int), 1u32, 1u32), t, 0u32),
        Step::UpGemm(_) => ((quads(INTER as int), 1u32, 1u32), t, 0u32),
        Step::DownGemm(_) => ((quads(HIDDEN as int), 1u32, 1u32), t, 0u32),
        Step::QRope(_) => ((blocks(BLOCK * NUM_HEADS * (HEAD_DIM / 2)), 1u32, 1u32), t, 0u32),
        Step::KRope(_) => ((blocks(BLOCK * NUM_KV_HEADS * (HEAD_DIM / 2)), 1u32, 1u32), t, 0u32),
        Step::WriteBlock(_) => ((blocks(BLOCK * NUM_KV_HEADS * HEAD_DIM), 1u32, 1u32), t, 0u32),
        Step::Attend(_) => match o.attn {
            AttnKind::Scores => (
                ((BLOCK * NUM_HEADS) as u32, 1u32, 1u32),
                (HEAD_DIM as u32, 1u32, 1u32),
                ((HEAD_DIM + 32) * 4) as u32,
            ),
            AttnKind::Tiled => (
                ((BLOCK * NUM_HEADS) as u32, 1u32, 1u32),
                (HEAD_DIM as u32, 1u32, 1u32),
                ((HEAD_DIM + 32) * 4 + DSPARK_ATTN_TILE * (HEAD_DIM + 16) * 2) as u32,
            ),
            AttnKind::Split => (
                (NUM_KV_HEADS as u32, 8u32, 1u32),
                t,
                (BLOCK * (NUM_HEADS / NUM_KV_HEADS) * HEAD_DIM * 4 + 2 * 32 * HEAD_DIM * 2) as u32,
            ),
            AttnKind::Tensor => ((NUM_KV_HEADS as u32, 16u32, 1u32), (96u32, 1u32, 1u32), 0u32),
        },
        Step::Merge(_) => ((NUM_KV_HEADS as u32, 1u32, 1u32), t, 0u32),
        Step::AddAttention(_) => ((blocks(HIDDEN * BLOCK), 1u32, 1u32), t, 0u32),
        Step::AddMlp(_) => ((blocks(HIDDEN * BLOCK), 1u32, 1u32), t, 0u32),
        Step::SiluMul(_) => ((blocks(INTER * BLOCK), 1u32, 1u32), t, 0u32),
        Step::Head => if o.head is Bf16 {
            ((VOCAB as u32, 1u32, 1u32), t, (BLOCK * 256 * 4) as u32)
        } else {
            ((head_blocks(o.sms), 1u32, 1u32), t, 0u32)
        },
        Step::Shortlist => ((BLOCK as u32, 1u32, 1u32), t, 0u32),
        Step::Rerank => (((BLOCK * 256) as u32, 1u32, 1u32), t, 0u32),
        Step::FirstDraft => ((1u32, 1u32, 1u32), t, 256u32),
        Step::ChainScan(_) => (
            (CHAIN_BLOCKS as u32, 1u32, 1u32),
            t,
            ((MARKOV_RANK + 64) * 4) as u32,
        ),
        Step::ChainPick(_) => ((1u32, 1u32, 1u32), t, 256u32),
    }
}

/// How a step is launched.
pub fn launch(o: &RoundOptions, s: Step) -> (r: Launch)
    requires
        o.sms * 6 <= usize::MAX,
    ensures
        r.kernel@ == kernel_text(*o, s),
        (r.grid, r.block, r.smem) == shape_of(*o, s),
{
    let t: (u32, u32, u32) = (256, 1, 1);
    let rope: &'static str = if o.rope_interleaved {
        "dspark_rope_b"
    } else {
        "rope_b"
    };
    match s {
        Step::Scalars => Launch { kernel: "dspark_scalars_b", grid: (1, 1, 1), block: (32, 1, 1), smem: 0 },
        Step::GatherRope => Launch { kernel: "gather_rope_b", grid: (4, 1, 1), block: t, smem: 0 },
        Step::Embed => {
            let kernel: &'static str = match o.embed {
                Borrowed::Nvfp4 => "embed_gather_fp4_tiled_b",
                _ => "embed_gather_b",
            };
            Launch { kernel, grid: (140, 1, 1), block: t, smem: 0 }
        },
        Step::InputNorm(_) => Launch { kernel: "rmsnorm_b", grid: (7, 1, 1), block: (1024, 1, 1), smem: 4096 },
        Step::PostNorm(_) => Launch { kernel: "rmsnorm_b", grid: (7, 1, 1), block: (1024, 1, 1), smem: 4096 },
        Step::FinalNorm => Launch { kernel: "rmsnorm_b", grid: (7, 1, 1), block: (1024, 1, 1), smem: 4096 },
        Step::QNorm(_) => Launch { kernel: "rmsnorm_perhead_b", grid: (280, 1, 1), block: (128, 1, 1), smem: 512 },
        Step::KNorm(_) => Launch { kernel: "rmsnorm_perhead_b", grid: (56, 1, 1), block: (128, 1, 1), smem: 512 },
        Step::QGemm(_) => Launch { kernel: "gemm_dsp_b_m8_r4", grid: (1280, 1, 1), block: t, smem: 0 },
        Step::KGemm(_) => Launch { kernel: "gemm_dsp_b_m8_r4", grid: (256, 1, 1), block: t, smem: 0 },
        Step::VGemm(_) => Launch { kernel: "gemm_dsp_b_m8_r4", grid: (256, 1, 1), block: t, smem: 0 },
        Step::OGemm(_) => Launch { kernel: "gemm_dsp_b_m8_r4", grid: (1280, 1, 1), block: t, smem: 0 },
        Step::GateGemm(_) => Launch { kernel: "gemm_dsp_b_m8_r4", grid: (2560, 1, 1), block: t, smem: 0 },
        Step::UpGemm(_) => Launch { kernel: "gemm_dsp_b_m8_r4", grid: (2560, 1, 1), block: t, smem: 0 },
        Step::DownGemm(_) => Launch { kernel: "gemm_dsp_b_m8_r4", grid: (1280, 1, 1), block: t, smem: 0 },
        Step::QRope(_) => Launch { kernel: rope, grid: (70, 1, 1), block: t, smem: 0 },
        Step::KRope(_) => Launch { kernel: rope, grid: (14, 1, 1), block: t, smem: 0 },
        Step::WriteBlock(_) => Launch { kernel: "write_kv_b", grid: (28, 1, 1), block: t, smem: 0 },
        Step::Attend(_) => match o.attn {
            AttnKind::Scores => Launch {
                kernel: "dspark_attn_full_ring_b",
                grid: (280, 1, 1),
                block: (128, 1, 1),
                smem: 640,
            },
            AttnKind::Tiled => Launch {
                kernel: "dspark_attn_full_ring_c",
                grid: (280, 1, 1),
                block: (128, 1, 1),
                smem: 37504,
            },
            AttnKind::Split => Launch {
                kernel: "dspark_attn_full_ring_d",
                grid: (8, 8, 1),
                block: t,
                smem: 34304,
            },
            AttnKind::Tensor => Launch {
                kernel: "dspark_attn_full_ring_e",
                grid: (8, 16, 1),
                block: (96, 1, 1),
                smem: 0,
            },
        },
        Step::Merge(_) => Launch { kernel: "dspark_attn_merge_d", grid: (8, 1, 1), block: t, smem: 0 },
        Step::AddAttention(_) => Launch { kernel: "add_residual_b", grid: (140, 1, 1), block: t, smem: 0 },
        Step::AddMlp(_) => Launch { kernel: "add_residual_b", grid: (140, 1, 1), block: t, smem: 0 },
        Step::SiluMul(_) => Launch { kernel: "silu_mul_b", grid: (280, 1, 1), block: t, smem: 0 },
        Step::Head => match o.head {
            Borrowed::Bf16 => Launch {
                kernel: "gemm_binv_b",
                grid: (248320, 1, 1),
                block: t,
                smem: 7168,
            },
            _ => {
                let wide: usize = o.sms * 6;
                let n: usize = if wide < VOCAB / 16 {
                    wide
                } else {
                    VOCAB / 16
                };
                Launch { kernel: "gemm_mma_fp4_b", grid: (n as u32, 1, 1), block: t, smem: 0 }
            },
        },
        Step::Shortlist => Launch { kernel: "df2_top256_b", grid: (7, 1, 1), block: t, smem: 0 },
        Step::Rerank => Launch { kernel: "df2_head_rerank_b", grid: (1792, 1, 1), block: t, smem: 0 },
        Step::FirstDraft => Launch { kernel: "dspark_row0_argmax_b", grid: (1, 1, 1), block: t, smem: 256 },
        Step::ChainScan(_) => {
            let kernel: &'static str = if o.first_plain || o.scan_broadcast {
                "dspark_chain_a"
            } else {
                "dspark_chain_c"
            };
            Launch { kernel, grid: (512, 1, 1), block: t, smem: 1280 }
        },
        Step::ChainPick(_) => Launch { kernel: "dspark_chain_b", grid: (1, 1, 1), block: t, smem: 256 },
    }
}

/// Number of kernels that are loaded.
pub const LOADED: usize = 30;

/// The modules that kernels are loaded from, and their kernels: eleven of the batch, seven of the
/// products, the rest of the drafter.
pub open spec fn loaded(i: int) -> Seq<char> {
    if i == 0 {
        "rmsnorm_b"@
    } else if i == 1 {
        "rmsnorm_perhead_b"@
    } else if i == 2 {
        "rope_b"@
    } else if i == 3 {
        "gather_rope_b"@
    } else if i == 4 {
        "write_kv_b"@
    } else if i == 5 {
        "add_residual_b"@
    } else if i == 6 {
        "silu_mul_b"@
    } else if i == 7 {
        "kernel_build_id"@
    } else if i == 8 {
        "embed_gather_b"@
    } else if i == 9 {
        "gemm_binv_b"@
    } else if i == 10 {
        "gemm_mma_fp4_b"@
    } else if i == 11 {
        "gemm_dsp_b_m8_r4"@
    } else if i == 12 {
        "gemm_tiled_b"@
    } else if i == 13 {
        "bf16tof32"@
    } else if i == 14 {
        "f32tobf16"@
    } else if i == 15 {
        "kernel_build_id"@
    } else if i == 16 {
        "df2_top256_b"@
    } else if i == 17 {
        "df2_head_rerank_b"@
    } else if i == 18 {
        "kernel_build_id"@
    } else if i == 19 {
        "dspark_attn_full_ring_b"@
    } else if i == 20 {
        "dspark_attn_full_ring_c"@
    } else if i == 21 {
        "dspark_attn_full_ring_d"@
    } else if i == 22 {
        "dspark_attn_full_ring_e"@
    } else if i == 23 {
        "dspark_attn_merge_d"@
    } else if i == 24 {
        "dspark_chain_a"@
    } else if i == 25 {
        "dspark_chain_b"@
    } else if i == 26 {
        "dspark_chain_c"@
    } else if i == 27 {
        "dspark_row0_argmax_b"@
    } else if i == 28 {
        "dspark_rope_b"@
    } else {
        "dspark_scalars_b"@
    }
}

/// Name of a kernel that is loaded.
pub fn loaded_name(i: usize) -> (r: &'static str)
    requires
        i < LOADED,
    ensures
        r@ == loaded(i as int),
{
    match i {
        0 => "rmsnorm_b",
        1 => "rmsnorm_perhead_b",
        2 => "rope_b",
        3 => "gather_rope_b",
        4 => "write_kv_b",
        5 => "add_residual_b",
        6 => "silu_mul_b",
        7 => "kernel_build_id",
        8 => "embed_gather_b",
        9 => "gemm_binv_b",
        10 => "gemm_mma_fp4_b",
        11 => "gemm_dsp_b_m8_r4",
        12 => "gemm_tiled_b",
        13 => "bf16tof32",
        14 => "f32tobf16",
        15 => "kernel_build_id",
        16 => "df2_top256_b",
        17 => "df2_head_rerank_b",
        18 => "kernel_build_id",
        19 => "dspark_attn_full_ring_b",
        20 => "dspark_attn_full_ring_c",
        21 => "dspark_attn_full_ring_d",
        22 => "dspark_attn_full_ring_e",
        23 => "dspark_attn_merge_d",
        24 => "dspark_chain_a",
        25 => "dspark_chain_b",
        26 => "dspark_chain_c",
        27 => "dspark_row0_argmax_b",
        28 => "dspark_rope_b",
        _ => "dspark_scalars_b",
    }
}

/// Every kernel of a round is one of those that are loaded, unless the target's embedding is
/// packed in four bits: that kernel is not loaded.
pub proof fn law_round_launches_loaded_kernels(o: RoundOptions, s: Step)
    requires
        s is Embed ==> !(o.embed is Nvfp4),
    ensures
        exists|i: int| 0 <= i < LOADED && kernel_text(o, s) == #[trigger] loaded(i),
{
    let i: int = match s {
        Step::Scalars => 29,
        Step::GatherRope => 3,
        Step::Embed => 8,
        Step::InputNorm(_) => 0,
        Step::PostNorm(_) => 0,
        Step::FinalNorm => 0,
        Step::QNorm(_) => 1,
        Step::KNorm(_) => 1,
        Step::QGemm(_) => 11,
        Step::KGemm(_) => 11,
        Step::VGemm(_) => 11,
        Step::OGemm(_) => 11,
        Step::GateGemm(_) => 11,
        Step::UpGemm(_) => 11,
        Step::DownGemm(_) => 11,
        Step::QRope(_) => if o.rope_interleaved {
            28
        } else {
            2
        },
        Step::KRope(_) => if o.rope_interleaved {
            28
        } else {
            2
        },
        Step::WriteBlock(_) => 4,
        Step::Attend(_) => match o.attn {
            AttnKind::Scores => 19,
            AttnKind::Tiled => 20,
            AttnKind::Split => 21,
            AttnKind::Tensor => 22,
        },
        Step::Merge(_) => 23,
        Step::AddAttention(_) => 5,
        Step::AddMlp(_) => 5,
        Step::SiluMul(_) => 6,
        Step::Head => if o.head is Bf16 {
            9
        } else {
            10
        },
        Step::Shortlist => 16,
        Step::Rerank => 17,
        Step::FirstDraft => 27,
        Step::ChainScan(_) => if o.first_plain || o.scan_broadcast {
            24
        } else {
            26
        },
        Step::ChainPick(_) => 25,
    };
    assert(kernel_text(o, s) == loaded(i));
}

/// Each draft of a chain is picked behind its own scan, in order.
pub proof fn law_chain_is_in_order(k: int, n: int, j: int)
    requires
        0 <= k <= j < n <= BLOCK,
    ensures
        chain_steps(k, n).len() == 2 * (n - k),
        chain_steps(k, n)[2 * (j - k)] == Step::ChainScan(j as usize),
        chain_steps(k, n)[2 * (j - k) + 1] == Step::ChainPick(j as usize),
    decreases n,
{
    lemma_chain_len(k, n - 1);
    if j < n - 1 {
        law_chain_is_in_order(k, n - 1, j);
    }
}

proof fn lemma_chain_len(k: int, n: int)
    requires
        0 <= k <= n,
    ensures
        chain_steps(k, n).len() == 2 * (n - k),
    decreases n,
{
    if n > k {
        lemma_chain_len(k, n - 1);
    }
}


/// `a` runs before `b`.
pub open spec fn runs_before(steps: Seq<Step>, a: Step, b: Step) -> bool {
    exists|i: int, j: int| 0 <= i < j < steps.len() && #[trigger] steps[i] == a && #[trigger] steps[j] == b
}

/// A layer runs in the order that its data need: queries and keys are projected, normalized and
/// rotated, keys and values are written before the layer attends, the parts of a split attention are
/// merged, and each half of the layer is added to the hidden state behind its last product.
pub proof fn law_a_layer_runs_in_order(o: RoundOptions, l: usize)
    ensures
        ({
            let s = layer_steps(o, l);
            &&& runs_before(s, Step::InputNorm(l), Step::QGemm(l))
            &&& runs_before(s, Step::QGemm(l), Step::QNorm(l))
            &&& runs_before(s, Step::QNorm(l), Step::QRope(l))
            &&& runs_before(s, Step::QRope(l), Step::Attend(l))
            &&& runs_before(s, Step::InputNorm(l), Step::KGemm(l))
            &&& runs_before(s, Step::KGemm(l), Step::KNorm(l))
            &&& runs_before(s, Step::KNorm(l), Step::KRope(l))
            &&& runs_before(s, Step::KRope(l), Step::WriteBlock(l))
            &&& runs_before(s, Step::InputNorm(l), Step::VGemm(l))
            &&& runs_before(s, Step::VGemm(l), Step::WriteBlock(l))
            &&& runs_before(s, Step::WriteBlock(l), Step::Attend(l))
            &&& runs_before(s, Step::Attend(l), Step::OGemm(l))
            &&& runs_before(s, Step::OGemm(l), Step::AddAttention(l))
            &&& runs_before(s, Step::AddAttention(l), Step::PostNorm(l))
            &&& runs_before(s, Step::PostNorm(l), Step::GateGemm(l))
            &&& runs_before(s, Step::PostNorm(l), Step::UpGemm(l))
            &&& runs_before(s, Step::GateGemm(l), Step::SiluMul(l))
            &&& runs_before(s, Step::UpGemm(l), Step::SiluMul(l))
            &&& runs_before(s, Step::SiluMul(l), Step::DownGemm(l))
            &&& runs_before(s, Step::DownGemm(l), Step::AddMlp(l))
            &&& (o.attn is Split || o.attn is Tensor) ==> runs_before(
                s,
                Step::Attend(l),
                Step::Merge(l),
            ) && runs_before(s, Step::Merge(l), Step::OGemm(l)) && s.len() == 19
            &&& !(o.attn is Split || o.attn is Tensor) ==> s.len() == 18
        }),
{
    let s = layer_steps(o, l);
    let m: int = if o.attn is Split || o.attn is Tensor {
        1
    } else {
        0
    };
    assert(s[0] == Step::InputNorm(l) && s[1] == Step::QGemm(l) && s[2] == Step::QNorm(l));
    assert(s[3] == Step::KGemm(l) && s[4] == Step::KNorm(l) && s[5] == Step::QRope(l));
    assert(s[6] == Step::KRope(l) && s[7] == Step::VGemm(l) && s[8] == Step::WriteBlock(l));
    assert(s[9] == Step::Attend(l));
    assert(m == 1 ==> s[10] == Step::Merge(l));
    assert(s[10 + m] == Step::OGemm(l) && s[11 + m] == Step::AddAttention(l));
    assert(s[12 + m] == Step::PostNorm(l) && s[13 + m] == Step::GateGemm(l));
    assert(s[14 + m] == Step::UpGemm(l) && s[15 + m] == Step::SiluMul(l));
    assert(s[16 + m] == Step::DownGemm(l) && s[17 + m] == Step::AddMlp(l));
}

proof fn lemma_layers_steps(o: RoundOptions, n: int, l: int, k: int)
    requires
        0 <= l < n,
        0 <= k < layer_steps(o, 0).len(),
    ensures
        layers_steps(o, n).len() == n * layer_steps(o, 0).len(),
        layers_steps(o, n)[l * layer_steps(o, 0).len() + k] == layer_steps(o, l as usize)[k],
    decreases n,
{
    let w = layer_steps(o, 0).len() as int;
    assert(layer_steps(o, (n - 1) as usize).len() == w);
    assert((n - 1) * w + w == n * w) by (nonlinear_arith);
    if n == 1 {
        assert(layers_steps(o, 0).len() == 0);
        assert(l * w + k == k) by (nonlinear_arith)
            requires
                l == 0,
        ;
        assert(1 * w == w);
    } else if l < n - 1 {
        lemma_layers_steps(o, n - 1, l, k);
        assert(0 <= l * w + k < (n - 1) * w) by (nonlinear_arith)
            requires
                0 <= l < n - 1,
                0 <= k < w,
        ;
    } else {
        lemma_layers_steps(o, n - 1, n - 2, 0);
    }
}

/// A round runs each of its layers once and in order, behind the scalars, the rotation's table and
/// the embeddings. A full round then normalizes, runs the head, and drafts all seven tokens; one that
/// is cut short ends with its last layer.
pub proof fn law_a_round_runs_every_layer(o: RoundOptions, n: int, l: int, k: int)
    requires
        0 <= l < n <= 5,
        0 <= k < layer_steps(o, 0).len(),
    ensures
        ({
            let s = round_steps(o, n);
            let w = layer_steps(o, 0).len() as int;
            &&& s[0] is Scalars && s[1] is GatherRope && s[2] is Embed
            &&& s[3 + l * w + k] == layer_steps(o, l as usize)[k]
            &&& n < 5 ==> s.len() == 3 + n * w
            &&& n == 5 ==> s[3 + 5 * w] is FinalNorm && s[4 + 5 * w] is Head && s.len() == 5 + 5 * w + (
            if o.head is TwoStage {
                2int
            } else {
                0
            }) + (if o.first_plain {
                13int
            } else {
                14
            }) && s.last() == Step::ChainPick(6)
        }),
{
    lemma_layers_steps(o, n, l, k);
    let w = layer_steps(o, 0).len() as int;
    let tail = layers_steps(o, n);
    let backbone = seq![Step::Scalars, Step::GatherRope, Step::Embed] + tail;
    assert(0 <= l * w + k < n * w) by (nonlinear_arith)
        requires
            0 <= l < n,
            0 <= k < w,
    ;
    assert(backbone[3 + (l * w + k)] == tail[l * w + k]);
    lemma_chain_len(0, 7);
    lemma_chain_len(1, 7);
    assert(chain_steps(0, 7).last() == Step::ChainPick(6));
    assert(chain_steps(1, 7).last() == Step::ChainPick(6));
}

/// Blocks of 256 threads, and of four rows, cover what they run over, and none is idle.
pub proof fn law_blocks_and_rows_cover(n: int)
    requires
        0 < n <= 0x8000_0000,
    ensures
        256 * (blocks(n) - 1) < n <= 256 * blocks(n),
        4 * (quads(n) - 1) < n <= 4 * quads(n),
{
}

/// Every kernel of a round has a thread for each of its elements: a block of seven tokens, hidden
/// states of 5120 values, 40 heads and 8 key heads of 128 values, and 10240 inner values.
pub proof fn law_launches_cover_a_round(o: RoundOptions, l: usize)
    ensures
        shape_of(o, Step::Embed).0.0 == 5120 * 7 / 256,
        shape_of(o, Step::AddAttention(l)).0.0 == 5120 * 7 / 256,
        shape_of(o, Step::AddMlp(l)).0.0 == 5120 * 7 / 256,
        shape_of(o, Step::SiluMul(l)).0.0 == 10240 * 7 / 256,
        shape_of(o, Step::QGemm(l)).0.0 * 4 == 40 * 128,
        shape_of(o, Step::KGemm(l)).0.0 * 4 == 8 * 128,
        shape_of(o, Step::VGemm(l)).0.0 * 4 == 8 * 128,
        shape_of(o, Step::OGemm(l)).0.0 * 4 == 5120,
        shape_of(o, Step::GateGemm(l)).0.0 * 4 == 10240,
        shape_of(o, Step::UpGemm(l)).0.0 * 4 == 10240,
        shape_of(o, Step::DownGemm(l)).0.0 * 4 == 5120,
        shape_of(o, Step::QNorm(l)).0.0 == 7 * 40 && shape_of(o, Step::QNorm(l)).1.0 == 128,
        shape_of(o, Step::KNorm(l)).0.0 == 7 * 8 && shape_of(o, Step::KNorm(l)).1.0 == 128,
        shape_of(o, Step::QRope(l)).0.0 * 256 == 7 * 40 * 64,
        shape_of(o, Step::KRope(l)).0.0 * 256 == 7 * 8 * 64,
        shape_of(o, Step::WriteBlock(l)).0.0 * 256 == 7 * 8 * 128,
        shape_of(o, Step::InputNorm(l)).0.0 == 7 && shape_of(o, Step::PostNorm(l)).0.0 == 7
            && shape_of(o, Step::FinalNorm).0.0 == 7,
        o.attn is Scores || o.attn is Tiled ==> shape_of(o, Step::Attend(l)).0.0 == 7 * 40 && shape_of(
            o,
            Step::Attend(l),
        ).1.0 == 128,
        o.attn is Split || o.attn is Tensor ==> shape_of(o, Step::Attend(l)).0.0 == 8 && shape_of(
            o,
            Step::Merge(l),
        ).0.0 == 8,
        o.head is Bf16 ==> shape_of(o, Step::Head).0.0 == 248320,
        !(o.head is Bf16) ==> shape_of(o, Step::Head).0.0 <= 15520 && (o.sms <= 2586 ==> shape_of(
            o,
            Step::Head,
        ).0.0 == 6 * o.sms),
        shape_of(o, Step::Shortlist).0.0 == 7 && shape_of(o, Step::Rerank).0.0 == 7 * 256,
        shape_of(o, Step::Attend(l)).2 <= 49152,
{
}

/// Kernels of attention by their letters; any other word means the last.
pub proof fn law_attention_kernels_have_letters(s: Seq<char>)
    ensures
        named_attn(s) is Scores <==> s == "b"@,
        named_attn(s) is Tiled <==> s == "c"@,
        named_attn(s) is Split <==> s == "d"@,
        named_attn(s) is Tensor <==> s != "b"@ && s != "c"@ && s != "d"@,
{
    reveal_strlit("b");
    reveal_strlit("c");
    reveal_strlit("d");
    assert("b"@[0] == 'b' && "c"@[0] == 'c' && "d"@[0] == 'd');
}

} // verus!
