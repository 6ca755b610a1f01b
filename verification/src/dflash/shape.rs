//! Launch geometry of the drafter's kernels.

use vstd::prelude::*;

use crate::dflash::config;
use crate::single::Single;
use crate::text;

verus! {

/// Context length, causality and window, in one word.
pub open spec fn packed_mask(ctx_len: usize, causal: bool, window: usize) -> u64 {
    (ctx_len as u64) | ((if causal {
        1u64
    } else {
        0
    }) << 32) | ((window as u64) << 33)
}

/// Packs the context length, the causality and the window of a layer's mask.
pub fn dflash_mask_pack(ctx_len: usize, causal: bool, window: usize) -> (r: u64)
    ensures
        r == packed_mask(ctx_len, causal, window),
{
    (ctx_len as u64) | ((if causal {
        1u64
    } else {
        0
    }) << 32) | ((window as u64) << 33)
}

/// A packed mask can be taken apart again, where each part fits in its place.
pub proof fn law_mask_can_be_unpacked(ctx_len: usize, causal: bool, window: usize)
    requires
        ctx_len < 0x1_0000_0000,
        window < 0x8000_0000,
    ensures
        packed_mask(ctx_len, causal, window) & 0xFFFF_FFFF == ctx_len as u64,
        (packed_mask(ctx_len, causal, window) >> 32) & 1 == if causal {
            1u64
        } else {
            0
        },
        packed_mask(ctx_len, causal, window) >> 33 == window as u64,
{
    let a = ctx_len as u64;
    let c: u64 = if causal {
        1
    } else {
        0
    };
    let w = window as u64;
    let m = a | (c << 32) | (w << 33);
    assert(m & 0xFFFF_FFFF == a && (m >> 32) & 1 == c && m >> 33 == w) by (bit_vector)
        requires
            a < 0x1_0000_0000,
            c <= 1,
            w < 0x8000_0000,
            m == a | (c << 32) | (w << 33),
    ;
}

/// Blocks of 256 threads that cover `n` elements.
pub open spec fn blocks(n: int) -> int {
    (n + 255) / 256
}

fn to_dim(n: usize) -> (r: u32)
    ensures
        r == n as u32,
{
    #[verifier::truncate]
    (n as u32)
}

/// Launch grid of an elementwise kernel over `n` elements.
pub fn grid(n: usize) -> (r: (u32, u32, u32))
    requires
        n <= usize::MAX - 255,
    ensures
        r == (blocks(n as int) as u32, 1u32, 1u32),
{
    (to_dim((n + 255) / 256), 1, 1)
}

/// How a layer's attention is launched.
#[derive(Clone, Copy, PartialEq, Eq, Debug)]
pub enum Attention {
    /// Keys and values stream through shared memory, `tk` positions at a time.
    Tiled { kernel: &'static str, grid: u32, smem: u32, tk: usize },
    /// One block per row and head.
    Eager { grid: u32, block: u32, smem: u32 },
}

/// Sizes for which a tiled kernel exists: values per lane, and query heads per key head.
pub open spec fn has_tiled(dper: int, g: int) -> bool {
    ||| dper == 1 && (g == 1 || g == 2 || g == 4)
    ||| dper == 2 && (g == 1 || g == 2 || g == 4 || g == 8 || g == 16)
    ||| dper == 4 && (g == 1 || g == 2 || g == 4 || g == 8 || g == 16)
    ||| dper == 8 && (g == 1 || g == 2 || g == 4 || g == 8)
}

/// Kernels of the drafter: what is loaded, and all that is ever launched.
pub open spec fn draft_kernel(i: int) -> Seq<char> {
    if i == 0 {
        "dflash_rmsnorm_b"@
    } else if i == 1 {
        "dflash_rope_b"@
    } else if i == 2 {
        "dflash_attn_b"@
    } else if i == 3 {
        "kernel_build_id"@
    } else if i == 4 {
        "dflash_attn_tiled_d1_g1"@
    } else if i == 5 {
        "dflash_attn_tiled_d1_g2"@
    } else if i == 6 {
        "dflash_attn_tiled_d1_g4"@
    } else if i == 7 {
        "dflash_attn_tiled_d2_g1"@
    } else if i == 8 {
        "dflash_attn_tiled_d2_g2"@
    } else if i == 9 {
        "dflash_attn_tiled_d2_g4"@
    } else if i == 10 {
        "dflash_attn_tiled_d2_g8"@
    } else if i == 11 {
        "dflash_attn_tiled_d2_g16"@
    } else if i == 12 {
        "dflash_attn_tiled_d4_g1"@
    } else if i == 13 {
        "dflash_attn_tiled_d4_g2"@
    } else if i == 14 {
        "dflash_attn_tiled_d4_g4"@
    } else if i == 15 {
        "dflash_attn_tiled_d4_g8"@
    } else if i == 16 {
        "dflash_attn_tiled_d4_g16"@
    } else if i == 17 {
        "dflash_attn_tiled_d8_g1"@
    } else if i == 18 {
        "dflash_attn_tiled_d8_g2"@
    } else if i == 19 {
        "dflash_attn_tiled_d8_g4"@
    } else {
        "dflash_attn_tiled_d8_g8"@
    }
}

/// Number of kernels of the drafter.
pub const DRAFT_KERNELS: usize = 21;

/// Place of the tiled kernel for the sizes among the kernels of the drafter.
pub open spec fn tiled_index(dper: int, g: int) -> int {
    let step = if g == 1 {
        0int
    } else if g == 2 {
        1
    } else if g == 4 {
        2
    } else if g == 8 {
        3
    } else {
        4
    };
    (if dper == 1 {
        4int
    } else if dper == 2 {
        7
    } else if dper == 4 {
        12
    } else {
        17
    }) + step
}

/// Name of a kernel of the drafter.
pub fn draft_kernel_name(i: usize) -> (r: &'static str)
    requires
        i < DRAFT_KERNELS,
    ensures
        r@ == draft_kernel(i as int),
{
    match i {
        0 => "dflash_rmsnorm_b",
        1 => "dflash_rope_b",
        2 => "dflash_attn_b",
        3 => "kernel_build_id",
        4 => "dflash_attn_tiled_d1_g1",
        5 => "dflash_attn_tiled_d1_g2",
        6 => "dflash_attn_tiled_d1_g4",
        7 => "dflash_attn_tiled_d2_g1",
        8 => "dflash_attn_tiled_d2_g2",
        9 => "dflash_attn_tiled_d2_g4",
        10 => "dflash_attn_tiled_d2_g8",
        11 => "dflash_attn_tiled_d2_g16",
        12 => "dflash_attn_tiled_d4_g1",
        13 => "dflash_attn_tiled_d4_g2",
        14 => "dflash_attn_tiled_d4_g4",
        15 => "dflash_attn_tiled_d4_g8",
        16 => "dflash_attn_tiled_d4_g16",
        17 => "dflash_attn_tiled_d8_g1",
        18 => "dflash_attn_tiled_d8_g2",
        19 => "dflash_attn_tiled_d8_g4",
        _ => "dflash_attn_tiled_d8_g8",
    }
}

fn tiled_kernel(dper: usize, g: usize) -> (r: Option<&'static str>)
    ensures
        r is Some <==> has_tiled(dper as int, g as int),
        r matches Some(k) ==> k@ == draft_kernel(tiled_index(dper as int, g as int))
            && tiled_index(dper as int, g as int) < DRAFT_KERNELS,
{
    let first: usize = match dper {
        1 => 4,
        2 => 7,
        4 => 12,
        8 => 17,
        _ => return None,
    };
    let step: usize = match g {
        1 => 0,
        2 => 1,
        4 => 2,
        8 => 3,
        16 => 4,
        _ => return None,
    };
    if (dper == 1 && step > 2) || (dper == 8 && step > 3) {
        return None;
    }
    Some(draft_kernel_name(first + step))
}

/// Positions that a tile holds: as many as make 8192 values, but at least eight.
pub open spec fn tile(hd: int) -> int {
    if 8192int / hd < 8 {
        8
    } else {
        8192int / hd
    }
}

/// The launch of a layer's attention over `q` rows.
pub open spec fn launches(hd: int, nh: int, nkv: int, q: int, eager: bool, a: Attention) -> bool {
    if !eager && has_tiled(hd / 32, nh / nkv) {
        a matches Attention::Tiled { kernel, grid, smem, tk } && {
            &&& kernel@ == draft_kernel(tiled_index(hd / 32, nh / nkv))
            &&& grid == (nkv * ((q + 3) / 4)) as u32
            &&& tk == tile(hd)
            &&& smem == (2 * tile(hd) * hd * 2) as u32
        }
    } else {
        a matches Attention::Eager { grid, block, smem } && {
            &&& grid == (q * nh) as u32
            &&& block == hd as u32
            &&& smem == (hd / 32 + 1) * 4
        }
    }
}

/// Chooses the launch of a layer's attention. `eager` keeps to one block per row and head.
pub fn attention(hd: usize, nh: usize, nkv: usize, q: usize, eager: bool) -> (a: Attention)
    requires
        config::head_dim_ok(hd),
        hd > 0,
        nkv > 0,
        q * nh <= usize::MAX,
        nkv * ((q + 3) / 4) <= usize::MAX,
        q <= usize::MAX - 3,
    ensures
        launches(hd as int, nh as int, nkv as int, q as int, eager, a),
{
    let tiled: Option<&'static str> = if eager {
        None
    } else {
        tiled_kernel(hd / 32, nh / nkv)
    };
    match tiled {
        Some(kernel) => {
            let even: usize = 8192 / hd;
            let tk: usize = if even < 8 {
                8
            } else {
                even
            };
            proof {
                assert(even * hd <= 8192) by (nonlinear_arith)
                    requires
                        even == 8192int / hd as int,
                        hd > 0,
                ;
                assert(tk * hd <= 8192 + 8 * 512) by (nonlinear_arith)
                    requires
                        tk == even || tk == 8,
                        even * hd <= 8192,
                        hd <= 512,
                        0 <= tk,
                ;
                assert(2 * tk * hd == 2 * (tk * hd)) by (nonlinear_arith);
                assert(0 <= tk * hd) by (nonlinear_arith);
            }
            Attention::Tiled {
                kernel,
                grid: to_dim(nkv * ((q + 3) / 4)),
                smem: to_dim(2 * tk * hd * 2),
                tk,
            }
        },
        None => Attention::Eager {
            grid: to_dim(q * nh),
            block: to_dim(hd),
            smem: (to_dim(hd / 32) + 1) * 4,
        },
    }
}

/// Every kernel that an attention launches is one of those that are loaded.
pub proof fn law_launched_kernels_are_loaded(
    hd: int,
    nh: int,
    nkv: int,
    q: int,
    eager: bool,
    a: Attention,
)
    requires
        launches(hd, nh, nkv, q, eager, a),
    ensures
        a matches Attention::Tiled { kernel, grid, smem, tk } ==> exists|i: int|
            0 <= i < DRAFT_KERNELS && kernel@ == #[trigger] draft_kernel(i),
{
    if a is Tiled {
        let i = tiled_index(hd / 32, nh / nkv);
        assert(0 <= i < DRAFT_KERNELS);
    }
}

/// Launch of a normalization of `batch` columns with `heads` groups of `n` values each.
pub open spec fn norm_block(n: int) -> int {
    if n < 1024 {
        n
    } else {
        1024
    }
}

/// Threads of a normalization over groups of `n` values. Its shared memory is four bytes each.
pub fn norm_threads(n: usize) -> (r: u32)
    ensures
        r == norm_block(n as int),
{
    if n < 1024 {
        n as u32
    } else {
        1024
    }
}

/// Products of at most two columns run the kernel that does not depend on the batch; wider ones
/// go to the library.
pub fn gemm_by_kernel(batch: usize) -> (r: bool)
    ensures
        r == (batch <= 2),
{
    batch <= 2
}

/// The first of the largest among the first `n` values from `at` on: later ones count only where
/// they are greater.
pub open spec fn first_best(v: Seq<Single>, at: int, n: int) -> int
    decreases n,
{
    if n <= 1 {
        0
    } else {
        let b = first_best(v, at, n - 1);
        if v[at + b].lt(v[at + n - 1]) {
            n - 1
        } else {
            b
        }
    }
}

/// The best token of each row.
pub fn top1(logits: &Vec<Single>, block: usize, vocab: usize) -> (r: Vec<u32>)
    requires
        logits@.len() == block * vocab,
    ensures
        r@ == Seq::new(
            block as nat,
            |b: int| first_best(logits@, b * vocab, vocab as int) as u32,
        ),
{
    let mut r: Vec<u32> = Vec::new();
    let mut b: usize = 0;
    let mut at: usize = 0;
    let len: usize = logits.len();
    while b < block
        invariant
            len == logits@.len(),
            len == block * vocab,
            b <= block,
            at == b * vocab,
            r@ == Seq::new(b as nat, |b: int| first_best(logits@, b * vocab, vocab as int) as u32),
        decreases block - b,
    {
        proof {
            assert(b * vocab + vocab <= block * vocab) by (nonlinear_arith)
                requires
                    b < block,
            ;
            assert((b + 1) * vocab == b * vocab + vocab) by (nonlinear_arith);
        }
        let mut best: usize = 0;
        let mut t: usize = 1;
        while t < vocab
            invariant
                len == logits@.len(),
                at + vocab <= len,
                1 <= t,
                t == 1 || t <= vocab,
                best < t,
                best == first_best(logits@, at as int, t as int),
            decreases vocab - t,
        {
            if logits[at + best].less(logits[at + t]) {
                best = t;
            }
            t += 1;
        }
        r.push(to_dim(best));
        b += 1;
        at += vocab;
        assert(r@ =~= Seq::new(
            b as nat,
            |b: int| first_best(logits@, b * vocab, vocab as int) as u32,
        ));
    }
    r
}


/// The best of `n` values is a value that no other exceeds, and the first such: every one before it
/// is below it.
pub proof fn law_the_first_of_the_best_is_taken(v: Seq<Single>, at: int, n: int)
    requires
        0 < n,
        forall|k: int| at <= k < at + n ==> !(#[trigger] v[k]).nan(),
    ensures
        0 <= first_best(v, at, n) < n,
        forall|k: int| at <= k < at + n ==> !v[at + first_best(v, at, n)].lt(#[trigger] v[k]),
        forall|k: int|
            at <= k < at + first_best(v, at, n) ==> (#[trigger] v[k]).lt(
                v[at + first_best(v, at, n)],
            ),
    decreases n,
{
    if n > 1 {
        law_the_first_of_the_best_is_taken(v, at, n - 1);
        let b = first_best(v, at, n - 1);
        let last = v[at + n - 1];
        assert(!last.nan());
        assert(!v[at + b].nan());
        assert forall|k: int| at <= k < at + n implies !v[at + first_best(v, at, n)].lt(
            #[trigger] v[k],
        ) by {
            if k < at + n - 1 {
                assert(!v[at + b].lt(v[k]));
            }
        }
        assert forall|k: int| at <= k < at + first_best(v, at, n) implies (#[trigger] v[k]).lt(
            v[at + first_best(v, at, n)],
        ) by {
            assert(!v[k].nan());
            if v[at + b].lt(last) {
                assert(!v[at + b].lt(v[k]));
            }
        }
    }
}

/// Blocks of 256 cover all elements, and none is idle.
pub proof fn law_blocks_cover_the_elements(n: int)
    requires
        0 < n,
    ensures
        256 * (blocks(n) - 1) < n <= 256 * blocks(n),
{
}

/// Launches of an attention cover it: a tiled one has a group of four columns for each key head and
/// its tiles fit in the memory that blocks share, an eager one has a block for each column and head.
pub proof fn law_attention_is_covered(
    hd: int,
    nh: int,
    nkv: int,
    q: int,
    eager: bool,
    a: Attention,
)
    requires
        launches(hd, nh, nkv, q, eager, a),
        0 < hd <= 512,
        hd % 32 == 0,
        0 < nkv,
        0 < q <= 16,
        0 <= nh,
        q * nh <= u32::MAX,
        nkv * 4 <= u32::MAX,
    ensures
        eager ==> a is Eager,
        a matches Attention::Tiled { kernel, grid, smem, tk } ==> {
            &&& exists|g: int|
                grid == #[trigger] (nkv * g) && 4 * (g - 1) < q <= 4 * g
            &&& tk >= 8
            &&& tk == 8 || tk * hd <= 8192 < (tk + 1) * hd
            &&& smem == 4 * tk * hd
            &&& smem <= 49152
        },
        a matches Attention::Eager { grid, block, smem } ==> grid == q * nh && block == hd && 8 * smem
            == hd + 32,
{
    let t = tile(hd);
    let d = 8192int / hd;
    assert(d * hd <= 8192 < (d + 1) * hd) by (nonlinear_arith)
        requires
            d == 8192int / hd,
            hd > 0,
    ;
    assert(8 <= t && d >= 16) by (nonlinear_arith)
        requires
            t == (if d < 8 { 8 } else { d }),
            8192 < (d + 1) * hd,
            0 < hd <= 512,
    ;
    assert(2 * t * hd * 2 == 4 * t * hd) by (nonlinear_arith);
    assert(0 <= 4 * t * hd <= 32768 && t <= 8192) by (nonlinear_arith)
        requires
            t == d,
            0 < t,
            d * hd <= 8192,
            0 < hd,
    ;
    let g = (q + 3) / 4;
    assert(0 <= nkv * g <= nkv * 4) by (nonlinear_arith)
        requires
            0 <= g <= 4,
            0 < nkv,
    ;
    assert(4 * (g - 1) < q <= 4 * g);
    if a is Tiled {
        assert((nkv * g) as u32 == nkv * g);
    }
    assert(0 <= q * nh) by (nonlinear_arith)
        requires
            0 < q,
            0 <= nh,
    ;
}

/// A norm has a thread for each value, up to 1024.
pub proof fn law_norms_have_a_thread_for_each_value(n: int)
    ensures
        norm_block(n) <= n && norm_block(n) <= 1024,
        norm_block(n) == n || norm_block(n) == 1024,
{
}


/// A tiled kernel is named by what it was built for: the values per thread and the heads that share
/// a key head.
pub proof fn law_tiled_kernels_are_named_by_their_shape(dper: int, g: int)
    requires
        has_tiled(dper, g),
    ensures
        draft_kernel(tiled_index(dper, g)) == "dflash_attn_tiled_d"@ + text::decimal(dper as nat)
            + "_g"@ + text::decimal(g as nat),
{
    reveal_strlit("dflash_attn_tiled_d");
    reveal_strlit("_g");
    reveal_with_fuel(text::decimal, 3);
    let name = "dflash_attn_tiled_d"@ + text::decimal(dper as nat) + "_g"@ + text::decimal(g as nat);
    if dper == 1 && g == 1 {
        reveal_strlit("dflash_attn_tiled_d1_g1");
        assert("dflash_attn_tiled_d1_g1"@ =~= name);
    }
    if dper == 1 && g == 2 {
        reveal_strlit("dflash_attn_tiled_d1_g2");
        assert("dflash_attn_tiled_d1_g2"@ =~= name);
    }
    if dper == 1 && g == 4 {
        reveal_strlit("dflash_attn_tiled_d1_g4");
        assert("dflash_attn_tiled_d1_g4"@ =~= name);
    }
    if dper == 2 && g == 1 {
        reveal_strlit("dflash_attn_tiled_d2_g1");
        assert("dflash_attn_tiled_d2_g1"@ =~= name);
    }
    if dper == 2 && g == 2 {
        reveal_strlit("dflash_attn_tiled_d2_g2");
        assert("dflash_attn_tiled_d2_g2"@ =~= name);
    }
    if dper == 2 && g == 4 {
        reveal_strlit("dflash_attn_tiled_d2_g4");
        assert("dflash_attn_tiled_d2_g4"@ =~= name);
    }
    if dper == 2 && g == 8 {
        reveal_strlit("dflash_attn_tiled_d2_g8");
        assert("dflash_attn_tiled_d2_g8"@ =~= name);
    }
    if dper == 2 && g == 16 {
        reveal_strlit("dflash_attn_tiled_d2_g16");
        assert("dflash_attn_tiled_d2_g16"@ =~= name);
    }
    if dper == 4 && g == 1 {
        reveal_strlit("dflash_attn_tiled_d4_g1");
        assert("dflash_attn_tiled_d4_g1"@ =~= name);
    }
    if dper == 4 && g == 2 {
        reveal_strlit("dflash_attn_tiled_d4_g2");
        assert("dflash_attn_tiled_d4_g2"@ =~= name);
    }
    if dper == 4 && g == 4 {
        reveal_strlit("dflash_attn_tiled_d4_g4");
        assert("dflash_attn_tiled_d4_g4"@ =~= name);
    }
    if dper == 4 && g == 8 {
        reveal_strlit("dflash_attn_tiled_d4_g8");
        assert("dflash_attn_tiled_d4_g8"@ =~= name);
    }
    if dper == 4 && g == 16 {
        reveal_strlit("dflash_attn_tiled_d4_g16");
        assert("dflash_attn_tiled_d4_g16"@ =~= name);
    }
    if dper == 8 && g == 1 {
        reveal_strlit("dflash_attn_tiled_d8_g1");
        assert("dflash_attn_tiled_d8_g1"@ =~= name);
    }
    if dper == 8 && g == 2 {
        reveal_strlit("dflash_attn_tiled_d8_g2");
        assert("dflash_attn_tiled_d8_g2"@ =~= name);
    }
    if dper == 8 && g == 4 {
        reveal_strlit("dflash_attn_tiled_d8_g4");
        assert("dflash_attn_tiled_d8_g4"@ =~= name);
    }
    if dper == 8 && g == 8 {
        reveal_strlit("dflash_attn_tiled_d8_g8");
        assert("dflash_attn_tiled_d8_g8"@ =~= name);
    }
}

} // verus!
