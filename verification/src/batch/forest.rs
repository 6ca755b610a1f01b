//! Packing the chains of several lanes into one verify.

use vstd::prelude::*;

use crate::batch::draft::{MAX_PACK, MAX_VERIFY};

verus! {

/// A lane's chain: the committed token at `main_pos` and the drafts behind it.
pub struct Chain {
    pub phys: usize,
    pub committed: u32,
    pub main_pos: usize,
    pub drafts: Vec<u32>,
}

/// The layout of a packed verify, by column. `path` has `MAX_VERIFY` entries per column and
/// `winsrc` one per tap of the convolution.
pub struct Forest {
    /// First column of each chain.
    pub starts: Vec<usize>,
    pub tokens: Vec<u32>,
    /// The column before, `-1` at the start of a chain.
    pub parent: Vec<i32>,
    pub slot: Vec<i32>,
    pub rope: Vec<i32>,
    pub kv_pos: Vec<i32>,
    /// Position of the chain's first column.
    pub col_pos_start: Vec<i32>,
    /// Depths of the columns that a column attends to.
    pub path: Vec<u8>,
    /// Source of each tap: a column, or how far before the chain.
    pub winsrc: Vec<i32>,
    /// The furthest start of a chain.
    pub pos_start_max: usize,
}

/// Columns of a chain.
pub open spec fn width(ch: Chain) -> int {
    1 + ch.drafts@.len() as int
}

/// First column of chain `k`.
pub open spec fn start_of(chains: Seq<Chain>, k: int) -> int
    decreases k,
{
    if k <= 0 {
        0
    } else {
        start_of(chains, k - 1) + width(chains[k - 1])
    }
}

/// Source of tap `j` of `ck` in column `r` of a chain that starts in column `start`.
pub open spec fn tap(start: int, r: int, ck: int, j: int) -> int {
    let d = r - (ck - 1) + j;
    if d < 0 {
        d
    } else {
        start + d
    }
}

/// Column `r` of chain `k` is laid out.
pub open spec fn column_ok(f: Forest, chains: Seq<Chain>, ck: int, k: int, r: int) -> bool {
    let ch = chains[k];
    let c = start_of(chains, k) + r;
    &&& f.tokens@[c] == if r == 0 {
        ch.committed
    } else {
        ch.drafts@[r - 1]
    }
    &&& f.parent@[c] == if r == 0 {
        -1
    } else {
        c - 1
    }
    &&& f.slot@[c] == ch.phys
    &&& f.rope@[c] == ch.main_pos + r
    &&& f.kv_pos@[c] == ch.main_pos + r
    &&& f.col_pos_start@[c] == ch.main_pos
    &&& forall|d: int|
        0 <= d < MAX_VERIFY ==> #[trigger] f.path@[c * MAX_VERIFY + d] == if d <= r {
            d
        } else {
            0
        }
    &&& forall|j: int|
        0 <= j < ck ==> #[trigger] f.winsrc@[c * ck + j] == tap(start_of(chains, k), r, ck, j)
}

/// The sizes of a layout of `n` columns.
pub open spec fn sized(f: Forest, n: int, ck: int) -> bool {
    &&& f.tokens@.len() == n
    &&& f.parent@.len() == n
    &&& f.slot@.len() == n
    &&& f.rope@.len() == n
    &&& f.kv_pos@.len() == n
    &&& f.col_pos_start@.len() == n
    &&& f.path@.len() == n * MAX_VERIFY
    &&& f.winsrc@.len() == n * ck
}

/// `f` is the layout of the chains.
pub open spec fn packs(f: Forest, chains: Seq<Chain>, ck: int) -> bool {
    &&& sized(f, start_of(chains, chains.len() as int), ck)
    &&& f.starts@.len() == chains.len()
    &&& forall|k: int|
        0 <= k < chains.len() ==> #[trigger] f.starts@[k] == start_of(chains, k)
            && chains[k].main_pos <= f.pos_start_max
    &&& exists|k: int| 0 <= k < chains.len() && (#[trigger] chains[k]).main_pos == f.pos_start_max
    &&& forall|k: int, r: int|
        0 <= k < chains.len() && 0 <= r < width(chains[k]) ==> #[trigger] column_ok(
            f,
            chains,
            ck,
            k,
            r,
        )
}

/// The chains fit in one verify and their positions in the device's integers.
pub open spec fn fits(chains: Seq<Chain>, ck: int) -> bool {
    &&& 0 < chains.len()
    &&& start_of(chains, chains.len() as int) <= MAX_VERIFY
    &&& 0 <= ck <= i32::MAX - MAX_VERIFY
    &&& forall|k: int|
        0 <= k < chains.len() ==> (#[trigger] chains[k]).main_pos + MAX_VERIFY <= i32::MAX
            && chains[k].phys <= i32::MAX
}

proof fn lemma_start(chains: Seq<Chain>, k: int, m: int)
    requires
        0 <= k <= m <= chains.len(),
    ensures
        0 <= start_of(chains, k) <= start_of(chains, m),
        k < m ==> start_of(chains, k) + width(chains[k]) <= start_of(chains, m),
    decreases m,
{
    if k < m {
        lemma_start(chains, k, m - 1);
    } else if m > 0 {
        lemma_start(chains, k - 1, m - 1);
    }
}

/// A cell of an earlier row of a table stands before the row.
proof fn lemma_cell(c: int, n: int, w: int, j: int)
    requires
        0 <= c < n,
        0 <= j < w,
    ensures
        0 <= c * w + j < n * w,
{
    assert(c * w + j < (c + 1) * w && (c + 1) * w <= n * w && 0 <= c * w) by (nonlinear_arith)
        requires
            0 <= c < n,
            0 <= j < w,
    ;
}

/// A column stays as it is when the layout grows.
proof fn lemma_grows(f: Forest, g: Forest, chains: Seq<Chain>, n: int, ck: int, k: int, r: int)
    requires
        sized(f, n, ck),
        f.tokens@.is_prefix_of(g.tokens@),
        f.parent@.is_prefix_of(g.parent@),
        f.slot@.is_prefix_of(g.slot@),
        f.rope@.is_prefix_of(g.rope@),
        f.kv_pos@.is_prefix_of(g.kv_pos@),
        f.col_pos_start@.is_prefix_of(g.col_pos_start@),
        f.path@.is_prefix_of(g.path@),
        f.winsrc@.is_prefix_of(g.winsrc@),
        0 <= start_of(chains, k) + r < n,
        0 <= r,
        0 <= k,
        column_ok(f, chains, ck, k, r),
    ensures
        column_ok(g, chains, ck, k, r),
{
    let c = start_of(chains, k) + r;
    assert forall|d: int| 0 <= d < MAX_VERIFY implies #[trigger] g.path@[c * MAX_VERIFY + d]
        == if d <= r {
        d
    } else {
        0
    } by {
        lemma_cell(c, n, MAX_VERIFY as int, d);
        assert(f.path@[c * MAX_VERIFY + d] == g.path@[c * MAX_VERIFY + d]);
    }
    assert forall|j: int| 0 <= j < ck implies #[trigger] g.winsrc@[c * ck + j] == tap(
        start_of(chains, k),
        r,
        ck,
        j,
    ) by {
        lemma_cell(c, n, ck, j);
        assert(f.winsrc@[c * ck + j] == g.winsrc@[c * ck + j]);
    }
}

/// Appends column `r` of chain `k` to a layout.
fn push_column(f: &mut Forest, chains: &Vec<Chain>, ck: usize, k: usize, r: usize)
    requires
        fits(chains@, ck as int),
        k < chains@.len(),
        r < width(chains@[k as int]),
        sized(*old(f), start_of(chains@, k as int) + r, ck as int),
        start_of(chains@, k as int) + r < MAX_VERIFY,
        old(f).starts@.len() == k + 1,
        old(f).starts@[k as int] == start_of(chains@, k as int),
    ensures
        sized(*final(f), start_of(chains@, k as int) + r + 1, ck as int),
        column_ok(*final(f), chains@, ck as int, k as int, r as int),
        final(f).starts == old(f).starts,
        final(f).pos_start_max == old(f).pos_start_max,
        old(f).tokens@.is_prefix_of(final(f).tokens@),
        old(f).parent@.is_prefix_of(final(f).parent@),
        old(f).slot@.is_prefix_of(final(f).slot@),
        old(f).rope@.is_prefix_of(final(f).rope@),
        old(f).kv_pos@.is_prefix_of(final(f).kv_pos@),
        old(f).col_pos_start@.is_prefix_of(final(f).col_pos_start@),
        old(f).path@.is_prefix_of(final(f).path@),
        old(f).winsrc@.is_prefix_of(final(f).winsrc@),
{
    let ch = &chains[k];
    let start: usize = f.starts[k];
    proof {
        lemma_start(chains@, 0, k as int);
    }
    let c: usize = start + r;
    let ghost n = c as int;
    f.tokens.push(
        if r == 0 {
            ch.committed
        } else {
            ch.drafts[r - 1]
        },
    );
    f.parent.push(
        if r == 0 {
            -1
        } else {
            (c - 1) as i32
        },
    );
    f.slot.push(ch.phys as i32);
    f.rope.push((ch.main_pos + r) as i32);
    f.kv_pos.push((ch.main_pos + r) as i32);
    f.col_pos_start.push(ch.main_pos as i32);
    let mut path: Vec<u8> = Vec::new();
    let mut d: usize = 0;
    while d < MAX_VERIFY
        invariant
            d <= MAX_VERIFY,
            path@.len() == d,
            forall|x: int|
                0 <= x < d ==> #[trigger] path@[x] == if x <= r {
                    x
                } else {
                    0
                },
        decreases MAX_VERIFY - d,
    {
        path.push(
            if d <= r {
                d as u8
            } else {
                0
            },
        );
        d += 1;
    }
    let mut taps: Vec<i32> = Vec::new();
    let mut j: usize = 0;
    while j < ck
        invariant
            j <= ck <= i32::MAX - MAX_VERIFY,
            c < MAX_VERIFY,
            start + r == c,
            taps@.len() == j,
            forall|x: int|
                0 <= x < j ==> #[trigger] taps@[x] == tap(start as int, r as int, ck as int, x),
        decreases ck - j,
    {
        let back: i32 = r as i32 - (ck as i32 - 1) + j as i32;
        taps.push(
            if back < 0 {
                back
            } else {
                start as i32 + back
            },
        );
        j += 1;
    }
    let ghost p0 = f.path@;
    let ghost w0 = f.winsrc@;
    f.path.append(&mut path);
    f.winsrc.append(&mut taps);
    proof {
        assert(n * MAX_VERIFY + MAX_VERIFY == (n + 1) * MAX_VERIFY);
        assert(n * ck + ck == (n + 1) * ck) by (nonlinear_arith);
        assert forall|d: int| 0 <= d < MAX_VERIFY implies #[trigger] f.path@[n * MAX_VERIFY + d]
            == if d <= r {
            d
        } else {
            0
        } by {}
        assert forall|j: int| 0 <= j < ck implies #[trigger] f.winsrc@[n * ck + j] == tap(
            start as int,
            r as int,
            ck as int,
            j,
        ) by {}
    }
}

/// Packs the chains of several lanes: one behind the other, each attending to itself alone.
pub fn pack(chains: &Vec<Chain>, ck: usize) -> (f: Forest)
    requires
        fits(chains@, ck as int),
    ensures
        packs(f, chains@, ck as int),
{
    let mut f = Forest {
        starts: Vec::new(),
        tokens: Vec::new(),
        parent: Vec::new(),
        slot: Vec::new(),
        rope: Vec::new(),
        kv_pos: Vec::new(),
        col_pos_start: Vec::new(),
        path: Vec::new(),
        winsrc: Vec::new(),
        pos_start_max: chains[0].main_pos,
    };
    assert(0 * (ck as int) == 0);
    let mut k: usize = 0;
    while k < chains.len()
        invariant
            fits(chains@, ck as int),
            k <= chains@.len(),
            sized(f, start_of(chains@, k as int), ck as int),
            f.starts@.len() == k,
            forall|i: int| 0 <= i < k ==> #[trigger] f.starts@[i] == start_of(chains@, i),
            forall|i: int|
                0 <= i < k ==> (#[trigger] chains@[i]).main_pos <= f.pos_start_max,
            exists|i: int|
                0 <= i < chains@.len() && i <= k && (#[trigger] chains@[i]).main_pos
                    == f.pos_start_max,
            forall|i: int, r: int|
                0 <= i < k && 0 <= r < width(chains@[i]) ==> #[trigger] column_ok(
                    f,
                    chains@,
                    ck as int,
                    i,
                    r,
                ),
        decreases chains@.len() - k,
    {
        let ch = &chains[k];
        proof {
            lemma_start(chains@, k as int, chains@.len() as int);
            lemma_start(chains@, k as int, k as int + 1);
        }
        let ghost g0 = f;
        f.starts.push(f.tokens.len());
        if ch.main_pos > f.pos_start_max {
            f.pos_start_max = ch.main_pos;
        }
        proof {
            assert forall|i: int, x: int| 0 <= i < k && 0 <= x < width(chains@[i]) implies
                #[trigger] column_ok(f, chains@, ck as int, i, x) by {
                assert(column_ok(g0, chains@, ck as int, i, x));
            }
        }
        let n: usize = ch.drafts.len() + 1;
        let mut r: usize = 0;
        while r < n
            invariant
                fits(chains@, ck as int),
                k < chains@.len(),
                n == width(chains@[k as int]),
                r <= n,
                0 <= start_of(chains@, k as int),
                start_of(chains@, k as int) + n <= MAX_VERIFY,
                sized(f, start_of(chains@, k as int) + r, ck as int),
                f.starts@.len() == k + 1,
                forall|i: int| 0 <= i <= k ==> #[trigger] f.starts@[i] == start_of(chains@, i),
                forall|i: int|
                    0 <= i <= k ==> (#[trigger] chains@[i]).main_pos <= f.pos_start_max,
                exists|i: int|
                    0 <= i < chains@.len() && i <= k && (#[trigger] chains@[i]).main_pos
                        == f.pos_start_max,
                forall|i: int, x: int|
                    0 <= i < k && 0 <= x < width(chains@[i]) ==> #[trigger] column_ok(
                        f,
                        chains@,
                        ck as int,
                        i,
                        x,
                    ),
                forall|x: int|
                    0 <= x < r ==> #[trigger] column_ok(f, chains@, ck as int, k as int, x),
            decreases n - r,
        {
            let ghost before = f;
            push_column(&mut f, chains, ck, k, r);
            proof {
                let n0 = start_of(chains@, k as int) + r;
                assert forall|i: int, x: int| 0 <= i < k && 0 <= x < width(chains@[i]) implies
                    #[trigger] column_ok(f, chains@, ck as int, i, x) by {
                    lemma_start(chains@, i, k as int);
                    assert(column_ok(before, chains@, ck as int, i, x));
                    lemma_grows(before, f, chains@, n0, ck as int, i, x);
                }
                assert forall|x: int| 0 <= x < r implies #[trigger] column_ok(
                    f,
                    chains@,
                    ck as int,
                    k as int,
                    x,
                ) by {
                    assert(column_ok(before, chains@, ck as int, k as int, x));
                    lemma_grows(before, f, chains@, n0, ck as int, k as int, x);
                }
            }
            r += 1;
        }
        k += 1;
    }
    f
}

/// Columns per lane when `p` lanes share a verify: what divides evenly, less one, but at least one
/// and at most the depth of the policy.
pub open spec fn shared_depth(p: int, depth: int) -> int {
    let even = MAX_VERIFY as int / p - 1;
    let d = if even < 1 {
        1
    } else {
        even
    };
    if d > depth {
        depth
    } else {
        d
    }
}

/// Depth of each chain when `p` lanes share a verify.
pub fn pack_depth(p: usize, depth: usize) -> (d: usize)
    requires
        p > 0,
        depth > 0,
    ensures
        d == shared_depth(p as int, depth as int),
{
    let q: usize = MAX_VERIFY / p;
    let even: usize = if q >= 2 {
        q - 1
    } else {
        1
    };
    if even > depth {
        depth
    } else {
        even
    }
}

/// A full pack fits in one verify at the shared depth, with at least one draft per lane where the
/// policy drafts at all.
pub proof fn law_pack_fits(p: int, depth: int)
    requires
        2 <= p <= MAX_PACK,
        1 <= depth,
    ensures
        p * shared_depth(p, depth) <= MAX_VERIFY,
        depth >= 2 ==> shared_depth(p, depth) >= 2,
{
    let d = shared_depth(p, depth);
    if p == 2 {
        assert(16int / 2 == 8 && d == shared_depth(2, depth));
        assert(p * d <= 2 * 7) by (nonlinear_arith)
            requires
                p == 2,
                d <= 7,
        ;
    } else if p == 3 {
        assert(16int / 3 == 5 && d == shared_depth(3, depth));
        assert(p * d <= 3 * 4) by (nonlinear_arith)
            requires
                p == 3,
                d <= 4,
        ;
    } else if p == 4 {
        assert(16int / 4 == 4 && d == shared_depth(4, depth));
        assert(p * d <= 4 * 3) by (nonlinear_arith)
            requires
                p == 4,
                d <= 3,
        ;
    } else {
        assert(16int / 5 == 3 && d == shared_depth(5, depth));
        assert(p * d <= 5 * 2) by (nonlinear_arith)
            requires
                p == 5,
                d <= 2,
        ;
    }
}

/// Packed chains do not see each other: each column's parent lies in its own chain.
pub proof fn law_chains_stay_apart(f: Forest, chains: Seq<Chain>, ck: int, k: int, r: int)
    requires
        packs(f, chains, ck),
        0 <= k < chains.len(),
        0 <= r < width(chains[k]),
    ensures
        f.slot@[start_of(chains, k) + r] == chains[k].phys,
        r > 0 ==> start_of(chains, k) <= f.parent@[start_of(chains, k) + r] < start_of(chains, k) + r,
        r == 0 ==> f.parent@[start_of(chains, k) + r] == -1,
{
    assert(column_ok(f, chains, ck, k, r));
}

/// The column that is reached from column `c` by `n` steps to the parent.
pub open spec fn climbed(parent: Seq<i32>, c: int, n: int) -> int
    decreases n,
{
    if n <= 0 {
        c
    } else {
        parent[climbed(parent, c, n - 1)] as int
    }
}

proof fn lemma_climbed(f: Forest, chains: Seq<Chain>, ck: int, k: int, r: int, n: int)
    requires
        packs(f, chains, ck),
        0 <= k < chains.len(),
        0 <= n <= r < width(chains[k]),
    ensures
        climbed(f.parent@, start_of(chains, k) + r, n) == start_of(chains, k) + r - n,
    decreases n,
{
    if n > 0 {
        lemma_climbed(f, chains, ck, k, r, n - 1);
        assert(column_ok(f, chains, ck, k, r - n + 1));
    }
}

/// The chains stand one behind the other and fill the layout: each starts where the one before it
/// ends, and has a column for its committed token and one for each draft.
pub proof fn law_chains_stand_behind_each_other(f: Forest, chains: Seq<Chain>, ck: int, k: int)
    requires
        packs(f, chains, ck),
        0 <= k < chains.len(),
    ensures
        f.starts@.len() == chains.len(),
        f.starts@[0] == 0,
        k + 1 < chains.len() ==> f.starts@[k + 1] == f.starts@[k] + 1 + chains[k].drafts@.len(),
        k + 1 == chains.len() ==> f.tokens@.len() == f.starts@[k] + 1 + chains[k].drafts@.len(),
        f.parent@.len() == f.tokens@.len() && f.slot@.len() == f.tokens@.len() && f.rope@.len()
            == f.tokens@.len() && f.kv_pos@.len() == f.tokens@.len() && f.col_pos_start@.len()
            == f.tokens@.len() && f.path@.len() == 16 * f.tokens@.len() && f.winsrc@.len() == ck
            * f.tokens@.len(),
{
    assert(f.starts@[k] == start_of(chains, k));
    assert(f.starts@[0] == start_of(chains, 0));
    if k + 1 < chains.len() {
        assert(f.starts@[k + 1] == start_of(chains, k + 1));
    }
    let n = f.tokens@.len();
    assert(n * ck == ck * n) by (nonlinear_arith);
}

/// A column attends to its own ancestors and to itself: entry `d` of its path is `d`, which is the
/// place in its chain of the column that is reached by climbing as far as it takes to come to depth
/// `d`. At depth zero the chain ends. Behind its own depth the path says nothing.
pub proof fn law_a_column_attends_to_its_ancestors(
    f: Forest,
    chains: Seq<Chain>,
    ck: int,
    k: int,
    r: int,
    d: int,
)
    requires
        packs(f, chains, ck),
        0 <= k < chains.len(),
        0 <= r <= chains[k].drafts@.len(),
        0 <= d < 16,
    ensures
        d <= r ==> f.path@[(f.starts@[k] + r) * 16 + d] == d,
        d <= r ==> f.starts@[k] + f.path@[(f.starts@[k] + r) * 16 + d] == climbed(
            f.parent@,
            f.starts@[k] + r,
            r - d,
        ),
        d > r ==> f.path@[(f.starts@[k] + r) * 16 + d] == 0,
        f.parent@[climbed(f.parent@, f.starts@[k] + r, r)] == -1,
{
    assert(f.starts@[k] == start_of(chains, k));
    assert(column_ok(f, chains, ck, k, r));
    let c = start_of(chains, k) + r;
    assert(f.path@[c * MAX_VERIFY + d] == if d <= r {
        d
    } else {
        0
    });
    if d <= r {
        lemma_climbed(f, chains, ck, k, r, r - d);
    }
    lemma_climbed(f, chains, ck, k, r, r);
    assert(column_ok(f, chains, ck, k, 0));
}

/// A column sees what its own lane would have fed it: its token is the lane's committed token or
/// draft at its depth, it stands that far behind the lane's position, in the lane's slot, and tap
/// `j` of its convolution reads the column that many steps above it, or, above the chain, says how
/// far before the chain the lane's own state is read.
pub proof fn law_a_column_belongs_to_its_lane(
    f: Forest,
    chains: Seq<Chain>,
    ck: int,
    k: int,
    r: int,
    j: int,
)
    requires
        packs(f, chains, ck),
        0 <= k < chains.len(),
        0 <= r <= chains[k].drafts@.len(),
        0 <= j < ck,
    ensures
        ({
            let c = f.starts@[k] + r;
            let above = ck - 1 - j;
            &&& f.tokens@[c] == (seq![chains[k].committed] + chains[k].drafts@)[r]
            &&& f.slot@[c] == chains[k].phys
            &&& f.rope@[c] == chains[k].main_pos + r
            &&& f.kv_pos@[c] == chains[k].main_pos + r
            &&& f.col_pos_start@[c] == chains[k].main_pos
            &&& above <= r ==> f.winsrc@[c * ck + j] == climbed(f.parent@, c, above)
            &&& above > r ==> f.winsrc@[c * ck + j] == r - above
        }),
{
    assert(f.starts@[k] == start_of(chains, k));
    assert(column_ok(f, chains, ck, k, r));
    let c = start_of(chains, k) + r;
    assert(f.winsrc@[c * ck + j] == tap(start_of(chains, k), r, ck, j));
    if ck - 1 - j <= r {
        lemma_climbed(f, chains, ck, k, r, ck - 1 - j);
    }
}

/// The furthest start is that of some chain, and no chain starts further.
pub proof fn law_the_furthest_start_is_a_start(f: Forest, chains: Seq<Chain>, ck: int, k: int)
    requires
        packs(f, chains, ck),
        0 <= k < chains.len(),
    ensures
        chains[k].main_pos <= f.pos_start_max,
        exists|x: int| 0 <= x < chains.len() && (#[trigger] chains[x]).main_pos == f.pos_start_max,
{
    assert(f.starts@[k] == start_of(chains, k));
}

/// Lanes that share a verify get an even share of its columns, less one, but each at least one and
/// none more than the policy's depth.
pub proof fn law_the_share_is_even(p: int, depth: int)
    requires
        0 < p,
        0 < depth,
    ensures
        1 <= shared_depth(p, depth) <= depth,
        p * (shared_depth(p, depth) + 1) <= 16 || shared_depth(p, depth) == 1,
        shared_depth(p, depth) == depth || (p * (shared_depth(p, depth) + 2) > 16),
{
    let q = 16int / p;
    let d = shared_depth(p, depth);
    assert(p * q <= 16 && p * (q + 1) > 16) by (nonlinear_arith)
        requires
            q == 16int / p,
            p > 0,
    ;
    assert(d <= q - 1 ==> p * (d + 1) <= p * q) by (nonlinear_arith)
        requires
            p > 0,
    ;
    assert(d >= q - 1 ==> p * (d + 2) >= p * (q + 1)) by (nonlinear_arith)
        requires
            p > 0,
    ;
}

} // verus!
