//! Which arm a matrix product took, counted and checked.
//!
//! A verify of at most `max_verify` columns must not take the arm that is meant for prefills: it
//! is slow there, and its columns stop matching those of a decode. A wider product must not take
//! the arm of fixed shape.

use vstd::prelude::*;

use crate::text;

verus! {

/// The arm of fixed shape.
pub const ARM_MMA: u8 = 0;

/// The arm for prefills.
pub const ARM_PREFILL: u8 = 1;

pub const ARM_BF16_BINV: u8 = 2;

pub const ARM_BF16_SLICE: u8 = 3;

pub const ARM_MXFP4_NATIVE: u8 = 4;

pub const N_ARMS: usize = 5;

pub const FMT_NVFP4: u8 = 0;

pub const FMT_FP8: u8 = 1;

pub const FMT_FP8_BLK: u8 = 2;

pub const FMT_BF16: u8 = 3;

pub const FMT_MXFP4: u8 = 4;

pub const N_FMTS: usize = 5;

/// Nothing is recorded.
pub const POSTURE_OFF: u8 = 0;

/// Products are counted.
pub const POSTURE_COUNT: u8 = 1;

/// Products are counted and checked.
pub const POSTURE_ASSERT: u8 = 2;

/// Cells of the table of counts.
pub const CELLS: usize = 25;

/// The record of the products.
pub struct Dispatches {
    pub posture: u8,
    /// By format, then by arm.
    pub counts: Vec<u64>,
    /// By arm: the widest product.
    pub max_batch: Vec<usize>,
    pub violations: u64,
}

/// Name of an arm.
pub open spec fn arm_text(a: int) -> Seq<char> {
    if a == 0 {
        "mma"@
    } else if a == 1 {
        "prefill"@
    } else if a == 2 {
        "bf16_binv"@
    } else if a == 3 {
        "bf16_slice"@
    } else if a == 4 {
        "mxfp4_native"@
    } else {
        "?"@
    }
}

/// Name of a format.
pub open spec fn fmt_text(f: int) -> Seq<char> {
    if f == 0 {
        "nvfp4"@
    } else if f == 1 {
        "fp8"@
    } else if f == 2 {
        "fp8blk"@
    } else if f == 3 {
        "bf16"@
    } else if f == 4 {
        "mxfp4"@
    } else {
        "?"@
    }
}

pub fn arm_name(a: u8) -> (r: &'static str)
    ensures
        r@ == arm_text(a as int),
{
    match a {
        0 => "mma",
        1 => "prefill",
        2 => "bf16_binv",
        3 => "bf16_slice",
        4 => "mxfp4_native",
        _ => "?",
    }
}

pub fn fmt_name(f: u8) -> (r: &'static str)
    ensures
        r@ == fmt_text(f as int),
{
    match f {
        0 => "nvfp4",
        1 => "fp8",
        2 => "fp8blk",
        3 => "bf16",
        4 => "mxfp4",
        _ => "?",
    }
}

/// A product of `batch` columns must not take arm `arm`: a verify not the prefill arm, a wider
/// product neither the arm of fixed shape nor the batch-invariant one. Above the bound the prefill
/// arm, the slices and the native arm are left.
pub open spec fn forbidden(batch: usize, arm: u8, max_verify: usize) -> bool {
    (batch <= max_verify && arm == ARM_PREFILL) || (batch > max_verify && (arm == ARM_MMA || arm
        == ARM_BF16_BINV))
}

/// True when a product of `batch` columns must not take arm `arm`.
pub fn violates(batch: usize, arm: u8, max_verify: usize) -> (r: bool)
    ensures
        r == forbidden(batch, arm, max_verify),
{
    (batch <= max_verify && arm == ARM_PREFILL) || (batch > max_verify && (arm == ARM_MMA || arm
        == ARM_BF16_BINV))
}

impl Dispatches {
    pub open spec fn wf(&self) -> bool {
        self.counts@.len() == CELLS && self.max_batch@.len() == N_ARMS
    }

    /// How often format `f` took arm `a`.
    pub open spec fn cell(&self, f: int, a: int) -> u64 {
        self.counts@[f * 5 + a]
    }

    /// No count is at its limit.
    pub open spec fn room(&self) -> bool {
        &&& forall|i: int| 0 <= i < CELLS ==> #[trigger] self.counts@[i] < u64::MAX
        &&& self.violations < u64::MAX
    }

    /// An empty record that records nothing.
    pub fn new() -> (d: Dispatches)
        ensures
            d.wf(),
            d.posture == POSTURE_OFF,
            d.counts@ == Seq::new(CELLS as nat, |i: int| 0u64),
            d.max_batch@ == Seq::new(N_ARMS as nat, |i: int| 0usize),
            d.violations == 0,
    {
        let counts: Vec<u64> = vec![0u64; CELLS];
        let max_batch: Vec<usize> = vec![0usize; N_ARMS];
        assert(counts@ =~= Seq::new(CELLS as nat, |i: int| 0u64));
        assert(max_batch@ =~= Seq::new(N_ARMS as nat, |i: int| 0usize));
        Dispatches { posture: POSTURE_OFF, counts, max_batch, violations: 0 }
    }
}

/// Posture that a setting asks for.
pub open spec fn asked(setting: Option<Seq<char>>) -> Option<u8> {
    match setting {
        Some(s) => if s == "1"@ || s == "count"@ {
            Some(POSTURE_COUNT)
        } else if s == "assert"@ {
            Some(POSTURE_ASSERT)
        } else {
            None
        },
        None => None,
    }
}

/// Takes the posture from the value of an environment variable, unless it was set already.
pub fn init_from_env(d: &mut Dispatches, setting: Option<&str>)
    ensures
        *final(d) == (Dispatches {
            posture: if old(d).posture != POSTURE_OFF {
                old(d).posture
            } else {
                match asked(
                    match setting {
                        Some(s) => Some(s@),
                        None => None,
                    },
                ) {
                    Some(p) => p,
                    None => POSTURE_OFF,
                }
            },
            ..*old(d)
        }),
{
    if d.posture != POSTURE_OFF {
        return;
    }
    match setting {
        Some(s) => {
            if text::same_str(s, "1") || text::same_str(s, "count") {
                d.posture = POSTURE_COUNT;
            } else if text::same_str(s, "assert") {
                d.posture = POSTURE_ASSERT;
            }
        },
        None => {},
    }
}

pub fn set_posture(d: &mut Dispatches, p: u8)
    ensures
        *final(d) == (Dispatches { posture: p, ..*old(d) }),
{
    d.posture = p;
}

pub fn posture(d: &Dispatches) -> (p: u8)
    ensures
        p == d.posture,
{
    d.posture
}

/// Name of a posture.
pub open spec fn posture_text(p: u8) -> Seq<char> {
    if p == POSTURE_COUNT {
        "count"@
    } else if p == POSTURE_ASSERT {
        "assert"@
    } else {
        "off"@
    }
}

pub fn posture_name(d: &Dispatches) -> (r: &'static str)
    ensures
        r@ == posture_text(d.posture),
{
    if d.posture == POSTURE_COUNT {
        "count"
    } else if d.posture == POSTURE_ASSERT {
        "assert"
    } else {
        "off"
    }
}

/// What a violation is reported as.
pub open spec fn violation_text(
    fmt: u8,
    batch: usize,
    arm: u8,
    max_verify: usize,
    site: Seq<char>,
) -> Seq<char> {
    "DISPATCH_ASSERT VIOLATION: site="@ + site + " fmt="@ + fmt_text(fmt as int) + " batch="@
        + text::decimal(batch as nat) + " arm="@ + arm_text(arm as int) + " (MAX_VERIFY="@
        + text::decimal(max_verify as nat)
        + ") — batch<=MAX_VERIFY took the prefill dequant arm (perf cliff + cuBLAS is NOT batch-invariant), or batch>MAX_VERIFY took the fixed-shape MMA arm."@
}

/// The record behind a product.
pub open spec fn recorded(
    before: Dispatches,
    after: Dispatches,
    fmt: u8,
    batch: usize,
    arm: u8,
    max_verify: usize,
) -> bool {
    &&& after.posture == before.posture
    &&& after.counts@ == if fmt < N_FMTS && arm < N_ARMS {
        before.counts@.update(
            fmt * 5 + arm,
            (before.cell(fmt as int, arm as int) + 1) as u64,
        )
    } else {
        before.counts@
    }
    &&& after.max_batch@ == if arm < N_ARMS && batch > before.max_batch@[arm as int] {
        before.max_batch@.update(arm as int, batch)
    } else {
        before.max_batch@
    }
    &&& after.violations == before.violations + if before.posture == POSTURE_ASSERT && forbidden(
        batch,
        arm,
        max_verify,
    ) {
        1int
    } else {
        0
    }
}

/// Records a product. Where products are checked and this one must not have taken its arm, the
/// report is returned: the caller stops.
pub fn record(
    d: &mut Dispatches,
    fmt: u8,
    batch: usize,
    arm: u8,
    max_verify: usize,
    site: &str,
) -> (r: Option<String>)
    requires
        old(d).wf(),
        old(d).room(),
    ensures
        final(d).wf(),
        old(d).posture == POSTURE_OFF ==> *final(d) == *old(d) && r is None,
        old(d).posture != POSTURE_OFF ==> recorded(*old(d), *final(d), fmt, batch, arm, max_verify),
        r is Some <==> old(d).posture == POSTURE_ASSERT && forbidden(batch, arm, max_verify),
        r matches Some(m) ==> m@ == violation_text(fmt, batch, arm, max_verify, site@),
{
    if d.posture == POSTURE_OFF {
        return None;
    }
    let f: usize = fmt as usize;
    let a: usize = arm as usize;
    let ghost before = *d;
    if f < N_FMTS && a < N_ARMS {
        let c: u64 = d.counts[f * 5 + a];
        assert(before.counts@[f * 5 + a] < u64::MAX);
        d.counts.set(f * 5 + a, c + 1);
    }
    if a < N_ARMS && batch > d.max_batch[a] {
        d.max_batch.set(a, batch);
    }
    if d.posture == POSTURE_ASSERT && violates(batch, arm, max_verify) {
        d.violations = d.violations + 1;
        let mut m = String::from_str("DISPATCH_ASSERT VIOLATION: site=");
        m.append(site);
        m.append(" fmt=");
        m.append(fmt_name(fmt));
        m.append(" batch=");
        m.append(text::to_decimal(batch as u64).as_str());
        m.append(" arm=");
        m.append(arm_name(arm));
        m.append(" (MAX_VERIFY=");
        m.append(text::to_decimal(max_verify as u64).as_str());
        m.append(
            ") — batch<=MAX_VERIFY took the prefill dequant arm (perf cliff + cuBLAS is NOT batch-invariant), or batch>MAX_VERIFY took the fixed-shape MMA arm.",
        );
        return Some(m);
    }
    None
}

/// How often a format took an arm.
pub fn count_of(d: &Dispatches, fmt: u8, arm: u8) -> (n: u64)
    requires
        d.wf(),
        fmt < N_FMTS,
        arm < N_ARMS,
    ensures
        n == d.cell(fmt as int, arm as int),
{
    d.counts[fmt as usize * 5 + arm as usize]
}

pub fn violations(d: &Dispatches) -> (n: u64)
    ensures
        n == d.violations,
{
    d.violations
}

/// Two texts with a blank between them; the second alone where the first is empty.
pub open spec fn listed(a: Seq<char>, b: Seq<char>) -> Seq<char> {
    if a.len() == 0 {
        b
    } else {
        a + " "@ + b
    }
}

/// The counts among the first `n` cells that are not zero.
pub open spec fn counts_text(d: Dispatches, n: int) -> Seq<char>
    decreases n,
{
    if n <= 0 {
        Seq::empty()
    } else if d.counts@[n - 1] == 0 {
        counts_text(d, n - 1)
    } else {
        listed(
            counts_text(d, n - 1),
            fmt_text((n - 1) / 5) + "."@ + arm_text((n - 1) % 5) + "="@ + text::decimal(
                d.counts@[n - 1] as nat,
            ),
        )
    }
}

/// Some format took arm `a`.
pub open spec fn taken(d: Dispatches, a: int) -> bool {
    exists|f: int| 0 <= f < N_FMTS && #[trigger] d.cell(f, a) > 0
}

/// The widest products of the first `n` arms that were taken.
pub open spec fn widths_text(d: Dispatches, n: int) -> Seq<char>
    decreases n,
{
    if n <= 0 {
        Seq::empty()
    } else if !taken(d, n - 1) {
        widths_text(d, n - 1)
    } else {
        listed(
            widths_text(d, n - 1),
            "max_"@ + arm_text(n - 1) + "="@ + text::decimal(d.max_batch@[n - 1] as nat),
        )
    }
}

/// The record in one line.
pub open spec fn line_text(d: Dispatches) -> Seq<char> {
    let counts = counts_text(d, CELLS as int);
    "[dispatch] posture="@ + posture_text(d.posture) + " "@ + (if counts.len() == 0 {
        "no-dispatches"@
    } else {
        counts
    }) + " | "@ + widths_text(d, N_ARMS as int) + " | violations="@ + text::decimal(
        d.violations as nat,
    )
}

fn list_item(s: &mut String, empty: bool, item: &str)
    requires
        empty == (old(s)@.len() == 0),
    ensures
        final(s)@ == listed(old(s)@, item@),
{
    if !empty {
        s.append(" ");
    }
    s.append(item);
    assert(s@ =~= listed(old(s)@, item@));
}

fn arm_taken(d: &Dispatches, a: usize) -> (r: bool)
    requires
        d.wf(),
        a < N_ARMS,
    ensures
        r == taken(*d, a as int),
{
    let mut f: usize = 0;
    while f < N_FMTS
        invariant
            d.wf(),
            a < N_ARMS,
            f <= N_FMTS,
            forall|k: int| 0 <= k < f ==> #[trigger] d.cell(k, a as int) == 0,
        decreases N_FMTS - f,
    {
        if d.counts[f * 5 + a] > 0 {
            assert(d.cell(f as int, a as int) > 0);
            return true;
        }
        f += 1;
    }
    false
}

/// The record in one line. It names its own posture.
pub fn stats_line(d: &Dispatches) -> (r: String)
    requires
        d.wf(),
    ensures
        r@ == line_text(*d),
{
    let mut counts = String::from_str("");
    let mut none = true;
    proof {
        reveal_strlit("");
        reveal_strlit("=");
        reveal_strlit("max_");
    }
    assert(counts@ =~= counts_text(*d, 0));
    let mut i: usize = 0;
    while i < CELLS
        invariant
            d.wf(),
            i <= CELLS,
            counts@ == counts_text(*d, i as int),
            none == (counts@.len() == 0),
            "="@.len() == 1,
        decreases CELLS - i,
    {
        if d.counts[i] > 0 {
            let mut item = String::from_str(fmt_name((i / 5) as u8));
            item.append(".");
            item.append(arm_name((i % 5) as u8));
            item.append("=");
            item.append(text::to_decimal(d.counts[i]).as_str());
            let ghost said = item@;
            assert(said.len() > 0);
            list_item(&mut counts, none, item.as_str());
            none = false;
        }
        i += 1;
    }
    let mut widths = String::from_str("");
    let mut bare = true;
    assert(widths@ =~= widths_text(*d, 0));
    let mut a: usize = 0;
    while a < N_ARMS
        invariant
            d.wf(),
            a <= N_ARMS,
            widths@ == widths_text(*d, a as int),
            bare == (widths@.len() == 0),
            "max_"@.len() == 4,
        decreases N_ARMS - a,
    {
        if arm_taken(d, a) {
            let mut item = String::from_str("max_");
            item.append(arm_name(a as u8));
            item.append("=");
            item.append(text::to_decimal(d.max_batch[a] as u64).as_str());
            let ghost said = item@;
            assert(said.len() > 0);
            list_item(&mut widths, bare, item.as_str());
            bare = false;
        }
        a += 1;
    }
    let mut r = String::from_str("[dispatch] posture=");
    r.append(posture_name(d));
    r.append(" ");
    if none {
        r.append("no-dispatches");
    } else {
        r.append(counts.as_str());
    }
    r.append(" | ");
    r.append(widths.as_str());
    r.append(" | violations=");
    r.append(text::to_decimal(d.violations).as_str());
    r
}

/// A verify never takes the prefill arm, and a wider product neither the arm of fixed shape nor the
/// batch-invariant one, as long as no violation was counted: each record that is checked either
/// keeps the rule or is counted.
pub proof fn law_violations_are_counted(
    before: Dispatches,
    after: Dispatches,
    fmt: u8,
    batch: usize,
    arm: u8,
    max_verify: usize,
)
    requires
        before.posture == POSTURE_ASSERT,
        recorded(before, after, fmt, batch, arm, max_verify),
        after.violations == before.violations,
    ensures
        batch <= max_verify ==> arm != ARM_PREFILL,
        batch > max_verify ==> arm != ARM_MMA && arm != ARM_BF16_BINV,
{
}


/// A record counts in the cell of its format and arm and in no other, and the widest batch of an arm
/// is the widest that was recorded of it.
pub proof fn law_a_record_counts_in_its_own_cell(
    before: Dispatches,
    after: Dispatches,
    fmt: u8,
    batch: usize,
    arm: u8,
    max_verify: usize,
    f: int,
    a: int,
)
    requires
        before.wf(),
        before.room(),
        recorded(before, after, fmt, batch, arm, max_verify),
        0 <= f < 5,
        0 <= a < 5,
    ensures
        after.cell(f, a) - before.cell(f, a) == if f == fmt && a == arm {
            1int
        } else {
            0
        },
        a == arm ==> after.max_batch@[a] >= batch && after.max_batch@[a] >= before.max_batch@[a] && (
        after.max_batch@[a] == batch || after.max_batch@[a] == before.max_batch@[a]),
        a != arm ==> after.max_batch@[a] == before.max_batch@[a],
{
    assert(before.counts@[f * 5 + a] < u64::MAX);
}

/// What is forbidden: a batch within a verify on the prefill arm, and a wider one on an arm whose
/// shape is fixed.
pub proof fn law_what_is_forbidden(batch: usize, arm: u8, max_verify: usize)
    ensures
        forbidden(batch, 1, max_verify) <==> batch <= max_verify,
        forbidden(batch, 0, max_verify) <==> batch > max_verify,
        forbidden(batch, 2, max_verify) <==> batch > max_verify,
        arm > 2 ==> !forbidden(batch, arm, max_verify),
{
}

/// The words that switch counting and asserting on; every other leaves it off.
pub proof fn law_postures_are_asked_for_by_name(s: Seq<char>)
    ensures
        asked(None) is None,
        asked(Some(s)) == Some(1u8) <==> s == "1"@ || s == "count"@,
        asked(Some(s)) == Some(2u8) <==> s == "assert"@,
        asked(Some(s)) is Some ==> s == "1"@ || s == "count"@ || s == "assert"@,
{
    reveal_strlit("1");
    reveal_strlit("count");
    reveal_strlit("assert");
    assert("1"@.len() == 1 && "count"@.len() == 5 && "assert"@.len() == 6);
}

/// Every cell that counted something has its place in the line, with the names of its format and its
/// arm, and no other cell has.
pub proof fn law_the_line_tells_every_count(d: Dispatches, f: int, a: int)
    requires
        d.wf(),
        0 <= f < 5,
        0 <= a < 5,
    ensures
        d.cell(f, a) == 0 ==> counts_text(d, f * 5 + a + 1) == counts_text(d, f * 5 + a),
        d.cell(f, a) > 0 ==> exists|before: Seq<char>|
            counts_text(d, f * 5 + a + 1) == #[trigger] (before + (fmt_text(f) + "."@ + arm_text(a)
                + "="@ + text::decimal(d.cell(f, a) as nat))),
{
    let n = f * 5 + a + 1;
    assert((n - 1) / 5 == f && (n - 1) % 5 == a);
    if d.cell(f, a) > 0 {
        let item = fmt_text(f) + "."@ + arm_text(a) + "="@ + text::decimal(d.cell(f, a) as nat);
        let head = counts_text(d, n - 1);
        let before = if head.len() == 0 {
            Seq::empty()
        } else {
            head + " "@
        };
        assert(counts_text(d, n) =~= before + item);
    }
}

} // verus!
