//! What the block drafter takes from its artifact: the rotary parameters, the pin on its digest,
//! and the layouts of its tables.

use vstd::prelude::*;

use crate::dflash::config;
use crate::json_schema::double::Double;
use crate::json_schema::value;
use crate::json_schema::value::Json;
use crate::single::Single;

verus! {

/// Bits of `1e7`.
pub const THETA_DEFAULT: u64 = 0x4163_12D0_0000_0000;

/// Bits of `32.0`.
pub const THIRTY_TWO: u64 = 0x4040_0000_0000_0000;

/// Bits of `1.0`.
pub const ONE: u64 = 0x3FF0_0000_0000_0000;

/// Context that the artifact was trained on, where it does not say.
pub const ORIG_CTX_DEFAULT: usize = 8192;

/// The rotary parameters of an artifact.
#[derive(Clone, Copy, PartialEq, Eq, Structural, Debug)]
pub struct RopeParams {
    pub theta: Double,
    pub factor: Double,
    pub orig_ctx: usize,
    pub beta_fast: Double,
    pub beta_slow: Double,
}

/// The double named `key`, or a default.
pub open spec fn double_or(v: Json, key: Seq<char>, bits: u64) -> Double {
    match config::double_of(config::field(v, key)) {
        Some(x) => x,
        None => Double { bits },
    }
}

/// The rotary parameters of a configuration; none where it has no section for them.
pub open spec fn rope_of(v: Json) -> Option<RopeParams> {
    match config::field(v, "rope_parameters"@) {
        None => None,
        Some(p) => Some(
            RopeParams {
                theta: double_or(p, "rope_theta"@, THETA_DEFAULT),
                factor: double_or(p, "factor"@, THIRTY_TWO),
                orig_ctx: match config::size_of(p, "original_max_position_embeddings"@) {
                    Some(n) => n,
                    None => ORIG_CTX_DEFAULT,
                },
                beta_fast: double_or(p, "beta_fast"@, THIRTY_TWO),
                beta_slow: double_or(p, "beta_slow"@, ONE),
            },
        ),
    }
}

fn read_double(v: &Json, key: &str, bits: u64) -> (r: Double)
    ensures
        r == double_or(*v, key@, bits),
{
    match config::field_of(v, key) {
        Some(Json::Number(n)) => match n.double {
            Some(x) => x,
            None => Double { bits },
        },
        _ => Double { bits },
    }
}

/// Reads the rotary parameters.
pub fn rope_params(v: &Json) -> (r: Option<RopeParams>)
    ensures
        r == rope_of(*v),
{
    match config::field_of(v, "rope_parameters") {
        None => None,
        Some(p) => Some(
            RopeParams {
                theta: read_double(p, "rope_theta", THETA_DEFAULT),
                factor: read_double(p, "factor", THIRTY_TWO),
                orig_ctx: match config::size_field(p, "original_max_position_embeddings") {
                    Some(n) => n,
                    None => ORIG_CTX_DEFAULT,
                },
                beta_fast: read_double(p, "beta_fast", THIRTY_TWO),
                beta_slow: read_double(p, "beta_slow", ONE),
            },
        ),
    }
}

/// Why the rotary parameters cannot be read.
#[derive(Clone, Copy, PartialEq, Eq, Structural, Debug)]
pub enum RopeError {
    NotJson,
    NoParameters,
}

/// Reads the rotary parameters from the text of a configuration.
pub fn rope_from_text(txt: &str) -> (r: Result<RopeParams, RopeError>)
    ensures
        r == match value::parsed(txt@) {
            None => Err::<RopeParams, RopeError>(RopeError::NotJson),
            Some(v) => match rope_of(v) {
                Some(p) => Ok(p),
                None => Err(RopeError::NoParameters),
            },
        },
{
    match value::parse_json(txt) {
        None => Err(RopeError::NotJson),
        Some(v) => match rope_params(&v) {
            Some(p) => Ok(p),
            None => Err(RopeError::NoParameters),
        },
    }
}

/// The digest that an artifact must have: none where the pin is off, the one that was asked for,
/// or the known one.
pub open spec fn pinned(asked: Option<Seq<char>>, known: Seq<char>) -> Option<Seq<char>> {
    match asked {
        Some(s) => if s == "off"@ {
            None
        } else {
            Some(s)
        },
        None => Some(known),
    }
}

/// Resolves the pin on the artifact's digest.
pub fn sha_pin<'a>(asked: Option<&'a str>, known: &'a str) -> (r: Option<&'a str>)
    ensures
        (match r {
            Some(s) => Some(s@),
            None => None,
        }) == pinned(
            match asked {
                Some(s) => Some(s@),
                None => None,
            },
            known@,
        ),
{
    match asked {
        Some(s) => if crate::text::same_str(s, "off") {
            None
        } else {
            Some(s)
        },
        None => Some(known),
    }
}

/// A table with rows and columns exchanged: entry `o` of row `i` is entry `i` of row `o`.
pub fn transpose(src: &Vec<u32>, rows: usize, cols: usize) -> (t: Vec<u32>)
    requires
        src@.len() == rows * cols,
    ensures
        t@.len() == rows * cols,
        forall|i: int, o: int|
            0 <= i < cols && 0 <= o < rows ==> #[trigger] t@[i * rows + o] == src@[o * cols + i],
{
    let len: usize = src.len();
    let mut t: Vec<u32> = Vec::new();
    let mut i: usize = 0;
    proof {
        assert(0int * rows == 0);
    }
    while i < cols
        invariant
            len == src@.len(),
            len == rows * cols,
            i <= cols,
            t@.len() == i * rows,
            forall|a: int, o: int|
                0 <= a < i && 0 <= o < rows ==> #[trigger] t@[a * rows + o] == src@[o * cols + a],
        decreases cols - i,
    {
        let mut o: usize = 0;
        let mut at: usize = i;
        proof {
            assert(0int * cols == 0);
        }
        while o < rows
            invariant
                len == src@.len(),
                len == rows * cols,
                i < cols,
                o <= rows,
                o < rows ==> at == o * cols + i,
                t@.len() == i * rows + o,
                forall|a: int, b: int|
                    0 <= a < i && 0 <= b < rows ==> #[trigger] t@[a * rows + b] == src@[b * cols
                        + a],
                forall|b: int| 0 <= b < o ==> #[trigger] t@[i * rows + b] == src@[b * cols + i],
            decreases rows - o,
        {
            proof {
                lemma_cell(o as int, rows as int, cols as int, i as int);
            }
            let ghost before = t@;
            t.push(src[at]);
            proof {
                assert forall|a: int, b: int| 0 <= a < i && 0 <= b < rows implies #[trigger] t@[a
                    * rows + b] == src@[b * cols + a] by {
                    lemma_cell(a, i as int, rows as int, b);
                    assert(before[a * rows + b] == src@[b * cols + a]);
                }
                assert forall|b: int| 0 <= b < o + 1 implies #[trigger] t@[i * rows + b] == src@[b
                    * cols + i] by {
                    if b < o {
                        assert(before[i * rows + b] == src@[b * cols + i]);
                    }
                }
                if o + 1 < rows {
                    lemma_cell(o + 1, rows as int, cols as int, i as int);
                    assert((o + 1) * cols == o * cols + cols) by (nonlinear_arith);
                }
            }
            o += 1;
            if o < rows {
                at += cols;
            }
        }
        proof {
            assert((i + 1) * rows == i * rows + rows) by (nonlinear_arith);
            assert forall|a: int, b: int| 0 <= a < i + 1 && 0 <= b < rows implies #[trigger] t@[a
                * rows + b] == src@[b * cols + a] by {
                if a == i {
                    assert(t@[i * rows + b] == src@[b * cols + i]);
                }
            }
        }
        i += 1;
    }
    proof {
        assert(cols * rows == rows * cols) by (nonlinear_arith);
    }
    t
}

proof fn lemma_cell(r: int, rows: int, cols: int, c: int)
    requires
        0 <= r < rows,
        0 <= c < cols,
    ensures
        0 <= r * cols + c < rows * cols,
        0 <= r * cols,
{
    assert(0 <= r * cols && r * cols + c < rows * cols) by (nonlinear_arith)
        requires
            0 <= r < rows,
            0 <= c < cols,
    ;
}

/// Bits of the single nearest to `0.15`.
pub const SURVIVAL_BITS: u32 = 0x3E19_999A;

/// Widest verify of a round.
pub const FULL_WIDTH: u8 = 8;

/// The first place from `i` on at which the odds of surviving are too low.
pub open spec fn first_doubt(s: Seq<Single>, i: int) -> Option<int>
    decreases s.len() - i,
{
    if i < 0 || i >= s.len() {
        None
    } else if s[i].lt(Single { bits: SURVIVAL_BITS }) {
        Some(i)
    } else {
        first_doubt(s, i + 1)
    }
}

/// Columns that are worth verifying: up to the draft whose odds of surviving are too low, and all
/// where there is none.
pub fn verify_width(survival: &Vec<Single>) -> (w: u8)
    requires
        survival@.len() <= 6,
    ensures
        w == match first_doubt(survival@, 0) {
            Some(k) => k + 2,
            None => FULL_WIDTH as int,
        },
        2 <= w <= FULL_WIDTH,
{
    let mut i: usize = 0;
    while i < survival.len()
        invariant
            i <= survival@.len() <= 6,
            first_doubt(survival@, 0) == first_doubt(survival@, i as int),
        decreases survival@.len() - i,
    {
        if survival[i].less(Single { bits: SURVIVAL_BITS }) {
            return i as u8 + 2;
        }
        i += 1;
    }
    FULL_WIDTH
}


/// Parameters of the rotation that are given are taken, and those that are not have their defaults:
/// a base of ten million, a factor of 32, a context of 8192, and 32 and 1 for the two ends.
pub proof fn law_rope_parameters_have_their_defaults(v: Json, p: Json)
    requires
        config::field(v, "rope_parameters"@) == Some(p),
    ensures
        ({
            let r = rope_of(v)->0;
            let theta = config::double_of(config::field(p, "rope_theta"@));
            let factor = config::double_of(config::field(p, "factor"@));
            let fast = config::double_of(config::field(p, "beta_fast"@));
            let slow = config::double_of(config::field(p, "beta_slow"@));
            let ctx = config::size_of(p, "original_max_position_embeddings"@);
            &&& rope_of(v) is Some
            &&& theta is Some ==> r.theta == theta->0
            &&& factor is Some ==> r.factor == factor->0
            &&& fast is Some ==> r.beta_fast == fast->0
            &&& slow is Some ==> r.beta_slow == slow->0
            &&& ctx is Some ==> r.orig_ctx == ctx->0
            &&& theta is None ==> r.theta.bits == 0x4163_12D0_0000_0000
            &&& factor is None ==> r.factor.bits == 0x4040_0000_0000_0000
            &&& fast is None ==> r.beta_fast.bits == 0x4040_0000_0000_0000
            &&& slow is None ==> r.beta_slow.bits == 0x3FF0_0000_0000_0000
            &&& ctx is None ==> r.orig_ctx == 8192
        }),
{
}

/// A pin is what was asked for, nothing where it was switched off, and the known one otherwise.
pub proof fn law_a_pin_can_be_changed_or_switched_off(s: Seq<char>, known: Seq<char>)
    ensures
        pinned(None, known) == Some(known),
        s == "off"@ ==> pinned(Some(s), known) is None,
        s != "off"@ ==> pinned(Some(s), known) == Some(s),
{
}

/// Verifying goes up to the first draft whose survival is in doubt: those before it are not, and it
/// is. Where none is, there is no such draft.
pub proof fn law_the_first_doubt_is_found(s: Seq<Single>, from: int)
    requires
        0 <= from,
    ensures
        match first_doubt(s, from) {
            Some(i) => from <= i < s.len() && s[i].lt(Single { bits: 0x3E19_999A }) && forall|k: int|
                from <= k < i ==> !(#[trigger] s[k]).lt(Single { bits: 0x3E19_999A }),
            None => forall|k: int|
                from <= k < s.len() ==> !(#[trigger] s[k]).lt(Single { bits: 0x3E19_999A }),
        },
    decreases s.len() - from,
{
    if from < s.len() && !s[from].lt(Single { bits: SURVIVAL_BITS }) {
        law_the_first_doubt_is_found(s, from + 1);
    }
}

} // verus!
