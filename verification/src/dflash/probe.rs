//! Files of recorded context features, against which a drafter is tried.
//!
//! All numbers are little-endian `u32` words. The format with tokens: `DFCTX`, version, prompt
//! length, steps, hidden size, taps; then the tokens of the prompt and of the steps; then one
//! feature per step and one more. The plain format: `DFCT`, version, context length, features;
//! then the features, each a whole context. Values of features are the bits of singles.

use vstd::prelude::*;

use crate::dflash::config;
use crate::dflash::config::DflashCfg;
use crate::json_schema::value;
use crate::json_schema::value::Json;

verus! {

/// One draft to try.
pub struct DflashStep {
    pub pos_start: usize,
    /// The feature, position by position.
    pub ctx: Vec<u32>,
    pub ctx_len: usize,
    pub block_tokens: Vec<u32>,
    /// What the target generated.
    pub chain: Option<Vec<u32>>,
}

/// The drafts of a file.
pub struct DflashProbeInput {
    pub plen: usize,
    pub steps: Vec<DflashStep>,
}

/// What is wrong with a file.
#[derive(Debug)]
pub enum ProbeError {
    /// The tokens are not JSON.
    TokensNotJson,
    /// There is no list of tokens.
    NoTokens,
    /// The prompt is longer than the tokens.
    BadPlen,
    /// The file ends inside its header or its tokens.
    CutShort,
    Version(u32),
    /// The file was made for another geometry.
    Geometry,
    /// The file ends inside its features.
    Truncated,
    /// The plain format needs a prompt length.
    NeedsPlen,
    /// Neither format.
    Magic,
}

/// The word at `off`.
pub open spec fn word_at(b: Seq<u8>, off: int) -> u32 {
    (b[off] + 0x100 * b[off + 1] + 0x1_0000 * b[off + 2] + 0x100_0000 * b[off + 3]) as u32
}

/// `n` words from `off` on.
pub open spec fn words_at(b: Seq<u8>, off: int, n: int) -> Seq<u32> {
    Seq::new(n as nat, |i: int| word_at(b, off + 4 * i))
}

pub open spec fn with_tokens() -> Seq<u8> {
    seq![0x44u8, 0x46u8, 0x43u8, 0x54u8, 0x58u8]
}

pub open spec fn plain() -> Seq<u8> {
    seq![0x44u8, 0x46u8, 0x43u8, 0x54u8]
}

/// The file starts with `m`.
pub open spec fn starts(b: Seq<u8>, m: Seq<u8>) -> bool {
    m.len() <= b.len() && b.take(m.len() as int) == m
}

/// A draft block at `from` of a chain that counts up to `end`: what is there, then masks.
pub open spec fn block_at(chain: Seq<u32>, from: int, end: int, block: int, mask: u32) -> Seq<u32> {
    Seq::new(
        block as nat,
        |k: int|
            if from + k < end {
                chain[from + k]
            } else {
                mask
            },
    )
}

/// What the tokens of the plain format say: the tokens and the prompt length.
pub open spec fn tokens_of(v: Json) -> Option<Seq<u32>> {
    match config::field(v, "tokens"@) {
        Some(Json::Array(a)) => Some(token_list(a@, a@.len() as int)),
        _ => None,
    }
}

/// The tokens among the first `n` items.
pub open spec fn token_list(a: Seq<Json>, n: int) -> Seq<u32>
    decreases n,
{
    if n <= 0 {
        Seq::empty()
    } else {
        match config::unsigned(Some(a[n - 1])) {
            Some(x) => token_list(a, n - 1).push(x as u32),
            None => token_list(a, n - 1),
        }
    }
}

pub open spec fn plen_of(v: Json) -> usize {
    match config::size_of(v, "plen"@) {
        Some(n) => n,
        None => 0,
    }
}

/// How a list of tokens is read.
pub open spec fn tokens_read(text: Seq<char>, r: Result<(Vec<u32>, usize), ProbeError>) -> bool {
    match value::parsed(text) {
        None => r matches Err(ProbeError::TokensNotJson),
        Some(v) => match tokens_of(v) {
            None => r matches Err(ProbeError::NoTokens),
            Some(t) => if plen_of(v) > t.len() {
                r matches Err(ProbeError::BadPlen)
            } else {
                r matches Ok(x) && x.0@ == t && x.1 == plen_of(v)
            },
        },
    }
}

fn low_token(n: u64) -> (r: u32)
    ensures
        r == n as u32,
{
    #[verifier::truncate]
    (n as u32)
}

/// Reads the tokens that go with a plain file.
pub fn read_tokens(text: &str) -> (r: Result<(Vec<u32>, usize), ProbeError>)
    ensures
        tokens_read(text@, r),
{
    let v = match value::parse_json(text) {
        Some(v) => v,
        None => return Err(ProbeError::TokensNotJson),
    };
    let mut toks: Vec<u32> = Vec::new();
    match config::field_of(&v, "tokens") {
        Some(Json::Array(a)) => {
            let mut i: usize = 0;
            while i < a.len()
                invariant
                    i <= a@.len(),
                    toks@ == token_list(a@, i as int),
                decreases a@.len() - i,
            {
                match &a[i] {
                    Json::Number(n) => match n.unsigned {
                        Some(x) => {
                            toks.push(low_token(x));
                        },
                        None => {},
                    },
                    _ => {},
                }
                i += 1;
            }
        },
        _ => return Err(ProbeError::NoTokens),
    }
    let plen: usize = match config::size_field(&v, "plen") {
        Some(n) => n,
        None => 0,
    };
    if plen > toks.len() {
        return Err(ProbeError::BadPlen);
    }
    Ok((toks, plen))
}

fn read_word(b: &Vec<u8>, off: usize) -> (w: u32)
    requires
        off + 4 <= b@.len(),
    ensures
        w == word_at(b@, off as int),
{
    let n: usize = b.len();
    b[off] as u32 + 0x100 * b[off + 1] as u32 + 0x1_0000 * b[off + 2] as u32 + 0x100_0000 * b[off
        + 3] as u32
}

fn read_words(b: &Vec<u8>, off: usize, n: usize) -> (v: Vec<u32>)
    requires
        off + 4 * n <= b@.len(),
    ensures
        v@ == words_at(b@, off as int, n as int),
{
    let len: usize = b.len();
    let mut v: Vec<u32> = Vec::new();
    let mut i: usize = 0;
    while i < n
        invariant
            i <= n,
            len == b@.len(),
            off + 4 * n <= len,
            v@ == words_at(b@, off as int, i as int),
        decreases n - i,
    {
        v.push(read_word(b, off + 4 * i));
        i += 1;
        assert(v@ =~= words_at(b@, off as int, i as int));
    }
    v
}

fn starts_with(b: &Vec<u8>, m: &Vec<u8>) -> (r: bool)
    ensures
        r == starts(b@, m@),
{
    if m.len() > b.len() {
        return false;
    }
    let mut i: usize = 0;
    while i < m.len()
        invariant
            i <= m@.len() <= b@.len(),
            forall|k: int| 0 <= k < i ==> b@[k] == #[trigger] m@[k],
        decreases m@.len() - i,
    {
        if b[i] != m[i] {
            assert(b@.take(m@.len() as int)[i as int] != m@[i as int]);
            return false;
        }
        i += 1;
    }
    assert(b@.take(m@.len() as int) =~= m@);
    true
}

fn draft_block(chain: &Vec<u32>, from: usize, end: usize, block: usize, mask: u32) -> (v: Vec<u32>)
    requires
        end <= chain@.len(),
    ensures
        v@ == block_at(chain@, from as int, end as int, block as int, mask),
{
    let mut v: Vec<u32> = Vec::new();
    while v.len() < block
        invariant
            end <= chain@.len(),
            v@.len() <= block,
            v@ == block_at(chain@, from as int, end as int, v@.len() as int, mask),
        decreases block - v@.len(),
    {
        let k: usize = v.len();
        if from < end && k < end - from {
            v.push(chain[from + k]);
        } else {
            v.push(mask);
        }
        assert(v@ =~= block_at(chain@, from as int, end as int, k + 1, mask));
    }
    v
}

/// Step `i` of a file with tokens: one position, the feature of that step, and the chain that the
/// file holds.
pub open spec fn step_with_tokens(
    b: Seq<u8>,
    cfg: DflashCfg,
    plen: int,
    nsteps: int,
    i: int,
    s: DflashStep,
) -> bool {
    let width = cfg.tap_layers@.len() * cfg.h;
    let chain = words_at(b, 25, plen + nsteps);
    &&& s.pos_start == plen + i
    &&& s.ctx@ == words_at(b, 25 + 4 * (plen + nsteps) + 4 * (i * width), width as int)
    &&& s.ctx_len == 1
    &&& s.block_tokens@ == block_at(
        chain,
        plen + i,
        plen + nsteps,
        cfg.block as int,
        cfg.mask_token_id,
    )
    &&& s.chain is Some
    &&& s.chain->0@ == chain
}

/// How a file with tokens is read.
pub open spec fn read_with_tokens(
    b: Seq<u8>,
    cfg: DflashCfg,
    r: Result<DflashProbeInput, ProbeError>,
) -> bool {
    if b.len() < 9 {
        r matches Err(ProbeError::CutShort)
    } else if word_at(b, 5) != 1 {
        r matches Err(ProbeError::Version(v)) && v == word_at(b, 5)
    } else if b.len() < 25 {
        r matches Err(ProbeError::CutShort)
    } else {
        let plen = word_at(b, 9) as int;
        let nsteps = word_at(b, 13) as int;
        let width = cfg.tap_layers@.len() * cfg.h;
        if word_at(b, 17) != cfg.h || word_at(b, 21) != cfg.tap_layers@.len() {
            r matches Err(ProbeError::Geometry)
        } else if 25 + 4 * (plen + nsteps) > b.len() {
            r matches Err(ProbeError::CutShort)
        } else if 25 + 4 * (plen + nsteps) + 4 * ((nsteps + 1) * width) > b.len() {
            r matches Err(ProbeError::Truncated)
        } else {
            r matches Ok(p) && p.plen == plen && p.steps@.len() == nsteps && forall|i: int|
                0 <= i < nsteps ==> step_with_tokens(
                    b,
                    cfg,
                    plen,
                    nsteps,
                    i,
                    #[trigger] p.steps@[i],
                )
        }
    }
}

/// Step `i` of a plain file: a whole context, and the chain that came with it.
pub open spec fn plain_step(
    b: Seq<u8>,
    cfg: DflashCfg,
    chain: Seq<u32>,
    plen: int,
    ctx_len: int,
    i: int,
    s: DflashStep,
) -> bool {
    let per = ctx_len * (cfg.tap_layers@.len() * cfg.h);
    &&& s.pos_start == plen + i
    &&& s.ctx@ == words_at(b, 16 + 4 * (i * per), per as int)
    &&& s.ctx_len == ctx_len
    &&& s.block_tokens@ == block_at(
        chain,
        plen + i,
        chain.len() as int,
        cfg.block as int,
        cfg.mask_token_id,
    )
    &&& s.chain is Some
    &&& s.chain->0@ == chain
}

/// How a plain file is read.
pub open spec fn read_plain(
    b: Seq<u8>,
    tokens: Option<(Vec<u32>, usize)>,
    cfg: DflashCfg,
    r: Result<DflashProbeInput, ProbeError>,
) -> bool {
    let plen = match tokens {
        Some(t) => t.1 as int,
        None => 0,
    };
    if b.len() < 8 {
        r matches Err(ProbeError::CutShort)
    } else if word_at(b, 4) != 1 {
        r matches Err(ProbeError::Version(v)) && v == word_at(b, 4)
    } else if b.len() < 16 {
        r matches Err(ProbeError::CutShort)
    } else {
        let ctx_len = word_at(b, 8) as int;
        let n = word_at(b, 12) as int;
        let per = ctx_len * (cfg.tap_layers@.len() * cfg.h);
        if 16 + 4 * (n * per) > b.len() {
            r matches Err(ProbeError::Truncated)
        } else if n > 0 && plen == 0 {
            r matches Err(ProbeError::NeedsPlen)
        } else {
            r matches Ok(p) && p.plen == plen && p.steps@.len() == n && forall|i: int|
                0 <= i < n ==> plain_step(
                    b,
                    cfg,
                    (tokens->0).0@,
                    plen,
                    ctx_len,
                    i,
                    #[trigger] p.steps@[i],
                )
        }
    }
}

/// `a * b`, where it is at most `most`.
fn product_within(a: usize, b: usize, most: usize) -> (r: Option<usize>)
    ensures
        a * b <= most ==> r == Some((a * b) as usize),
        a * b > most ==> r is None,
{
    match a.checked_mul(b) {
        Some(p) => if p <= most {
            Some(p)
        } else {
            None
        },
        None => None,
    }
}

fn read_dfctx(b: &Vec<u8>, cfg: &DflashCfg) -> (r: Result<DflashProbeInput, ProbeError>)
    ensures
        read_with_tokens(b@, *cfg, r),
{
    let len: usize = b.len();
    if len < 9 {
        return Err(ProbeError::CutShort);
    }
    let ver: u32 = read_word(b, 5);
    if ver != 1 {
        return Err(ProbeError::Version(ver));
    }
    if len < 25 {
        return Err(ProbeError::CutShort);
    }
    let plen: u32 = read_word(b, 9);
    let nsteps: u32 = read_word(b, 13);
    let h: u32 = read_word(b, 17);
    let nl: u32 = read_word(b, 21);
    if h as u64 != cfg.h as u64 || nl as u64 != cfg.nctx() as u64 {
        return Err(ProbeError::Geometry);
    }
    let room: u64 = ((len - 25) / 4) as u64;
    let asked: u64 = plen as u64 + nsteps as u64;
    if asked > room {
        return Err(ProbeError::CutShort);
    }
    let ntok: usize = asked as usize;
    let plen: usize = plen as usize;
    let nsteps: usize = nsteps as usize;
    let left: usize = (len - 25) / 4 - ntok;
    let nctx: usize = cfg.nctx();
    let ghost w = cfg.tap_layers@.len() * cfg.h;
    assert(0 <= w) by (nonlinear_arith)
        requires
            w == cfg.tap_layers@.len() * cfg.h,
    ;
    let width: usize = match product_within(nctx, cfg.h, left) {
        Some(x) => x,
        None => {
            assert((nsteps + 1) * w >= w) by (nonlinear_arith)
                requires
                    0 <= w,
                    0 <= nsteps,
            ;
            return Err(ProbeError::Truncated);
        },
    };
    if nsteps == usize::MAX {
        return Err(ProbeError::Truncated);
    }
    if product_within(nsteps + 1, width, left).is_none() {
        return Err(ProbeError::Truncated);
    }
    let base: usize = 25 + 4 * ntok;
    let toks = read_words(b, 25, ntok);
    let mut steps: Vec<DflashStep> = Vec::new();
    let mut i: usize = 0;
    let mut at: usize = 0;
    while i < nsteps
        invariant
            len == b@.len(),
            i <= nsteps,
            nsteps < usize::MAX,
            ntok == plen + nsteps,
            width == w,
            w == cfg.tap_layers@.len() * cfg.h,
            base == 25 + 4 * ntok,
            left == (len - 25) / 4 - ntok,
            25 + 4 * ntok <= len,
            (nsteps + 1) * width <= left,
            at == i * width,
            toks@ == words_at(b@, 25, ntok as int),
            steps@.len() == i,
            forall|k: int|
                0 <= k < i ==> step_with_tokens(
                    b@,
                    *cfg,
                    plen as int,
                    nsteps as int,
                    k,
                    #[trigger] steps@[k],
                ),
        decreases nsteps - i,
    {
        proof {
            assert(i * width + width <= (nsteps + 1) * width) by (nonlinear_arith)
                requires
                    i < nsteps,
                    0 <= width,
            ;
            assert((i + 1) * width == i * width + width) by (nonlinear_arith);
        }
        let chain = toks.clone();
        assert(chain@ =~= toks@);
        let step = DflashStep {
            pos_start: plen + i,
            ctx: read_words(b, base + 4 * at, width),
            ctx_len: 1,
            block_tokens: draft_block(&toks, plen + i, ntok, cfg.block, cfg.mask_token_id),
            chain: Some(chain),
        };
        steps.push(step);
        i += 1;
        at += width;
    }
    Ok(DflashProbeInput { plen, steps })
}

/// The tokens that came with a plain file are long enough, and positions behind them can be
/// counted.
pub open spec fn countable(tokens: Option<(Vec<u32>, usize)>) -> bool {
    tokens matches Some(t) ==> t.1 <= t.0@.len() && t.1 + u32::MAX <= usize::MAX
}

fn read_dfct(b: &Vec<u8>, tokens: &Option<(Vec<u32>, usize)>, cfg: &DflashCfg) -> (r: Result<
    DflashProbeInput,
    ProbeError,
>)
    requires
        countable(*tokens),
    ensures
        read_plain(b@, *tokens, *cfg, r),
{
    let len: usize = b.len();
    if len < 8 {
        return Err(ProbeError::CutShort);
    }
    let ver: u32 = read_word(b, 4);
    if ver != 1 {
        return Err(ProbeError::Version(ver));
    }
    if len < 16 {
        return Err(ProbeError::CutShort);
    }
    let ctx_len: usize = read_word(b, 8) as usize;
    let n: usize = read_word(b, 12) as usize;
    let room: usize = (len - 16) / 4;
    let nctx: usize = cfg.nctx();
    let ghost w = cfg.tap_layers@.len() * cfg.h;
    let ghost p = ctx_len * w;
    let ghost all = n * p;
    proof {
        assert(0 <= w) by (nonlinear_arith)
            requires
                w == cfg.tap_layers@.len() * cfg.h,
        ;
        assert(0 <= p) by (nonlinear_arith)
            requires
                0 <= w,
                p == ctx_len * w,
        ;
        assert(n >= 1 ==> all >= p) by (nonlinear_arith)
            requires
                0 <= p,
                all == n * p,
        ;
        assert(ctx_len >= 1 ==> p >= w) by (nonlinear_arith)
            requires
                0 <= w,
                p == ctx_len * w,
        ;
        assert(ctx_len == 0 ==> p == 0) by (nonlinear_arith)
            requires
                p == ctx_len * w,
        ;
        assert(n == 0 || p == 0 ==> all == 0) by (nonlinear_arith)
            requires
                all == n * p,
        ;
    }
    let mut per: usize = 0;
    if n > 0 && ctx_len > 0 {
        let width: usize = match product_within(nctx, cfg.h, room) {
            Some(x) => x,
            None => return Err(ProbeError::Truncated),
        };
        per = match product_within(ctx_len, width, room) {
            Some(x) => x,
            None => return Err(ProbeError::Truncated),
        };
        if product_within(n, per, room).is_none() {
            return Err(ProbeError::Truncated);
        }
    }
    assert(16 + 4 * all <= len);
    let (chain, plen): (Vec<u32>, usize) = match tokens {
        Some((c, k)) => {
            let copy = c.clone();
            assert(copy@ =~= c@);
            (copy, *k)
        },
        None => (Vec::new(), 0),
    };
    if n > 0 && plen == 0 {
        return Err(ProbeError::NeedsPlen);
    }
    let mut steps: Vec<DflashStep> = Vec::new();
    let mut i: usize = 0;
    let mut at: usize = 0;
    while i < n
        invariant
            len == b@.len(),
            i <= n <= u32::MAX,
            n > 0 ==> tokens is Some && chain@ == (tokens->0).0@ && plen == (tokens->0).1,
            n > 0 ==> plen + u32::MAX <= usize::MAX,
            n > 0 ==> per == p,
            p == ctx_len * w,
            w == cfg.tap_layers@.len() * cfg.h,
            n > 0 ==> 16 + 4 * (n * per) <= len,
            at == i * per,
            steps@.len() == i,
            forall|k: int|
                0 <= k < i ==> plain_step(
                    b@,
                    *cfg,
                    chain@,
                    plen as int,
                    ctx_len as int,
                    k,
                    #[trigger] steps@[k],
                ),
        decreases n - i,
    {
        proof {
            assert(i * per + per <= n * per) by (nonlinear_arith)
                requires
                    i < n,
                    0 <= per,
            ;
            assert((i + 1) * per == i * per + per) by (nonlinear_arith);
        }
        let copy = chain.clone();
        assert(copy@ =~= chain@);
        let step = DflashStep {
            pos_start: plen + i,
            ctx: read_words(b, 16 + 4 * at, per),
            ctx_len,
            block_tokens: draft_block(&chain, plen + i, chain.len(), cfg.block, cfg.mask_token_id),
            chain: Some(copy),
        };
        steps.push(step);
        i += 1;
        at += per;
    }
    Ok(DflashProbeInput { plen, steps })
}

/// Reads a file of context features. `cfg` is the geometry that it must agree with, `tokens` what
/// came with a plain file.
pub fn read_probe_input(
    buf: &Vec<u8>,
    tokens: &Option<(Vec<u32>, usize)>,
    cfg: &DflashCfg,
) -> (r: Result<DflashProbeInput, ProbeError>)
    requires
        countable(*tokens),
    ensures
        starts(buf@, with_tokens()) ==> read_with_tokens(buf@, *cfg, r),
        !starts(buf@, with_tokens()) && starts(buf@, plain()) ==> read_plain(
            buf@,
            *tokens,
            *cfg,
            r,
        ),
        !starts(buf@, with_tokens()) && !starts(buf@, plain()) ==> r matches Err(
            ProbeError::Magic,
        ),
{
    let mut m: Vec<u8> = Vec::new();
    m.push(0x44);
    m.push(0x46);
    m.push(0x43);
    m.push(0x54);
    assert(m@ =~= plain());
    if !starts_with(buf, &m) {
        proof {
            if starts(buf@, with_tokens()) {
                assert(buf@.take(5).take(4) =~= buf@.take(4));
                assert(with_tokens().take(4) =~= plain());
            }
        }
        return Err(ProbeError::Magic);
    }
    m.push(0x58);
    assert(m@ =~= with_tokens());
    if starts_with(buf, &m) {
        read_dfctx(buf, cfg)
    } else {
        read_dfct(buf, tokens, cfg)
    }
}


/// Words are read low byte first: each gives back its four bytes.
pub proof fn law_words_hold_their_bytes(b: Seq<u8>, off: int)
    requires
        0 <= off,
        off + 4 <= b.len(),
    ensures
        word_at(b, off) % 0x100 == b[off],
        word_at(b, off) / 0x100 % 0x100 == b[off + 1],
        word_at(b, off) / 0x1_0000 % 0x100 == b[off + 2],
        word_at(b, off) / 0x100_0000 == b[off + 3],
{
}

/// A block holds the chain from its place on, and the mask behind the chain's end.
pub proof fn law_a_block_holds_the_chain_and_then_the_mask(
    chain: Seq<u32>,
    from: int,
    end: int,
    block: int,
    mask: u32,
)
    requires
        0 <= from,
        0 <= block,
        end <= chain.len(),
    ensures
        ({
            let v = block_at(chain, from, end, block, mask);
            &&& v.len() == block
            &&& from + block <= end ==> v == chain.subrange(from, from + block)
            &&& from <= end < from + block ==> v.take(end - from) == chain.subrange(from, end)
                && forall|k: int| end - from <= k < block ==> #[trigger] v[k] == mask
        }),
{
    let v = block_at(chain, from, end, block, mask);
    if from + block <= end {
        assert(v =~= chain.subrange(from, from + block));
    } else if from <= end {
        assert(v.take(end - from) =~= chain.subrange(from, end));
    }
}

/// The steps of a file with tokens read one behind the other: each has its own part of the file, and
/// the parts tile what stands behind the tokens.
pub proof fn law_steps_tile_the_file(
    b: Seq<u8>,
    cfg: DflashCfg,
    plen: int,
    nsteps: int,
    i: int,
    s: DflashStep,
    k: int,
)
    requires
        step_with_tokens(b, cfg, plen, nsteps, i, s),
        0 <= i < nsteps,
        0 <= plen,
        0 <= k < cfg.tap_layers@.len() * cfg.h,
    ensures
        s.pos_start == plen + i,
        s.ctx@.len() == cfg.tap_layers@.len() * cfg.h,
        s.ctx@[k] == word_at(
            b,
            25 + 4 * (plen + nsteps + i * (cfg.tap_layers@.len() * cfg.h) + k),
        ),
        s.chain is Some && s.chain->0@.len() == plen + nsteps,
        s.block_tokens@.len() == cfg.block,
        cfg.block > 0 ==> s.block_tokens@[0] == s.chain->0@[plen + i],
{
}

} // verus!
