//! Speculation sources and how a request is routed to one.

use vstd::prelude::*;
use vstd::utf8::*;

use crate::single::{Single, TAU_BITS};
use crate::text::same_str;

verus! {

/// Where the drafts of a lane come from.
#[derive(Clone, Copy, PartialEq, Eq, Structural, Debug)]
pub enum SpecSource {
    /// The model's own multi-token head.
    Mtp,
    /// The block drafter.
    Dspark,
    /// The first-generation block drafter.
    DFlash,
    /// The selector round with greedy drafts.
    DFlash2,
    /// The selector round with sampled drafts.
    DFlash2Rq,
    /// The selector round, greedy or sampled by request.
    DFlash2Auto,
    /// The selector round with a draft tree.
    DFlash2Tree,
    /// No speculation.
    Plain,
}

/// Kind of text that a request is about.
#[derive(Clone, Copy, PartialEq, Eq, Structural, Debug)]
pub enum Domain {
    General,
    Code,
}

impl Default for Domain {
    fn default() -> (d: Domain)
        ensures
            d == Domain::General,
    {
        Domain::General
    }
}

/// Number of code markers.
pub const MARKERS: usize = 26;

/// The code markers.
pub open spec fn marker(i: int) -> Seq<char> {
    if i == 0 {
        "def "@
    } else if i == 1 {
        "class "@
    } else if i == 2 {
        "import "@
    } else if i == 3 {
        "from "@
    } else if i == 4 {
        "func "@
    } else if i == 5 {
        "fn "@
    } else if i == 6 {
        "function "@
    } else if i == 7 {
        "public "@
    } else if i == 8 {
        "private "@
    } else if i == 9 {
        "static "@
    } else if i == 10 {
        "void "@
    } else if i == 11 {
        "int "@
    } else if i == 12 {
        "float "@
    } else if i == 13 {
        "double "@
    } else if i == 14 {
        "#include"@
    } else if i == 15 {
        "using namespace"@
    } else if i == 16 {
        "return "@
    } else if i == 17 {
        "=>"@
    } else if i == 18 {
        "struct "@
    } else if i == 19 {
        "impl "@
    } else if i == 20 {
        "pub "@
    } else if i == 21 {
        "let mut"@
    } else if i == 22 {
        "print("@
    } else if i == 23 {
        "cout"@
    } else if i == 24 {
        "std::"@
    } else {
        "```"@
    }
}

/// ASCII lower case of a byte.
pub open spec fn lower(b: u8) -> u8 {
    if 0x41 <= b <= 0x5A {
        (b + 0x20) as u8
    } else {
        b
    }
}

pub open spec fn lowered(w: Seq<u8>) -> Seq<u8> {
    Seq::new(w.len(), |i: int| lower(w[i]))
}

/// `part` stands in `w` at `i`.
pub open spec fn stands_at(w: Seq<u8>, part: Seq<u8>, i: int) -> bool {
    0 <= i && i + part.len() <= w.len() && w.subrange(i, i + part.len()) == part
}

/// `part` stands somewhere in `w`.
pub open spec fn occurs(w: Seq<u8>, part: Seq<u8>) -> bool {
    exists|i: int| stands_at(w, part, i)
}

/// How many of the first `n` markers occur in `w`.
pub open spec fn hits(w: Seq<u8>, n: int) -> int
    decreases n,
{
    if n <= 0 {
        0
    } else {
        hits(w, n - 1) + if occurs(w, encode_utf8(marker(n - 1))) {
            1int
        } else {
            0
        }
    }
}

/// A prompt is about code where a code fence or at least two of the markers occur in it, upper
/// and lower case alike.
pub open spec fn domain_of(prompt: Seq<char>) -> Domain {
    let w = lowered(encode_utf8(prompt));
    if occurs(w, encode_utf8("```"@)) || hits(w, MARKERS as int) >= 2 {
        Domain::Code
    } else {
        Domain::General
    }
}

fn marker_str(i: usize) -> (r: &'static str)
    ensures
        r@ == marker(i as int),
{
    if i == 0 {
        "def "
    } else if i == 1 {
        "class "
    } else if i == 2 {
        "import "
    } else if i == 3 {
        "from "
    } else if i == 4 {
        "func "
    } else if i == 5 {
        "fn "
    } else if i == 6 {
        "function "
    } else if i == 7 {
        "public "
    } else if i == 8 {
        "private "
    } else if i == 9 {
        "static "
    } else if i == 10 {
        "void "
    } else if i == 11 {
        "int "
    } else if i == 12 {
        "float "
    } else if i == 13 {
        "double "
    } else if i == 14 {
        "#include"
    } else if i == 15 {
        "using namespace"
    } else if i == 16 {
        "return "
    } else if i == 17 {
        "=>"
    } else if i == 18 {
        "struct "
    } else if i == 19 {
        "impl "
    } else if i == 20 {
        "pub "
    } else if i == 21 {
        "let mut"
    } else if i == 22 {
        "print("
    } else if i == 23 {
        "cout"
    } else if i == 24 {
        "std::"
    } else {
        "```"
    }
}

fn to_lower(w: &[u8]) -> (r: Vec<u8>)
    ensures
        r@ == lowered(w@),
{
    let mut r: Vec<u8> = Vec::new();
    let mut i: usize = 0;
    while i < w.len()
        invariant
            i <= w.len(),
            r@ =~= lowered(w@).take(i as int),
        decreases w.len() - i,
    {
        let b: u8 = w[i];
        r.push(
            if 0x41 <= b && b <= 0x5A {
                b + 0x20
            } else {
                b
            },
        );
        i += 1;
    }
    r
}

fn matches_at(w: &Vec<u8>, part: &[u8], i: usize) -> (r: bool)
    requires
        i + part.len() <= w.len(),
    ensures
        r == stands_at(w@, part@, i as int),
{
    let mut k: usize = 0;
    while k < part.len()
        invariant
            k <= part.len(),
            i + part.len() <= w.len(),
            forall|j: int| 0 <= j < k ==> w@[i + j] == part@[j],
        decreases part.len() - k,
    {
        if w[i + k] != part[k] {
            assert(w@.subrange(i as int, i + part@.len())[k as int] != part@[k as int]);
            return false;
        }
        k += 1;
    }
    assert(w@.subrange(i as int, i + part@.len()) =~= part@);
    true
}

fn contains(w: &Vec<u8>, part: &[u8]) -> (r: bool)
    ensures
        r == occurs(w@, part@),
{
    if part.len() > w.len() {
        return false;
    }
    let last: usize = w.len() - part.len();
    let mut i: usize = 0;
    loop
        invariant
            i <= last,
            last == w.len() - part.len(),
            forall|j: int| 0 <= j < i ==> !stands_at(w@, part@, j),
        decreases last - i,
    {
        if matches_at(w, part, i) {
            return true;
        }
        if i == last {
            return false;
        }
        i += 1;
    }
}

/// Classifies a prompt. A wrong answer costs speed, never correctness.
pub fn classify_domain(prompt: &str) -> (d: Domain)
    ensures
        d == domain_of(prompt@),
{
    let w = to_lower(prompt.as_bytes());
    if contains(&w, "```".as_bytes()) {
        return Domain::Code;
    }
    let mut n: usize = 0;
    let mut i: usize = 0;
    while i < MARKERS
        invariant
            i <= MARKERS,
            n == hits(w@, i as int),
            n <= i,
        decreases MARKERS - i,
    {
        if contains(&w, marker_str(i).as_bytes()) {
            n += 1;
        }
        i += 1;
    }
    if n >= 2 {
        Domain::Code
    } else {
        Domain::General
    }
}

/// The lane of a source for one request: the automatic source drafts greedily on code, and on
/// other text where both `prose_greedy` and the request ask for it.
pub open spec fn effective(
    src: SpecSource,
    domain: Domain,
    prose_greedy: bool,
    req_greedy: bool,
) -> SpecSource {
    if src != SpecSource::DFlash2Auto {
        src
    } else if domain == Domain::Code || (prose_greedy && req_greedy) {
        SpecSource::DFlash2
    } else {
        SpecSource::DFlash2Rq
    }
}

/// Resolves the source of a lane.
pub fn df2_effective_src(
    src: SpecSource,
    domain: Domain,
    prose_greedy: bool,
    req_greedy: bool,
) -> (r: SpecSource)
    ensures
        r == effective(src, domain, prose_greedy, req_greedy),
{
    match src {
        SpecSource::DFlash2Auto => match domain {
            Domain::Code => SpecSource::DFlash2,
            Domain::General => if prose_greedy && req_greedy {
                SpecSource::DFlash2
            } else {
                SpecSource::DFlash2Rq
            },
        },
        other => other,
    }
}

/// A source of the selector round.
pub open spec fn df2_family(src: SpecSource) -> bool {
    src is DFlash2 || src is DFlash2Rq || src is DFlash2Auto || src is DFlash2Tree
}

/// True for the sources of the selector round.
pub fn is_df2_src(src: SpecSource) -> (r: bool)
    ensures
        r == df2_family(src),
{
    matches!(
        src,
        SpecSource::DFlash2 | SpecSource::DFlash2Rq | SpecSource::DFlash2Auto
            | SpecSource::DFlash2Tree
    )
}

/// The source that a command-line name stands for.
pub open spec fn named(s: Seq<char>) -> Option<SpecSource> {
    if s == "mtp"@ {
        Some(SpecSource::Mtp)
    } else if s == "dspark"@ {
        Some(SpecSource::Dspark)
    } else if s == "dflash"@ || s == "dflash-v1"@ || s == "dflash1"@ {
        Some(SpecSource::DFlash)
    } else if s == "dflash2"@ || s == "df2"@ {
        Some(SpecSource::DFlash2)
    } else if s == "dflash2-rq"@ || s == "df2rq"@ {
        Some(SpecSource::DFlash2Rq)
    } else if s == "dflash2-auto"@ || s == "df2-auto"@ || s == "df2auto"@ {
        Some(SpecSource::DFlash2Auto)
    } else if s == "dflash2-tree"@ || s == "df2-tree"@ {
        Some(SpecSource::DFlash2Tree)
    } else if s == "none"@ || s == "plain"@ || s == "off"@ {
        Some(SpecSource::Plain)
    } else {
        None
    }
}

/// The command-line name of a source.
pub open spec fn name_of(src: SpecSource) -> Seq<char> {
    match src {
        SpecSource::Mtp => "mtp"@,
        SpecSource::Dspark => "dspark"@,
        SpecSource::DFlash => "dflash"@,
        SpecSource::DFlash2 => "dflash2"@,
        SpecSource::DFlash2Rq => "dflash2-rq"@,
        SpecSource::DFlash2Auto => "dflash2-auto"@,
        SpecSource::DFlash2Tree => "dflash2-tree"@,
        SpecSource::Plain => "none"@,
    }
}

impl SpecSource {
    /// The source that a command-line name stands for.
    pub fn from_cli(s: &str) -> (r: Option<SpecSource>)
        ensures
            r == named(s@),
    {
        if same_str(s, "mtp") {
            Some(SpecSource::Mtp)
        } else if same_str(s, "dspark") {
            Some(SpecSource::Dspark)
        } else if same_str(s, "dflash") || same_str(s, "dflash-v1") || same_str(s, "dflash1") {
            Some(SpecSource::DFlash)
        } else if same_str(s, "dflash2") || same_str(s, "df2") {
            Some(SpecSource::DFlash2)
        } else if same_str(s, "dflash2-rq") || same_str(s, "df2rq") {
            Some(SpecSource::DFlash2Rq)
        } else if same_str(s, "dflash2-auto") || same_str(s, "df2-auto") || same_str(
            s,
            "df2auto",
        ) {
            Some(SpecSource::DFlash2Auto)
        } else if same_str(s, "dflash2-tree") || same_str(s, "df2-tree") {
            Some(SpecSource::DFlash2Tree)
        } else if same_str(s, "none") || same_str(s, "plain") || same_str(s, "off") {
            Some(SpecSource::Plain)
        } else {
            None
        }
    }

    /// The command-line name of the source.
    pub fn cli_name(&self) -> (r: &'static str)
        ensures
            r@ == name_of(*self),
    {
        match self {
            SpecSource::Mtp => "mtp",
            SpecSource::Dspark => "dspark",
            SpecSource::DFlash => "dflash",
            SpecSource::DFlash2 => "dflash2",
            SpecSource::DFlash2Rq => "dflash2-rq",
            SpecSource::DFlash2Auto => "dflash2-auto",
            SpecSource::DFlash2Tree => "dflash2-tree",
            SpecSource::Plain => "none",
        }
    }
}

/// The name of a source names it.
pub proof fn law_names_round_trip(src: SpecSource)
    ensures
        named(name_of(src)) == Some(src),
{
    reveal_strlit("mtp");
    reveal_strlit("dspark");
    reveal_strlit("dflash");
    reveal_strlit("dflash-v1");
    reveal_strlit("dflash1");
    reveal_strlit("dflash2");
    reveal_strlit("df2");
    reveal_strlit("dflash2-rq");
    reveal_strlit("df2rq");
    reveal_strlit("dflash2-auto");
    reveal_strlit("df2-auto");
    reveal_strlit("df2auto");
    reveal_strlit("dflash2-tree");
    reveal_strlit("df2-tree");
    reveal_strlit("none");
    reveal_strlit("plain");
    reveal_strlit("off");
    assert("mtp"@.len() == 3);
    assert("dspark"@.len() == 6);
    assert("dflash"@.len() == 6);
    assert("dflash-v1"@.len() == 9);
    assert("dflash1"@.len() == 7);
    assert("dflash2"@.len() == 7);
    assert("df2"@.len() == 3);
    assert("dflash2-rq"@.len() == 10);
    assert("df2rq"@.len() == 5);
    assert("dflash2-auto"@.len() == 12);
    assert("df2-auto"@.len() == 8);
    assert("df2auto"@.len() == 7);
    assert("dflash2-tree"@.len() == 12);
    assert("df2-tree"@.len() == 8);
    assert("none"@.len() == 4);
    assert("plain"@.len() == 5);
    assert("off"@.len() == 3);
    assert("dspark"@[1] == 's' && "dflash"@[1] == 'f');
    assert("dflash1"@[6] == '1' && "dflash2"@[6] == '2' && "df2auto"@[6] == 'o');
    assert("dflash2-auto"@[8] == 'a' && "dflash2-tree"@[8] == 't');
}

/// A lane of the selector round stays one, and every other source stays itself.
pub proof fn law_routing_keeps_the_family(
    src: SpecSource,
    domain: Domain,
    prose_greedy: bool,
    req_greedy: bool,
)
    ensures
        df2_family(effective(src, domain, prose_greedy, req_greedy)) == df2_family(src),
        !(effective(src, domain, prose_greedy, req_greedy) is DFlash2Auto),
        !(src is DFlash2Auto) ==> effective(src, domain, prose_greedy, req_greedy) == src,
{
}

/// Number of context buckets.
pub const BUCKETS: usize = 5;

/// The context lengths for which acceptance was measured.
pub open spec fn bucket(i: int) -> usize {
    if i == 0 {
        4096
    } else if i == 1 {
        16384
    } else if i == 2 {
        32768
    } else if i == 3 {
        65536
    } else {
        131072
    }
}

fn bucket_at(i: usize) -> (r: usize)
    ensures
        r == bucket(i as int),
{
    if i == 0 {
        4096
    } else if i == 1 {
        16384
    } else if i == 2 {
        32768
    } else if i == 3 {
        65536
    } else {
        131072
    }
}

pub open spec fn distance(a: int, b: int) -> int {
    if a < b {
        b - a
    } else {
        a - b
    }
}

/// The bucket nearest to a context length; the smaller of two equally near ones.
pub open spec fn nearest(ctx: usize) -> usize {
    bucket(
        if ctx <= 10240 {
            0
        } else if ctx <= 24576 {
            1
        } else if ctx <= 49152 {
            2
        } else if ctx <= 98304 {
            3
        } else {
            4
        },
    )
}

/// No bucket is nearer than the nearest one.
pub proof fn law_nearest_bucket_is_nearest(ctx: usize, i: int)
    requires
        0 <= i < BUCKETS,
    ensures
        distance(nearest(ctx) as int, ctx as int) <= distance(bucket(i) as int, ctx as int),
        distance(nearest(ctx) as int, ctx as int) == distance(bucket(i) as int, ctx as int)
            ==> nearest(ctx) <= bucket(i),
{
}

fn nearest_bucket(ctx: usize) -> (r: usize)
    ensures
        r == nearest(ctx),
{
    let mut best: usize = bucket_at(0);
    let mut i: usize = 1;
    while i < BUCKETS
        invariant
            1 <= i <= BUCKETS,
            exists|k: int| 0 <= k < i && best == #[trigger] bucket(k),
            forall|k: int|
                0 <= k < i ==> {
                    &&& distance(best as int, ctx as int) <= distance(
                        #[trigger] bucket(k) as int,
                        ctx as int,
                    )
                    &&& (distance(best as int, ctx as int) == distance(bucket(k) as int, ctx as int)
                        ==> best <= bucket(k))
                },
        decreases BUCKETS - i,
    {
        let b: usize = bucket_at(i);
        let near: usize = if best < ctx {
            ctx - best
        } else {
            best - ctx
        };
        let far: usize = if b < ctx {
            ctx - b
        } else {
            b - ctx
        };
        if far < near {
            best = b;
        }
        i += 1;
    }
    proof {
        assert(bucket(0) == 4096 && bucket(1) == 16384 && bucket(2) == 32768 && bucket(3) == 65536
            && bucket(4) == 131072);
        law_nearest_bucket_is_nearest(ctx, 0);
    }
    best
}

/// A measured table of a domain, a context bucket and the tokens per step there.
pub open spec fn measured(
    table: Seq<(String, usize, Single)>,
    domain: Seq<char>,
    ctx: usize,
    i: int,
) -> Option<Single>
    decreases table.len() - i,
{
    if i < 0 || i >= table.len() {
        None
    } else if table[i].0@ == domain && table[i].1 == ctx {
        Some(table[i].2)
    } else {
        measured(table, domain, ctx, i + 1)
    }
}

/// The block drafter where its measured tokens per step at the nearest bucket exceed parity, the
/// model's own head everywhere else.
pub open spec fn chosen_source(
    domain: Seq<char>,
    ctx: usize,
    table: Seq<(String, usize, Single)>,
) -> SpecSource {
    match measured(table, domain, nearest(ctx), 0) {
        Some(tau) => if (Single { bits: TAU_BITS }).lt(tau) {
            SpecSource::Dspark
        } else {
            SpecSource::Mtp
        },
        None => SpecSource::Mtp,
    }
}

/// Chooses the source for a domain and a context length from a measured table.
pub fn spec_source_for(
    domain: &str,
    ctx: usize,
    dspark_tau_table: &[(String, usize, Single)],
) -> (r: SpecSource)
    ensures
        r == chosen_source(domain@, ctx, dspark_tau_table@),
{
    let bctx: usize = nearest_bucket(ctx);
    let mut i: usize = 0;
    while i < dspark_tau_table.len()
        invariant
            i <= dspark_tau_table.len(),
            bctx == nearest(ctx),
            measured(dspark_tau_table@, domain@, bctx, 0) == measured(
                dspark_tau_table@,
                domain@,
                bctx,
                i as int,
            ),
        decreases dspark_tau_table.len() - i,
    {
        if same_str(dspark_tau_table[i].0.as_str(), domain) && dspark_tau_table[i].1 == bctx {
            let tau = dspark_tau_table[i].2;
            let parity = Single { bits: TAU_BITS };
            return if parity.less(tau) {
                SpecSource::Dspark
            } else {
                SpecSource::Mtp
            };
        }
        i += 1;
    }
    SpecSource::Mtp
}


/// The words by which code is told, each of which counts once.
pub open spec fn told_by() -> Seq<Seq<char>> {
    seq![
        "def "@,
        "class "@,
        "import "@,
        "from "@,
        "func "@,
        "fn "@,
        "function "@,
        "public "@,
        "private "@,
        "static "@,
        "void "@,
        "int "@,
        "float "@,
        "double "@,
        "#include"@,
        "using namespace"@,
        "return "@,
        "=>"@,
        "struct "@,
        "impl "@,
        "pub "@,
        "let mut"@,
        "print("@,
        "cout"@,
        "std::"@,
        "```"@,
    ]
}

proof fn lemma_hits(w: Seq<u8>, n: int)
    requires
        0 <= n <= 26,
    ensures
        0 <= hits(w, n),
        hits(w, n) >= 1 <==> exists|i: int|
            0 <= i < n && occurs(w, encode_utf8(#[trigger] marker(i))),
        hits(w, n) >= 2 <==> exists|i: int, j: int|
            0 <= i < j < n && occurs(w, encode_utf8(#[trigger] marker(i))) && occurs(
                w,
                encode_utf8(#[trigger] marker(j)),
            ),
    decreases n,
{
    if n > 0 {
        lemma_hits(w, n - 1);
        if occurs(w, encode_utf8(marker(n - 1))) && hits(w, n - 1) >= 1 {
            let i = choose|i: int|
                0 <= i < n - 1 && occurs(w, encode_utf8(#[trigger] marker(i)));
            assert(0 <= i < n - 1 && occurs(w, encode_utf8(marker(i))) && occurs(
                w,
                encode_utf8(marker(n - 1)),
            ));
        }
    }
}

/// Word `i` stands in the prompt, in upper or lower case.
pub open spec fn tells_of_code(prompt: Seq<char>, i: int) -> bool {
    occurs(lowered(encode_utf8(prompt)), encode_utf8(told_by()[i]))
}

/// A prompt is code exactly where a fence of three backticks stands in it, or two different words
/// that tell of code.
pub proof fn law_code_is_told_by_a_fence_or_two_words(prompt: Seq<char>)
    ensures
        domain_of(prompt) is Code <==> (tells_of_code(prompt, 25) || exists|i: int, j: int|
            0 <= i < j < 26 && #[trigger] tells_of_code(prompt, i) && #[trigger] tells_of_code(
                prompt,
                j,
            )),
{
    let w = lowered(encode_utf8(prompt));
    lemma_hits(w, 26);
    assert forall|i: int| 0 <= i < 26 implies tells_of_code(prompt, i) == occurs(
        w,
        encode_utf8(#[trigger] marker(i)),
    ) by {
        assert(marker(i) == told_by()[i]);
    }
    if hits(w, 26) >= 2 {
        let (i, j) = choose|i: int, j: int|
            0 <= i < j < 26 && occurs(w, encode_utf8(#[trigger] marker(i))) && occurs(
                w,
                encode_utf8(#[trigger] marker(j)),
            );
        assert(tells_of_code(prompt, i) && tells_of_code(prompt, j));
    }
    if exists|i: int, j: int|
        0 <= i < j < 26 && #[trigger] tells_of_code(prompt, i) && #[trigger] tells_of_code(
            prompt,
            j,
        ) {
        let (i, j) = choose|i: int, j: int|
            0 <= i < j < 26 && #[trigger] tells_of_code(prompt, i) && #[trigger] tells_of_code(
                prompt,
                j,
            );
        assert(occurs(w, encode_utf8(marker(i))) && occurs(w, encode_utf8(marker(j))));
    }
}

/// Two bytes are the same but for the case of a letter.
pub open spec fn same_letter(a: u8, b: u8) -> bool {
    a == b || (0x41 <= a <= 0x5A && b == a + 0x20) || (0x41 <= b <= 0x5A && a == b + 0x20)
}

/// The case of letters does not matter.
pub proof fn law_case_does_not_matter(p: Seq<char>, q: Seq<char>)
    requires
        encode_utf8(p).len() == encode_utf8(q).len(),
        forall|i: int|
            0 <= i < encode_utf8(p).len() ==> same_letter(
                #[trigger] encode_utf8(p)[i],
                encode_utf8(q)[i],
            ),
    ensures
        domain_of(p) == domain_of(q),
{
    let (a, b) = (encode_utf8(p), encode_utf8(q));
    assert forall|i: int| 0 <= i < a.len() implies lowered(a)[i] == lowered(b)[i] by {
        assert(same_letter(a[i], b[i]));
    }
    assert(lowered(a) =~= lowered(b));
}

/// `part` stands in `w`, byte by byte.
pub proof fn law_occurring_is_byte_by_byte(w: Seq<u8>, part: Seq<u8>)
    ensures
        occurs(w, part) <==> exists|a: Seq<u8>, b: Seq<u8>| w == #[trigger] (a + part + b),
{
    if occurs(w, part) {
        let i = choose|i: int| stands_at(w, part, i);
        let (a, b) = (w.take(i), w.skip(i + part.len()));
        assert(w =~= a + w.subrange(i, i + part.len()) + b);
        assert(w == a + part + b);
    }
    if exists|a: Seq<u8>, b: Seq<u8>| w == #[trigger] (a + part + b) {
        let (a, b) = choose|a: Seq<u8>, b: Seq<u8>| w == #[trigger] (a + part + b);
        let i = a.len() as int;
        assert(w.subrange(i, i + part.len()) =~= part);
        assert(stands_at(w, part, i));
    }
}

/// Every name of a source is its own name or one of its short ones, and each of these is taken.
pub proof fn law_short_names_are_taken(s: Seq<char>)
    ensures
        s == "dflash-v1"@ || s == "dflash1"@ ==> named(s) == Some(SpecSource::DFlash),
        s == "df2"@ ==> named(s) == Some(SpecSource::DFlash2),
        s == "df2rq"@ ==> named(s) == Some(SpecSource::DFlash2Rq),
        s == "df2-auto"@ || s == "df2auto"@ ==> named(s) == Some(SpecSource::DFlash2Auto),
        s == "df2-tree"@ ==> named(s) == Some(SpecSource::DFlash2Tree),
        s == "plain"@ || s == "off"@ ==> named(s) == Some(SpecSource::Plain),
        named(s) matches Some(src) ==> s == name_of(src) || s == "dflash-v1"@ || s == "dflash1"@ || s
            == "df2"@ || s == "df2rq"@ || s == "df2-auto"@ || s == "df2auto"@ || s == "df2-tree"@
            || s == "plain"@ || s == "off"@,
{
    reveal_strlit("mtp");
    reveal_strlit("dspark");
    reveal_strlit("dflash");
    reveal_strlit("dflash-v1");
    reveal_strlit("dflash1");
    reveal_strlit("dflash2");
    reveal_strlit("df2");
    reveal_strlit("dflash2-rq");
    reveal_strlit("df2rq");
    reveal_strlit("dflash2-auto");
    reveal_strlit("df2-auto");
    reveal_strlit("df2auto");
    reveal_strlit("dflash2-tree");
    reveal_strlit("df2-tree");
    reveal_strlit("none");
    reveal_strlit("plain");
    reveal_strlit("off");
    assert("mtp"@.len() == 3);
    assert("dspark"@.len() == 6);
    assert("dflash"@.len() == 6);
    assert("dflash-v1"@.len() == 9);
    assert("dflash1"@.len() == 7);
    assert("dflash2"@.len() == 7);
    assert("df2"@.len() == 3);
    assert("dflash2-rq"@.len() == 10);
    assert("df2rq"@.len() == 5);
    assert("dflash2-auto"@.len() == 12);
    assert("df2-auto"@.len() == 8);
    assert("df2auto"@.len() == 7);
    assert("dflash2-tree"@.len() == 12);
    assert("df2-tree"@.len() == 8);
    assert("none"@.len() == 4);
    assert("plain"@.len() == 5);
    assert("off"@.len() == 3);
    if s == "dflash1"@ {
        assert(s[6] == '1');
        assert("dflash2"@[6] == '2');
    }
    if s == "df2-auto"@ {
        assert(s[3] == '-');
        assert("df2-tree"@[4] == 't');
    }
    if s == "plain"@ {
        assert(s[0] == 'p');
        assert("df2rq"@[0] == 'd');
    }
    if s == "off"@ {
        assert(s[0] == 'o');
        assert("mtp"@[0] == 'm');
        assert("df2"@[0] == 'd');
    }
    if s == "df2"@ {
        assert(s[0] == 'd');
        assert("mtp"@[0] == 'm');
    }
    if s == "df2auto"@ {
        assert(s[1] == 'f');
        assert("dflash1"@[2] == 'l');
        assert("dflash2"@[2] == 'l');
        assert(s[2] == '2');
    }
    if s == "df2-tree"@ {
        assert(s[4] == 't');
        assert("df2-auto"@[4] == 'a');
    }
}

/// Routing by domain: code is drafted by the selector round, and so is prose where both the setting
/// and the request are greedy; other prose is drafted by its sampling form.
pub proof fn law_routing_goes_by_the_domain(prose_greedy: bool, req_greedy: bool)
    ensures
        effective(SpecSource::DFlash2Auto, Domain::Code, prose_greedy, req_greedy)
            == SpecSource::DFlash2,
        effective(SpecSource::DFlash2Auto, Domain::General, true, true) == SpecSource::DFlash2,
        effective(SpecSource::DFlash2Auto, Domain::General, false, req_greedy)
            == SpecSource::DFlash2Rq,
        effective(SpecSource::DFlash2Auto, Domain::General, prose_greedy, false)
            == SpecSource::DFlash2Rq,
{
}

/// The buckets grow, the first is four thousand tokens, and none other is nearer.
pub proof fn law_buckets_are_fixed(ctx: usize)
    ensures
        nearest(ctx) == 4096 || nearest(ctx) == 16384 || nearest(ctx) == 32768 || nearest(ctx)
            == 65536 || nearest(ctx) == 131072,
        distance(nearest(ctx) as int, ctx as int) <= distance(4096, ctx as int),
        distance(nearest(ctx) as int, ctx as int) <= distance(16384, ctx as int),
        distance(nearest(ctx) as int, ctx as int) <= distance(32768, ctx as int),
        distance(nearest(ctx) as int, ctx as int) <= distance(65536, ctx as int),
        distance(nearest(ctx) as int, ctx as int) <= distance(131072, ctx as int),
{
}

/// Row `i` is the first that tells of this domain and context.
pub open spec fn first_row(
    table: Seq<(String, usize, Single)>,
    domain: Seq<char>,
    ctx: usize,
    i: int,
) -> bool {
    &&& 0 <= i < table.len()
    &&& table[i].0@ == domain && table[i].1 == ctx
    &&& forall|k: int|
        0 <= k < i ==> !((#[trigger] table[k]).0@ == domain && table[k].1 == ctx)
}

proof fn lemma_measured(
    table: Seq<(String, usize, Single)>,
    domain: Seq<char>,
    ctx: usize,
    from: int,
)
    requires
        0 <= from,
        forall|k: int|
            0 <= k < from && k < table.len() ==> !((#[trigger] table[k]).0@ == domain && table[k].1
                == ctx),
    ensures
        match measured(table, domain, ctx, from) {
            Some(tau) => exists|i: int| #[trigger]
                first_row(table, domain, ctx, i) && table[i].2 == tau,
            None => forall|i: int| !#[trigger] first_row(table, domain, ctx, i),
        },
    decreases table.len() - from,
{
    if from < table.len() {
        if table[from].0@ == domain && table[from].1 == ctx {
            assert(first_row(table, domain, ctx, from));
        } else {
            lemma_measured(table, domain, ctx, from + 1);
        }
    }
}

/// The ring drafter is chosen exactly where the first row for the domain and the nearest context
/// tells of an acceptance above 3.55; everything else is drafted by the model's own head.
pub proof fn law_the_source_goes_by_the_measured_acceptance(
    domain: Seq<char>,
    ctx: usize,
    table: Seq<(String, usize, Single)>,
)
    ensures
        chosen_source(domain, ctx, table) == SpecSource::Dspark <==> exists|i: int| #[trigger]
            first_row(table, domain, nearest(ctx), i) && (Single { bits: 0x4063_3333 }).lt(
                table[i].2,
            ),
        chosen_source(domain, ctx, table) != SpecSource::Dspark ==> chosen_source(
            domain,
            ctx,
            table,
        ) == SpecSource::Mtp,
{
    lemma_measured(table, domain, nearest(ctx), 0);
    assert forall|i: int, j: int|
        first_row(table, domain, nearest(ctx), i) && first_row(
            table,
            domain,
            nearest(ctx),
            j,
        ) implies i == j by {
        if i < j {
            assert(!(table[i].0@ == domain && table[i].1 == nearest(ctx)));
        } else if j < i {
            assert(!(table[j].0@ == domain && table[j].1 == nearest(ctx)));
        }
    }
}

} // verus!
