//! Reusing what a slot already holds of a prompt.

use vstd::arithmetic::div_mod::*;
use vstd::prelude::*;

verus! {

/// `n` is the length of the longest common prefix of `a` and `b`.
pub open spec fn common_prefix(a: Seq<u32>, b: Seq<u32>, n: int) -> bool {
    &&& 0 <= n <= a.len()
    &&& n <= b.len()
    &&& a.take(n) == b.take(n)
    &&& (n < a.len() && n < b.len() ==> a[n] != b[n])
}

/// Length of the longest common prefix.
pub open spec fn lcp(a: Seq<u32>, b: Seq<u32>) -> int
    decreases a.len(),
{
    if a.len() == 0 || b.len() == 0 || a[0] != b[0] {
        0
    } else {
        1 + lcp(a.drop_first(), b.drop_first())
    }
}

proof fn lemma_lcp(a: Seq<u32>, b: Seq<u32>, n: int)
    requires
        common_prefix(a, b, n),
    ensures
        lcp(a, b) == n,
    decreases a.len(),
{
    if n > 0 {
        assert(a.take(n)[0] == b.take(n)[0]);
        let a1 = a.drop_first();
        let b1 = b.drop_first();
        assert(a1.take(n - 1) =~= b1.take(n - 1)) by {
            assert forall|i: int| 0 <= i < n - 1 implies a1[i] == b1[i] by {
                assert(a.take(n)[i + 1] == b.take(n)[i + 1]);
            }
        }
        lemma_lcp(a1, b1, n - 1);
    }
}

pub proof fn lemma_lcp_prefix(a: Seq<u32>, b: Seq<u32>)
    ensures
        0 <= lcp(a, b) <= a.len(),
        lcp(a, b) <= b.len(),
        a.take(lcp(a, b)) == b.take(lcp(a, b)),
    decreases a.len(),
{
    if a.len() > 0 && b.len() > 0 && a[0] == b[0] {
        let a1 = a.drop_first();
        let b1 = b.drop_first();
        lemma_lcp_prefix(a1, b1);
        let n = lcp(a, b);
        assert forall|i: int| 0 <= i < n implies a[i] == b[i] by {
            if i > 0 {
                assert(a1.take(n - 1)[i - 1] == b1.take(n - 1)[i - 1]);
            }
        }
    }
    assert(a.take(lcp(a, b)) =~= b.take(lcp(a, b)));
}

/// Length of the longest common prefix of two token sequences.
pub fn common_prefix_len(a: &[u32], b: &[u32]) -> (n: usize)
    ensures
        common_prefix(a@, b@, n as int),
        n == lcp(a@, b@),
{
    let mut n: usize = 0;
    while n < a.len() && n < b.len() && a[n] == b[n]
        invariant
            n <= a.len(),
            n <= b.len(),
            forall|i: int| 0 <= i < n ==> a@[i] == b@[i],
        decreases a.len() - n,
    {
        n += 1;
    }
    assert(a@.take(n as int) =~= b@.take(n as int));
    proof {
        lemma_lcp(a@, b@, n as int);
    }
    n
}

/// The rule for carrying a drafter's ring into a new request: it is switched on for this source,
/// something is reused, the ring is known to hold this slot's rows, and its frontier lies between
/// the reused prefix and the prompt. `len_only` drops the upper bound, for diagnostics.
pub open spec fn carries(
    enabled: bool,
    df2_source: bool,
    reuse: usize,
    plen: usize,
    phys: usize,
    ring_slot: Option<usize>,
    ring_len: usize,
    len_only: bool,
) -> bool {
    &&& enabled
    &&& df2_source
    &&& reuse > 0
    &&& ring_slot == Some(phys)
    &&& reuse <= ring_len
    &&& (len_only || ring_len <= plen)
}

/// Decides whether the ring may be carried. The ring wraps, so rows beyond the frontier have
/// been overwritten: a frontier past the prompt would feed the drafter the wrong rows.
pub fn df2_carry_ok(
    enabled: bool,
    is_df2_src: bool,
    reuse: usize,
    plen: usize,
    phys: usize,
    ring_slot: Option<usize>,
    ring_len: usize,
    len_only: bool,
) -> (ok: bool)
    ensures
        ok == carries(enabled, is_df2_src, reuse, plen, phys, ring_slot, ring_len, len_only),
{
    let same = match ring_slot {
        Some(slot) => slot == phys,
        None => false,
    };
    enabled && is_df2_src && reuse > 0 && same && ring_len >= reuse && (len_only || ring_len
        <= plen)
}

/// Where an image stands in a prompt, and a hash of what it looks like.
#[derive(Clone, Copy, PartialEq, Eq, Structural, Debug)]
pub struct ImageIdentity {
    /// First token of the image.
    pub start: usize,
    /// Hash of the image's embeddings.
    pub hash: u64,
}

/// The tokens of an image in a prompt.
#[derive(Clone, Copy, PartialEq, Eq, Structural, Debug)]
pub struct ImageSpan {
    pub start: usize,
    pub num_tokens: usize,
}

/// Start value of the hash.
pub const FNV_OFFSET: u64 = 0xcbf2_9ce4_8422_2325;

/// Multiplier of the hash.
pub const FNV_PRIME: u64 = 0x100_0000_01b3;

/// The four bytes of a word, low byte first.
pub open spec fn le_bytes(v: u32) -> Seq<u8> {
    seq![
        (v & 0xFF) as u8,
        ((v >> 8) & 0xFF) as u8,
        ((v >> 16) & 0xFF) as u8,
        ((v >> 24) & 0xFF) as u8,
    ]
}

/// Bytes of a list of words.
pub open spec fn words_bytes(words: Seq<u32>) -> Seq<u8>
    decreases words.len(),
{
    if words.len() == 0 {
        Seq::empty()
    } else {
        words_bytes(words.drop_last()) + le_bytes(words.last())
    }
}

/// FNV-1a of a byte string.
pub open spec fn fnv(bytes: Seq<u8>) -> u64
    decreases bytes.len(),
{
    if bytes.len() == 0 {
        FNV_OFFSET
    } else {
        (fnv(bytes.drop_last()) ^ (bytes.last() as u64)).wrapping_mul(FNV_PRIME)
    }
}

fn fnv_byte(h: u64, b: u8, Ghost(done): Ghost<Seq<u8>>) -> (r: u64)
    requires
        h == fnv(done),
    ensures
        r == fnv(done.push(b)),
{
    assert(done.push(b).drop_last() =~= done);
    (h ^ (b as u64)).wrapping_mul(FNV_PRIME)
}

fn fnv_word(h: u64, v: u32, Ghost(done): Ghost<Seq<u8>>) -> (r: u64)
    requires
        h == fnv(done),
    ensures
        r == fnv(done + le_bytes(v)),
{
    let b0: u8 = (v & 0xFF) as u8;
    let b1: u8 = ((v >> 8) & 0xFF) as u8;
    let b2: u8 = ((v >> 16) & 0xFF) as u8;
    let b3: u8 = ((v >> 24) & 0xFF) as u8;
    let h0: u64 = fnv_byte(h, b0, Ghost(done));
    let h1: u64 = fnv_byte(h0, b1, Ghost(done.push(b0)));
    let h2: u64 = fnv_byte(h1, b2, Ghost(done.push(b0).push(b1)));
    let h3: u64 = fnv_byte(h2, b3, Ghost(done.push(b0).push(b1).push(b2)));
    assert(done.push(b0).push(b1).push(b2).push(b3) =~= done + le_bytes(v));
    h3
}

/// FNV-1a of the bytes of `words[from..to]`.
fn fnv_words(words: &Vec<u32>, from: usize, to: usize) -> (h: u64)
    requires
        from <= to <= words@.len(),
    ensures
        h == fnv(words_bytes(words@.subrange(from as int, to as int))),
{
    let mut h: u64 = FNV_OFFSET;
    let mut i: usize = from;
    assert(words@.subrange(from as int, from as int) =~= Seq::empty());
    while i < to
        invariant
            from <= i <= to <= words@.len(),
            h == fnv(words_bytes(words@.subrange(from as int, i as int))),
        decreases to - i,
    {
        let ghost part = words@.subrange(from as int, i as int);
        let ghost next = words@.subrange(from as int, i + 1);
        assert(next.drop_last() =~= part);
        assert(next.last() == words@[i as int]);
        h = fnv_word(h, words[i], Ghost(words_bytes(part)));
        i += 1;
    }
    h
}

/// Tokens of the first `k` images.
pub open spec fn tokens_before(spans: Seq<ImageSpan>, k: int) -> int
    decreases k,
{
    if k <= 0 {
        0
    } else {
        tokens_before(spans, k - 1) + spans[k - 1].num_tokens
    }
}

/// Embedding values per token.
pub open spec fn row_width(len: int, total: int) -> int {
    if total > 0 {
        len / total
    } else {
        0
    }
}

/// Identity of image `k`: its start, and the hash of its rows of the embeddings.
pub open spec fn identity(embeds: Seq<u32>, spans: Seq<ImageSpan>, k: int) -> ImageIdentity {
    let width = row_width(embeds.len() as int, tokens_before(spans, spans.len() as int));
    ImageIdentity {
        start: spans[k].start,
        hash: fnv(
            words_bytes(
                embeds.subrange(
                    tokens_before(spans, k) * width,
                    tokens_before(spans, k + 1) * width,
                ),
            ),
        ),
    }
}

proof fn lemma_tokens_mono(spans: Seq<ImageSpan>, i: int, j: int)
    requires
        0 <= i <= j <= spans.len(),
    ensures
        0 <= tokens_before(spans, i) <= tokens_before(spans, j),
    decreases j,
{
    if i < j {
        lemma_tokens_mono(spans, i, j - 1);
    } else if i > 0 {
        lemma_tokens_mono(spans, i - 1, j - 1);
    }
}

/// Identities of the images of a request. `embeds` holds the bits of the embedding values, the
/// rows of the images one after the other; their width follows from its length. Without
/// embeddings there are no identities.
pub fn request_image_identities(embeds: Option<&Vec<u32>>, spans: &[ImageSpan]) -> (r: Vec<
    ImageIdentity,
>)
    requires
        tokens_before(spans@, spans@.len() as int) <= usize::MAX,
    ensures
        embeds is None ==> r@.len() == 0,
        embeds matches Some(e) ==> r@ == Seq::new(
            spans@.len(),
            |k: int| identity(e@, spans@, k),
        ),
{
    let mut out: Vec<ImageIdentity> = Vec::new();
    let emb = match embeds {
        Some(e) => e,
        None => return out,
    };
    let mut total: usize = 0;
    let mut i: usize = 0;
    while i < spans.len()
        invariant
            i <= spans.len(),
            tokens_before(spans@, spans@.len() as int) <= usize::MAX,
            total == tokens_before(spans@, i as int),
        decreases spans.len() - i,
    {
        proof {
            lemma_tokens_mono(spans@, i + 1, spans@.len() as int);
        }
        total += spans[i].num_tokens;
        i += 1;
    }
    let width: usize = if total > 0 {
        emb.len() / total
    } else {
        0
    };
    assert(width == row_width(emb@.len() as int, total as int));
    let mut off: usize = 0;
    let mut k: usize = 0;
    while k < spans.len()
        invariant
            k <= spans.len(),
            total == tokens_before(spans@, spans@.len() as int),
            total <= usize::MAX,
            width == row_width(emb@.len() as int, total as int),
            off == tokens_before(spans@, k as int),
            out@ =~= Seq::new(k as nat, |j: int| identity(emb@, spans@, j)),
        decreases spans.len() - k,
    {
        proof {
            lemma_tokens_mono(spans@, k as int, k + 1);
            lemma_tokens_mono(spans@, k + 1, spans@.len() as int);
            lemma_rows(off as int, off + spans@[k as int].num_tokens, total as int, emb@.len() as int);
            assert(emb@.len() == emb.len());
            assert(off * width <= emb.len());
            assert((off + spans@[k as int].num_tokens) * width <= emb.len());
        }
        let n: usize = spans[k].num_tokens;
        let row0: usize = off * width;
        let row1: usize = (off + n) * width;
        let hash: u64 = fnv_words(emb, row0, row1);
        out.push(ImageIdentity { start: spans[k].start, hash });
        off += n;
        k += 1;
    }
    out
}

/// The rows of an image lie inside the embeddings.
proof fn lemma_rows(a: int, b: int, total: int, len: int)
    requires
        0 <= a <= b <= total,
        0 <= len,
    ensures
        0 <= a * row_width(len, total) <= b * row_width(len, total) <= len,
{
    if total > 0 {
        let w = len / total;
        assert(0 <= w && w * total <= len) by (nonlinear_arith)
            requires
                w == len / total,
                total > 0,
                len >= 0,
        ;
        assert(0 <= a * w <= b * w <= total * w) by (nonlinear_arith)
            requires
                0 <= a <= b <= total,
                0 <= w,
        ;
        assert(total * w == w * total) by (nonlinear_arith);
    }
}

/// The slot's image at token `start`; the first one where there are several.
pub open spec fn image_at(imgs: Seq<ImageIdentity>, start: usize, i: int) -> Option<ImageIdentity>
    decreases imgs.len() - i,
{
    if i < 0 || i >= imgs.len() {
        None
    } else if imgs[i].start == start {
        Some(imgs[i])
    } else {
        image_at(imgs, start, i + 1)
    }
}

/// Reusing the first `l` tokens is safe: every image of the request that starts there is the
/// image that the slot holds at that place.
pub open spec fn compatible(
    slot_imgs: Seq<ImageIdentity>,
    req_imgs: Seq<ImageIdentity>,
    l: usize,
) -> bool {
    forall|k: int|
        0 <= k < req_imgs.len() && (#[trigger] req_imgs[k]).start < l ==> (image_at(
            slot_imgs,
            req_imgs[k].start,
            0,
        ) matches Some(s) && s.hash == req_imgs[k].hash)
}

fn find_image(imgs: &[ImageIdentity], start: usize) -> (r: Option<ImageIdentity>)
    ensures
        r == image_at(imgs@, start, 0),
{
    let mut i: usize = 0;
    while i < imgs.len()
        invariant
            i <= imgs.len(),
            image_at(imgs@, start, 0) == image_at(imgs@, start, i as int),
        decreases imgs.len() - i,
    {
        if imgs[i].start == start {
            return Some(imgs[i]);
        }
        i += 1;
    }
    None
}

/// True when reusing the first `l` tokens of a slot is safe for the images of a request. Two
/// images of one size take the same tokens, so equal tokens alone do not make them equal.
pub fn images_compatible(
    slot_imgs: &[ImageIdentity],
    req_imgs: &[ImageIdentity],
    l: usize,
) -> (ok: bool)
    ensures
        ok == compatible(slot_imgs@, req_imgs@, l),
{
    let mut k: usize = 0;
    while k < req_imgs.len()
        invariant
            k <= req_imgs.len(),
            forall|j: int|
                0 <= j < k && (#[trigger] req_imgs@[j]).start < l ==> (image_at(
                    slot_imgs@,
                    req_imgs@[j].start,
                    0,
                ) matches Some(s) && s.hash == req_imgs@[j].hash),
        decreases req_imgs.len() - k,
    {
        let want = req_imgs[k];
        if want.start < l {
            match find_image(slot_imgs, want.start) {
                Some(s) => {
                    if s.hash != want.hash {
                        return false;
                    }
                },
                None => return false,
            }
        }
        k += 1;
    }
    true
}

/// A request without images may reuse any prefix, and images behind the reused prefix do not
/// matter.
pub proof fn law_images_behind_the_prefix_do_not_matter(
    slot_imgs: Seq<ImageIdentity>,
    req_imgs: Seq<ImageIdentity>,
    l: usize,
)
    requires
        forall|k: int| 0 <= k < req_imgs.len() ==> (#[trigger] req_imgs[k]).start >= l,
    ensures
        compatible(slot_imgs, req_imgs, l),
{
}

/// A carried ring holds every row that the drafter reads before the reused prefix ends, and none
/// of them has been overwritten by rows behind the prompt.
pub proof fn law_carry_is_inside_the_frontier(
    enabled: bool,
    df2_source: bool,
    reuse: usize,
    plen: usize,
    phys: usize,
    ring_slot: Option<usize>,
    ring_len: usize,
)
    ensures
        carries(enabled, df2_source, reuse, plen, phys, ring_slot, ring_len, false) ==> ring_slot
            == Some(phys) && 0 < reuse <= ring_len <= plen,
{
}

/// Where reuse is allowed, every image of the request inside the reused tokens stands in the slot,
/// at the same place and with the same hash. Where the slot holds one image per place, the converse
/// holds too.
pub proof fn law_reused_images_are_the_same(
    slot_imgs: Seq<ImageIdentity>,
    req_imgs: Seq<ImageIdentity>,
    l: usize,
)
    ensures
        compatible(slot_imgs, req_imgs, l) ==> forall|k: int|
            0 <= k < req_imgs.len() && (#[trigger] req_imgs[k]).start < l ==> slot_imgs.contains(
                req_imgs[k],
            ),
        (forall|i: int, j: int|
            0 <= i < j < slot_imgs.len() ==> (#[trigger] slot_imgs[i]).start != (
            #[trigger] slot_imgs[j]).start) && (forall|k: int|
            0 <= k < req_imgs.len() && (#[trigger] req_imgs[k]).start < l ==> slot_imgs.contains(
                req_imgs[k],
            )) ==> compatible(slot_imgs, req_imgs, l),
{
    assert forall|k: int|
        compatible(slot_imgs, req_imgs, l) && 0 <= k < req_imgs.len() && (
        #[trigger] req_imgs[k]).start < l implies slot_imgs.contains(req_imgs[k]) by {
        lemma_image_at(slot_imgs, req_imgs[k].start, 0);
    }
    if (forall|i: int, j: int|
        0 <= i < j < slot_imgs.len() ==> (#[trigger] slot_imgs[i]).start != (
        #[trigger] slot_imgs[j]).start) && (forall|k: int|
        0 <= k < req_imgs.len() && (#[trigger] req_imgs[k]).start < l ==> slot_imgs.contains(
            req_imgs[k],
        )) {
        assert forall|k: int|
            0 <= k < req_imgs.len() && (#[trigger] req_imgs[k]).start < l implies (image_at(
            slot_imgs,
            req_imgs[k].start,
            0,
        ) matches Some(s) && s.hash == req_imgs[k].hash) by {
            assert(slot_imgs.contains(req_imgs[k]));
            let j = choose|j: int| 0 <= j < slot_imgs.len() && slot_imgs[j] == req_imgs[k];
            lemma_image_at(slot_imgs, req_imgs[k].start, 0);
            match image_at(slot_imgs, req_imgs[k].start, 0) {
                Some(s) => {
                    let i = choose|i: int| 0 <= i < slot_imgs.len() && slot_imgs[i] == s;
                    if i < j {
                        assert(slot_imgs[i].start != slot_imgs[j].start);
                    } else if j < i {
                        assert(slot_imgs[j].start != slot_imgs[i].start);
                    }
                },
                None => {},
            }
        }
    }
}

proof fn lemma_image_at(imgs: Seq<ImageIdentity>, start: usize, i: int)
    requires
        0 <= i,
    ensures
        image_at(imgs, start, i) matches Some(s) ==> s.start == start && imgs.contains(s),
        image_at(imgs, start, i) is None ==> forall|k: int|
            i <= k < imgs.len() ==> (#[trigger] imgs[k]).start != start,
    decreases imgs.len() - i,
{
    if i < imgs.len() {
        if imgs[i].start == start {
            assert(imgs.contains(imgs[i]));
        } else {
            lemma_image_at(imgs, start, i + 1);
        }
    }
}

/// Exchanging one image inside the reused tokens for another one forbids the reuse.
pub proof fn law_an_exchanged_image_forbids_reuse(
    slot_imgs: Seq<ImageIdentity>,
    req_imgs: Seq<ImageIdentity>,
    l: usize,
    k: int,
    hash: u64,
)
    requires
        compatible(slot_imgs, req_imgs, l),
        0 <= k < req_imgs.len(),
        req_imgs[k].start < l,
        hash != req_imgs[k].hash,
    ensures
        !compatible(
            slot_imgs,
            req_imgs.update(k, ImageIdentity { start: req_imgs[k].start, hash }),
            l,
        ),
{
    let other = req_imgs.update(k, ImageIdentity { start: req_imgs[k].start, hash });
    if compatible(slot_imgs, other, l) {
        assert(req_imgs[k].start < l);
        assert(other[k].start < l);
    }
}

/// The verdict does not depend on the order of the request's images, nor on one that is listed
/// twice.
pub proof fn law_the_order_of_images_does_not_matter(
    slot_imgs: Seq<ImageIdentity>,
    a: Seq<ImageIdentity>,
    b: Seq<ImageIdentity>,
    l: usize,
)
    requires
        forall|x: ImageIdentity| #[trigger] a.contains(x) <==> b.contains(x),
    ensures
        compatible(slot_imgs, a, l) == compatible(slot_imgs, b, l),
{
    if compatible(slot_imgs, a, l) {
        assert forall|k: int| 0 <= k < b.len() && (#[trigger] b[k]).start < l implies (image_at(
            slot_imgs,
            b[k].start,
            0,
        ) matches Some(s) && s.hash == b[k].hash) by {
            assert(b.contains(b[k]));
            assert(a.contains(b[k]));
            let j = choose|j: int| 0 <= j < a.len() && a[j] == b[k];
            assert(a[j].start < l);
        }
    }
    if compatible(slot_imgs, b, l) {
        assert forall|k: int| 0 <= k < a.len() && (#[trigger] a[k]).start < l implies (image_at(
            slot_imgs,
            a[k].start,
            0,
        ) matches Some(s) && s.hash == a[k].hash) by {
            assert(a.contains(a[k]));
            let j = choose|j: int| 0 <= j < b.len() && b[j] == a[k];
            assert(b[j].start < l);
        }
    }
}

/// Less reuse is never less safe.
pub proof fn law_shorter_reuse_is_safe_too(
    slot_imgs: Seq<ImageIdentity>,
    req_imgs: Seq<ImageIdentity>,
    l: usize,
    m: usize,
)
    requires
        compatible(slot_imgs, req_imgs, l),
        m <= l,
    ensures
        compatible(slot_imgs, req_imgs, m),
{
}

/// The longest common prefix is one, and cannot be made longer.
pub proof fn law_the_common_prefix_is_the_longest(a: Seq<u32>, b: Seq<u32>, m: int)
    ensures
        0 <= lcp(a, b) <= a.len(),
        lcp(a, b) <= b.len(),
        forall|i: int| 0 <= i < lcp(a, b) ==> a[i] == b[i],
        0 <= m <= a.len() && m <= b.len() && a.take(m) == b.take(m) ==> m <= lcp(a, b),
        lcp(a, b) == lcp(b, a),
    decreases a.len(),
{
    lemma_lcp_prefix(a, b);
    let n = lcp(a, b);
    assert forall|i: int| 0 <= i < n implies a[i] == b[i] by {
        assert(a.take(n)[i] == b.take(n)[i]);
    }
    if a.len() > 0 && b.len() > 0 && a[0] == b[0] {
        let a1 = a.drop_first();
        let b1 = b.drop_first();
        law_the_common_prefix_is_the_longest(a1, b1, m - 1);
        if 0 < m <= a.len() && m <= b.len() && a.take(m) == b.take(m) {
            assert(a1.take(m - 1) =~= a.take(m).drop_first());
            assert(b1.take(m - 1) =~= b.take(m).drop_first());
        }
    } else if 0 < m <= a.len() && m <= b.len() && a.take(m) == b.take(m) {
        assert(a.take(m)[0] == b.take(m)[0]);
    }
}

/// Inverse of the multiplier of the hash.
pub const FNV_INVERSE: u64 = 0xce96_5057_aff6_957b;

proof fn lemma_unmultiplied(a: u64)
    ensures
        a.wrapping_mul(FNV_PRIME).wrapping_mul(FNV_INVERSE) == a,
{
    let m = 0x1_0000_0000_0000_0000int;
    let (x, p, q) = (a as int, FNV_PRIME as int, FNV_INVERSE as int);
    assert((0x100_0000_01b3int * 0xce96_5057_aff6_957bint) % 0x1_0000_0000_0000_0000int == 1);
    lemma_mul_mod_noop_left(x * p, q, m);
    assert((x * p) * q == x * (p * q)) by (nonlinear_arith);
    lemma_mul_mod_noop_right(x, p * q, m);
    lemma_small_mod(a as nat, m as nat);
}

/// Byte strings that differ in one byte have different hashes.
pub proof fn law_one_byte_changes_the_hash(a: Seq<u8>, b: Seq<u8>, k: int)
    requires
        a.len() == b.len(),
        0 <= k < a.len(),
        a[k] != b[k],
        forall|j: int| 0 <= j < a.len() && j != k ==> a[j] == b[j],
    ensures
        fnv(a) != fnv(b),
    decreases a.len(),
{
    let (a1, b1) = (a.drop_last(), b.drop_last());
    let (g, h) = (fnv(a1), fnv(b1));
    let (x, y) = (a.last() as u64, b.last() as u64);
    lemma_unmultiplied(g ^ x);
    lemma_unmultiplied(h ^ y);
    if k == a.len() - 1 {
        assert(a1 =~= b1);
        assert(g == h && x != y ==> g ^ x != h ^ y) by (bit_vector);
    } else {
        law_one_byte_changes_the_hash(a1, b1, k);
        assert(g != h && x == y ==> g ^ x != h ^ y) by (bit_vector);
    }
}

proof fn lemma_words_bytes(words: Seq<u32>, i: int, j: int)
    requires
        0 <= i < words.len(),
        0 <= j < 4,
    ensures
        words_bytes(words).len() == 4 * words.len(),
        words_bytes(words)[4 * i + j] == le_bytes(words[i])[j],
    decreases words.len(),
{
    if words.len() > 1 {
        if i < words.len() - 1 {
            lemma_words_bytes(words.drop_last(), i, j);
        } else {
            lemma_words_bytes(words.drop_last(), 0, 0);
        }
    } else {
        assert(words_bytes(words.drop_last()).len() == 0);
    }
}

/// Exchanging one byte of one word changes the hash.
proof fn lemma_word_exchanged(words: Seq<u32>, i: int, v: u32, j: int)
    requires
        0 <= i < words.len(),
        0 <= j < 4,
        le_bytes(v)[j] != le_bytes(words[i])[j],
        forall|x: int| 0 <= x < 4 && x != j ==> le_bytes(v)[x] == le_bytes(words[i])[x],
    ensures
        fnv(words_bytes(words)) != fnv(words_bytes(words.update(i, v))),
{
    let other = words.update(i, v);
    let (a, b) = (words_bytes(words), words_bytes(other));
    lemma_words_bytes(words, i, j);
    lemma_words_bytes(other, i, j);
    assert forall|x: int| 0 <= x < a.len() && x != 4 * i + j implies a[x] == b[x] by {
        let (p, q) = (x / 4, x % 4);
        assert(x == 4 * p + q);
        lemma_words_bytes(words, p, q);
        lemma_words_bytes(other, p, q);
    }
    law_one_byte_changes_the_hash(a, b, 4 * i + j);
}

/// The rows of the images lie one behind the other: each image has as many as it has tokens.
pub proof fn law_rows_of_images_tile(spans: Seq<ImageSpan>, k: int)
    requires
        0 <= k < spans.len(),
    ensures
        tokens_before(spans, 0) == 0,
        tokens_before(spans, k + 1) - tokens_before(spans, k) == spans[k].num_tokens,
{
}

/// An identity names the place of its image, and changing one byte of one value of the image's own
/// rows changes its hash, while changing a value of another image's rows does not.
pub proof fn law_an_identity_is_about_its_own_rows(
    embeds: Seq<u32>,
    spans: Seq<ImageSpan>,
    k: int,
    at: int,
    v: u32,
    j: int,
)
    requires
        0 <= k < spans.len(),
        0 <= at < embeds.len(),
        0 <= j < 4,
        le_bytes(v)[j] != le_bytes(embeds[at])[j],
        forall|x: int| 0 <= x < 4 && x != j ==> le_bytes(v)[x] == le_bytes(embeds[at])[x],
    ensures
        identity(embeds, spans, k).start == spans[k].start,
        ({
            let total = tokens_before(spans, spans.len() as int);
            let first = tokens_before(spans, k) * (embeds.len() as int / total);
            let own = total > 0 && first <= at < first + spans[k].num_tokens * (embeds.len() as int
                / total);
            own <==> identity(embeds, spans, k).hash != identity(
                embeds.update(at, v),
                spans,
                k,
            ).hash
        }),
{
    let other = embeds.update(at, v);
    let total = tokens_before(spans, spans.len() as int);
    let w = row_width(embeds.len() as int, total);
    lemma_tokens_mono(spans, 0, k);
    lemma_tokens_mono(spans, k, k + 1);
    lemma_tokens_mono(spans, k + 1, spans.len() as int);
    lemma_rows(tokens_before(spans, k), tokens_before(spans, k + 1), total, embeds.len() as int);
    let a = tokens_before(spans, k) * w;
    let b = tokens_before(spans, k + 1) * w;
    assert(b == a + spans[k].num_tokens * w) by (nonlinear_arith)
        requires
            a == tokens_before(spans, k) * w,
            b == tokens_before(spans, k + 1) * w,
            tokens_before(spans, k + 1) == tokens_before(spans, k) + spans[k].num_tokens,
    ;
    let own = embeds.subrange(a, b);
    if a <= at < b {
        assert(other.subrange(a, b) =~= own.update(at - a, v));
        lemma_word_exchanged(own, at - a, v, j);
    } else {
        assert(other.subrange(a, b) =~= own);
    }
    if total <= 0 {
        assert(a == 0 && b == 0) by (nonlinear_arith)
            requires
                w == 0,
                a == tokens_before(spans, k) * w,
                b == tokens_before(spans, k + 1) * w,
        ;
    }
}

/// The bytes of a word give it back.
pub proof fn law_bytes_of_a_word(v: u32)
    ensures
        le_bytes(v).len() == 4,
        v as int == le_bytes(v)[0] + 0x100 * le_bytes(v)[1] + 0x1_0000 * le_bytes(v)[2]
            + 0x100_0000 * le_bytes(v)[3],
{
    assert(v == (v & 0xFF) + 0x100 * ((v >> 8) & 0xFF) + 0x1_0000 * ((v >> 16) & 0xFF) + 0x100_0000
        * ((v >> 24) & 0xFF)) by (bit_vector);
    assert((v & 0xFF) <= 0xFF && ((v >> 8) & 0xFF) <= 0xFF && ((v >> 16) & 0xFF) <= 0xFF && ((v
        >> 24) & 0xFF) <= 0xFF) by (bit_vector);
}

/// A ring is carried exactly where this is switched on for the source, something is reused, the
/// ring holds rows of this very slot, and its frontier lies neither before the reused tokens nor,
/// unless only lengths count, behind the prompt.
pub proof fn law_a_ring_is_carried_exactly_where_it_fits(
    reuse: usize,
    plen: usize,
    phys: usize,
    owner: usize,
    ring_len: usize,
)
    ensures
        carries(true, true, reuse, plen, phys, Some(owner), ring_len, false) <==> owner == phys && 0
            < reuse && reuse <= ring_len && ring_len <= plen,
        carries(true, true, reuse, plen, phys, Some(owner), ring_len, true) <==> owner == phys && 0
            < reuse && reuse <= ring_len,
        !carries(true, true, reuse, plen, phys, None, ring_len, true),
        !carries(false, true, reuse, plen, phys, Some(owner), ring_len, true),
        !carries(true, false, reuse, plen, phys, Some(owner), ring_len, true),
{
}

} // verus!
