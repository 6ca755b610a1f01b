//! The cache of keys and values, and which cache modes go with how many lanes.

use vstd::prelude::*;

use crate::text;

verus! {

/// The sizes that a cache takes from a model.
#[derive(Clone, Copy, PartialEq, Eq, Structural, Debug)]
pub struct ModelConfig {
    pub num_layers: usize,
    pub num_kv_heads: usize,
    pub head_dim: usize,
    pub max_seq_len: usize,
}

/// Keys and values of all layers and positions: one row of half-precision bits per layer and
/// position.
pub struct KVCache {
    pub max_seq_len: usize,
    pub current_len: usize,
    pub num_layers: usize,
    pub num_kv_heads: usize,
    pub head_dim: usize,
    pub keys: Vec<Vec<u16>>,
    pub values: Vec<Vec<u16>>,
}

/// The row of a layer and a position.
pub open spec fn row_of(max_seq_len: int, layer: int, pos: int) -> int {
    layer * max_seq_len + pos
}

fn zero_rows(rows: usize, width: usize) -> (r: Vec<Vec<u16>>)
    ensures
        r@.len() == rows,
        forall|i: int|
            0 <= i < rows ==> (#[trigger] r@[i])@ == Seq::new(width as nat, |k: int| 0u16),
{
    let mut r: Vec<Vec<u16>> = Vec::new();
    while r.len() < rows
        invariant
            r@.len() <= rows,
            forall|i: int|
                0 <= i < r@.len() ==> (#[trigger] r@[i])@ == Seq::new(width as nat, |k: int| 0u16),
        decreases rows - r@.len(),
    {
        let row: Vec<u16> = vec![0u16; width];
        assert(row@ =~= Seq::new(width as nat, |k: int| 0u16));
        r.push(row);
    }
    r
}

proof fn lemma_row(max_seq_len: int, num_layers: int, layer: int, pos: int)
    requires
        0 <= layer < num_layers,
        0 <= pos < max_seq_len,
    ensures
        0 <= row_of(max_seq_len, layer, pos) < num_layers * max_seq_len,
        0 <= layer * max_seq_len,
{
    assert(0 <= layer * max_seq_len && layer * max_seq_len + pos < num_layers * max_seq_len)
        by (nonlinear_arith)
        requires
            0 <= layer < num_layers,
            0 <= pos < max_seq_len,
    ;
}

impl KVCache {
    /// Values in a row.
    pub open spec fn width(&self) -> int {
        self.num_kv_heads * self.head_dim
    }

    pub open spec fn wf(&self) -> bool {
        &&& self.num_kv_heads * self.head_dim <= usize::MAX
        &&& self.num_layers * self.max_seq_len <= usize::MAX
        &&& self.keys@.len() == self.num_layers * self.max_seq_len
        &&& self.values@.len() == self.num_layers * self.max_seq_len
        &&& forall|i: int|
            0 <= i < self.keys@.len() ==> (#[trigger] self.keys@[i])@.len() == self.width()
        &&& forall|i: int|
            0 <= i < self.values@.len() ==> (#[trigger] self.values@[i])@.len() == self.width()
    }

    /// The keys of a layer at a position.
    pub open spec fn key_at(&self, layer: int, pos: int) -> Seq<u16> {
        self.keys@[row_of(self.max_seq_len as int, layer, pos)]@
    }

    /// The values of a layer at a position.
    pub open spec fn value_at(&self, layer: int, pos: int) -> Seq<u16> {
        self.values@[row_of(self.max_seq_len as int, layer, pos)]@
    }

    /// The cache has such a layer and such a position.
    pub open spec fn has(&self, layer: int, pos: int) -> bool {
        0 <= layer < self.num_layers && 0 <= pos < self.max_seq_len
    }

    /// The sizes of `other`.
    pub open spec fn same_sizes(&self, other: &KVCache) -> bool {
        &&& self.max_seq_len == other.max_seq_len
        &&& self.num_layers == other.num_layers
        &&& self.num_kv_heads == other.num_kv_heads
        &&& self.head_dim == other.head_dim
    }

    /// An empty cache.
    pub fn new(config: &ModelConfig) -> (c: KVCache)
        requires
            config.num_kv_heads * config.head_dim <= usize::MAX,
            config.num_layers * config.max_seq_len <= usize::MAX,
        ensures
            c.wf(),
            c.current_len == 0,
            c.max_seq_len == config.max_seq_len,
            c.num_layers == config.num_layers,
            c.num_kv_heads == config.num_kv_heads,
            c.head_dim == config.head_dim,
            forall|layer: int, pos: int|
                c.has(layer, pos) ==> #[trigger] c.key_at(layer, pos) == Seq::new(
                    c.width() as nat,
                    |k: int| 0u16,
                ),
            forall|layer: int, pos: int|
                c.has(layer, pos) ==> #[trigger] c.value_at(layer, pos) == Seq::new(
                    c.width() as nat,
                    |k: int| 0u16,
                ),
    {
        proof {
            assert(0 <= config.num_kv_heads * config.head_dim && 0 <= config.num_layers
                * config.max_seq_len) by (nonlinear_arith);
        }
        let rows: usize = config.num_layers * config.max_seq_len;
        let width: usize = config.num_kv_heads * config.head_dim;
        let c = KVCache {
            max_seq_len: config.max_seq_len,
            current_len: 0,
            num_layers: config.num_layers,
            num_kv_heads: config.num_kv_heads,
            head_dim: config.head_dim,
            keys: zero_rows(rows, width),
            values: zero_rows(rows, width),
        };
        proof {
            assert forall|layer: int, pos: int| c.has(layer, pos) implies #[trigger] c.key_at(
                layer,
                pos,
            ) == Seq::new(c.width() as nat, |k: int| 0u16) by {
                lemma_row(c.max_seq_len as int, c.num_layers as int, layer, pos);
            }
            assert forall|layer: int, pos: int| c.has(layer, pos) implies #[trigger] c.value_at(
                layer,
                pos,
            ) == Seq::new(c.width() as nat, |k: int| 0u16) by {
                lemma_row(c.max_seq_len as int, c.num_layers as int, layer, pos);
            }
        }
        c
    }

    /// Writes the keys and values of a layer at a position.
    pub fn write_kv(&mut self, layer: usize, pos: usize, k: Vec<u16>, v: Vec<u16>)
        requires
            old(self).wf(),
            old(self).has(layer as int, pos as int),
            k@.len() == old(self).width(),
            v@.len() == old(self).width(),
        ensures
            final(self).wf(),
            final(self).same_sizes(old(self)),
            final(self).current_len == old(self).current_len,
            final(self).key_at(layer as int, pos as int) == k@,
            final(self).value_at(layer as int, pos as int) == v@,
            forall|l: int, p: int|
                old(self).has(l, p) && (l != layer || p != pos) ==> #[trigger] final(self).key_at(
                    l,
                    p,
                ) == old(self).key_at(l, p),
            forall|l: int, p: int|
                old(self).has(l, p) && (l != layer || p != pos) ==> #[trigger] final(self).value_at(
                    l,
                    p,
                ) == old(self).value_at(l, p),
    {
        let ghost before = *self;
        proof {
            lemma_row(
                self.max_seq_len as int,
                self.num_layers as int,
                layer as int,
                pos as int,
            );
        }
        let row: usize = layer * self.max_seq_len + pos;
        self.keys.set(row, k);
        self.values.set(row, v);
        proof {
            let m = self.max_seq_len as int;
            assert forall|l: int, p: int|
                before.has(l, p) && (l != layer || p != pos) implies #[trigger] self.key_at(l, p)
                == before.key_at(l, p) by {
                lemma_row(m, self.num_layers as int, l, p);
                lemma_rows_differ(m, l, p, layer as int, pos as int);
            }
            assert forall|l: int, p: int|
                before.has(l, p) && (l != layer || p != pos) implies #[trigger] self.value_at(l, p)
                == before.value_at(l, p) by {
                lemma_row(m, self.num_layers as int, l, p);
                lemma_rows_differ(m, l, p, layer as int, pos as int);
            }
        }
    }

    /// The keys of a layer at a position.
    pub fn read_k(&self, layer: usize, pos: usize) -> (out: Vec<u16>)
        requires
            self.wf(),
            self.has(layer as int, pos as int),
        ensures
            out@ == self.key_at(layer as int, pos as int),
            out@.len() == self.width(),
    {
        proof {
            lemma_row(
                self.max_seq_len as int,
                self.num_layers as int,
                layer as int,
                pos as int,
            );
        }
        let out = self.keys[layer * self.max_seq_len + pos].clone();
        assert(out@ =~= self.key_at(layer as int, pos as int));
        out
    }

    /// The values of a layer at a position.
    pub fn read_v(&self, layer: usize, pos: usize) -> (out: Vec<u16>)
        requires
            self.wf(),
            self.has(layer as int, pos as int),
        ensures
            out@ == self.value_at(layer as int, pos as int),
            out@.len() == self.width(),
    {
        proof {
            lemma_row(
                self.max_seq_len as int,
                self.num_layers as int,
                layer as int,
                pos as int,
            );
        }
        let out = self.values[layer * self.max_seq_len + pos].clone();
        assert(out@ =~= self.value_at(layer as int, pos as int));
        out
    }

    /// One more position.
    pub fn advance(&mut self)
        requires
            old(self).current_len < usize::MAX,
        ensures
            *final(self) == (KVCache {
                current_len: (old(self).current_len + 1) as usize,
                ..*old(self)
            }),
    {
        self.current_len = self.current_len + 1;
    }

    /// Starts a new sequence.
    pub fn reset(&mut self)
        ensures
            *final(self) == (KVCache { current_len: 0, ..*old(self) }),
    {
        self.current_len = 0;
    }
}

proof fn lemma_rows_differ(m: int, l: int, p: int, layer: int, pos: int)
    requires
        0 <= p < m,
        0 <= pos < m,
        l != layer || p != pos,
    ensures
        row_of(m, l, p) != row_of(m, layer, pos),
{
    assert(l * m + p != layer * m + pos) by (nonlinear_arith)
        requires
            0 <= p < m,
            0 <= pos < m,
            l != layer || p != pos,
    ;
}

/// Whether a cache mode goes with a number of lanes.
#[derive(Debug, PartialEq, Eq)]
pub enum KvLaneVerdict {
    Accept,
    /// It does not; the text names the conflict and what to do about it.
    Reject(String),
}

/// Text of a rejection.
pub open spec fn reject_text(max_batch: usize, tp: usize) -> Seq<char> {
    "k8v8 KV does not support multi-lane serving (max-batch "@ + text::decimal(max_batch as nat)
        + " > 1, tp "@ + text::decimal(tp as nat)
        + "): the int8 K/V rows are read only by the single-lane `_e` attention kernel. Use --kv-cache bf16 (or k8v4) or --max-batch 1."@
}

/// The mode that serves one lane only.
pub open spec fn single_lane_mode(kv_cache: Option<&str>, forced: bool) -> bool {
    forced || (kv_cache matches Some(s) && s@ == "k8v8"@)
}

/// Checks a cache mode against the number of lanes. `forced`: the single-lane mode is switched on
/// whatever `kv_cache` says.
pub fn kv_lane_check(
    kv_cache: Option<&str>,
    max_batch: usize,
    tp: usize,
    forced: bool,
) -> (v: KvLaneVerdict)
    ensures
        if single_lane_mode(kv_cache, forced) && max_batch > 1 {
            v matches KvLaneVerdict::Reject(m) && m@ == reject_text(max_batch, tp)
        } else {
            v is Accept
        },
{
    let single = forced || match kv_cache {
        Some(s) => text::same_str(s, "k8v8"),
        None => false,
    };
    if single && max_batch > 1 {
        let mut m = String::from_str("k8v8 KV does not support multi-lane serving (max-batch ");
        m.append(text::to_decimal(max_batch as u64).as_str());
        m.append(" > 1, tp ");
        m.append(text::to_decimal(tp as u64).as_str());
        m.append(
            "): the int8 K/V rows are read only by the single-lane `_e` attention kernel. Use --kv-cache bf16 (or k8v4) or --max-batch 1.",
        );
        return KvLaneVerdict::Reject(m);
    }
    KvLaneVerdict::Accept
}


/// The eight-bit cache serves one lane: asked for by name or forced, it is refused with more. Every
/// other cache serves any number.
pub proof fn law_the_eight_bit_cache_serves_one_lane(s: &str)
    ensures
        single_lane_mode(None, true),
        !single_lane_mode(None, false),
        single_lane_mode(Some(s), true),
        single_lane_mode(Some(s), false) <==> s@ == "k8v8"@,
{
}

/// Rows of different layers or positions are different rows, and each lies in the cache.
pub proof fn law_rows_are_apart(max_seq_len: int, layers: int, l: int, p: int, m: int, q: int)
    requires
        0 <= l < layers,
        0 <= m < layers,
        0 <= p < max_seq_len,
        0 <= q < max_seq_len,
    ensures
        0 <= row_of(max_seq_len, l, p) < layers * max_seq_len,
        row_of(max_seq_len, l, p) == row_of(max_seq_len, m, q) ==> l == m && p == q,
{
    assert(0 <= l * max_seq_len + p < layers * max_seq_len) by (nonlinear_arith)
        requires
            0 <= l < layers,
            0 <= p < max_seq_len,
    ;
    if l < m {
        assert(l * max_seq_len + p < m * max_seq_len + q) by (nonlinear_arith)
            requires
                l < m,
                0 <= p < max_seq_len,
                0 <= q,
        ;
    } else if m < l {
        assert(m * max_seq_len + q < l * max_seq_len + p) by (nonlinear_arith)
            requires
                m < l,
                0 <= q < max_seq_len,
                0 <= p,
        ;
    }
}

} // verus!
