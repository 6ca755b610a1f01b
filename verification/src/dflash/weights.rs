//! The tensors of a draft artifact.

use vstd::prelude::*;
use vstd::utf8::*;

use crate::dflash::config::DflashCfg;
use crate::json_schema::value;
use crate::json_schema::value::Json;
use crate::single::Single;
use crate::text;

verus! {

/// A tensor as it is found: whether its values are brain floats, and its bytes.
pub type Found = Option<Option<(bool, Vec<u8>)>>;

/// What a tensor file holds under a name: `None` where it is no tensor file, `Some(None)` where it
/// has no such tensor, else whether the values are brain floats, and their bytes.
pub uninterp spec fn tensor_in(raw: Seq<u8>, name: Seq<char>) -> Option<Option<(bool, Seq<u8>)>>;

/// The contents of a result.
pub open spec fn contents(r: Found) -> Option<Option<(bool, Seq<u8>)>> {
    match r {
        None => None,
        Some(None) => Some(None),
        Some(Some(t)) => Some(Some((t.0, t.1@))),
    }
}

/// The number that eight little-endian bytes stand for.
pub open spec fn header_len(raw: Seq<u8>) -> int {
    raw[0] + 0x100 * raw[1] + 0x1_0000 * raw[2] + 0x100_0000 * raw[3] + 0x1_0000_0000 * raw[4]
        + 0x100_0000_0000 * raw[5] + 0x1_0000_0000_0000 * raw[6] + 0x100_0000_0000_0000 * raw[7]
}

/// The header of a tensor file, behind the eight bytes with its length.
pub open spec fn header_of(raw: Seq<u8>) -> Option<Seq<u8>> {
    if raw.len() >= 8 && header_len(raw) <= raw.len() - 8 {
        Some(raw.subrange(8, 8 + header_len(raw)))
    } else {
        None
    }
}

/// The second of a pair of numbers.
pub open spec fn second_of(v: Json) -> Option<u64> {
    match v {
        Json::Array(a) => if a@.len() == 2 {
            match a@[1] {
                Json::Number(n) => n.unsigned,
                _ => None,
            }
        } else {
            None
        },
        _ => None,
    }
}

/// Where the data of a tensor end, by its entry in the header: an object with its offsets, or a
/// list whose third item they are.
pub open spec fn declared_end(info: Json) -> Option<u64> {
    match info {
        Json::Object(o) => match value::member(o@, "data_offsets"@) {
            Some(v) => second_of(v),
            None => None,
        },
        Json::Array(a) => if a@.len() == 3 {
            second_of(a@[2])
        } else {
            None
        },
        _ => None,
    }
}

/// No tensor of a header ends behind `len`.
pub open spec fn ends_within(header: Json, len: int) -> bool {
    header matches Json::Object(o) ==> forall|k: int|
        0 <= k < o@.len() ==> (declared_end((#[trigger] o@[k]).1) matches Some(e) ==> e <= len)
}

/// The header of a tensor file declares no tensor that ends behind the file.
pub open spec fn ends_fit(raw: Seq<u8>) -> bool {
    header_of(raw) matches Some(h) ==> (valid_utf8(h) ==> (value::parsed(
        decode_utf8(h),
    ) matches Some(v) ==> ends_within(v, raw.len() as int)))
}

/// What an artifact holds under a name. A file with a tensor that ends behind it is no tensor file.
pub open spec fn tensor_of(raw: Seq<u8>, name: Seq<char>) -> Option<Option<(bool, Seq<u8>)>> {
    if ends_fit(raw) {
        tensor_in(raw, name)
    } else {
        None
    }
}

/// Looks a tensor up, with `safetensors::SafeTensors::deserialize` and `SafeTensors::tensor`.
///
/// Trusted: what is found depends on the bytes of the file and on the name alone, and the values of
/// a tensor of brain floats take two bytes each. That the file is laid out as it should be is
/// checked there and not said here. The end of the data is added to the length of the header
/// without a check, so a file that declares an end behind itself is kept from the call.
#[verifier::external_body]
fn find_tensor(raw: &[u8], name: &str) -> (r: Found)
    requires
        ends_fit(raw@),
    ensures
        contents(r) == tensor_in(raw@, name@),
        r is Some && r->0 is Some && (r->0->0).0 ==> (r->0->0).1@.len() % 2 == 0,
{
    let file = safetensors::SafeTensors::deserialize(raw).ok()?;
    Some(
        file.tensor(name).ok().map(
            |t| (t.dtype() == safetensors::Dtype::BF16, t.data().to_vec()),
        ),
    )
}

fn read_second(v: &Json) -> (r: Option<u64>)
    ensures
        r == second_of(*v),
{
    match v {
        Json::Array(a) => if a.len() == 2 {
            match &a[1] {
                Json::Number(n) => n.unsigned,
                _ => None,
            }
        } else {
            None
        },
        _ => None,
    }
}

fn read_end(info: &Json) -> (r: Option<u64>)
    ensures
        r == declared_end(*info),
{
    match info {
        Json::Object(o) => match value::get(o, "data_offsets") {
            Some(v) => read_second(v),
            None => None,
        },
        Json::Array(a) => if a.len() == 3 {
            read_second(&a[2])
        } else {
            None
        },
        _ => None,
    }
}

fn all_within(header: &Json, len: usize) -> (r: bool)
    ensures
        r == ends_within(*header, len as int),
{
    match header {
        Json::Object(o) => {
            let mut k: usize = 0;
            while k < o.len()
                invariant
                    k <= o@.len(),
                    *header == Json::Object(*o),
                    forall|j: int|
                        0 <= j < k ==> (declared_end((#[trigger] o@[j]).1) matches Some(e) ==> e
                            <= len),
                decreases o@.len() - k,
            {
                match read_end(&o[k].1) {
                    Some(e) => {
                        if e > len as u64 {
                            assert(declared_end(o@[k as int].1) == Some(e));
                            return false;
                        }
                    },
                    None => {},
                }
                k += 1;
            }
            true
        },
        _ => true,
    }
}

/// True when the header of a tensor file declares no tensor that ends behind the file.
pub fn declares_within(raw: &[u8]) -> (r: bool)
    ensures
        r == ends_fit(raw@),
{
    if raw.len() < 8 {
        return true;
    }
    let n: u64 = raw[0] as u64 + 0x100 * raw[1] as u64 + 0x1_0000 * raw[2] as u64 + 0x100_0000
        * raw[3] as u64 + 0x1_0000_0000 * raw[4] as u64 + 0x100_0000_0000 * raw[5] as u64
        + 0x1_0000_0000_0000 * raw[6] as u64 + 0x100_0000_0000_0000 * raw[7] as u64;
    if n > (raw.len() - 8) as u64 {
        return true;
    }
    let stop: usize = 8 + n as usize;
    let header = vstd::slice::slice_subrange(raw, 8, stop);
    match text::from_bytes(header) {
        Some(t) => match value::read_json(t.as_str()) {
            Some(v) => all_within(&v, raw.len()),
            None => true,
        },
        None => true,
    }
}

fn find(raw: &[u8], name: &str, fit: bool) -> (r: Found)
    requires
        fit == ends_fit(raw@),
    ensures
        contents(r) == tensor_of(raw@, name@),
{
    if fit {
        find_tensor(raw, name)
    } else {
        None
    }
}

/// The single that a brain float stands for; one that is not a number is made quiet.
pub open spec fn widened(w: u16) -> Single {
    if w & 0x7FFF > 0x7F80 {
        Single { bits: ((w as u32) | 0x40) << 16 }
    } else {
        Single { bits: (w as u32) << 16 }
    }
}

/// Widens a brain float, with `half::bf16::to_f32`.
///
/// Trusted: the upper half of the single's bits are the brain float's, and a value that is not a
/// number has its quiet bit set.
#[verifier::external_body]
fn widen(w: u16) -> (r: Single)
    ensures
        r == widened(w),
{
    Single { bits: half::bf16::from_bits(w).to_f32().to_bits() }
}

/// A tensor that an artifact must hold, and its number of values where that is fixed.
pub struct Need {
    pub name: String,
    pub len: Option<usize>,
}

/// Why an artifact is refused.
#[derive(Debug)]
pub enum LoadError {
    /// It is no tensor file.
    NotTensors,
    Missing(String),
    /// The values are no brain floats.
    Format(String),
    /// The number of values is another.
    Shape(String),
}

/// The name of a tensor of layer `i`.
pub open spec fn layer_name(i: int, part: Seq<char>) -> Seq<char> {
    "layers."@ + text::decimal(i as nat) + part
}

/// Parts of a layer's tensors, in the order in which they are loaded.
pub open spec fn layer_part(k: int) -> Seq<char> {
    if k == 0 {
        ".input_layernorm.weight"@
    } else if k == 1 {
        ".post_attention_layernorm.weight"@
    } else if k == 2 {
        ".self_attn.q_norm.weight"@
    } else if k == 3 {
        ".self_attn.k_norm.weight"@
    } else if k == 4 {
        ".self_attn.q_proj.weight"@
    } else if k == 5 {
        ".self_attn.k_proj.weight"@
    } else if k == 6 {
        ".self_attn.v_proj.weight"@
    } else if k == 7 {
        ".self_attn.o_proj.weight"@
    } else if k == 8 {
        ".mlp.gate_proj.weight"@
    } else if k == 9 {
        ".mlp.up_proj.weight"@
    } else {
        ".mlp.down_proj.weight"@
    }
}

/// Tensors of a layer.
pub const LAYER_PARTS: usize = 11;

fn part_name(k: usize) -> (r: &'static str)
    requires
        k < LAYER_PARTS,
    ensures
        r@ == layer_part(k as int),
{
    match k {
        0 => ".input_layernorm.weight",
        1 => ".post_attention_layernorm.weight",
        2 => ".self_attn.q_norm.weight",
        3 => ".self_attn.k_norm.weight",
        4 => ".self_attn.q_proj.weight",
        5 => ".self_attn.k_proj.weight",
        6 => ".self_attn.v_proj.weight",
        7 => ".self_attn.o_proj.weight",
        8 => ".mlp.gate_proj.weight",
        9 => ".mlp.up_proj.weight",
        _ => ".mlp.down_proj.weight",
    }
}

/// Values of a layer's tensor, where the number is fixed: its norms.
pub open spec fn part_len(c: DflashCfg, k: int) -> Option<usize> {
    if k < 2 {
        Some(c.h)
    } else if k < 4 {
        Some(c.hd)
    } else {
        None
    }
}

/// What is needed in place `k`: the projection of the context, the two norms of the whole, and
/// then eleven tensors for each layer.
pub open spec fn need_at(c: DflashCfg, k: int) -> (Seq<char>, Option<usize>) {
    if k == 0 {
        ("fc.weight"@, None)
    } else if k == 1 {
        ("hidden_norm.weight"@, Some(c.h))
    } else if k == 2 {
        ("norm.weight"@, Some(c.h))
    } else {
        (layer_name((k - 3) / 11, layer_part((k - 3) % 11)), part_len(c, (k - 3) % 11))
    }
}

pub open spec fn is_need(n: Need, s: (Seq<char>, Option<usize>)) -> bool {
    n.name@ == s.0 && n.len == s.1
}

/// The tensors that an artifact must hold, in the order in which they are loaded.
pub fn needed(c: &DflashCfg) -> (v: Vec<Need>)
    requires
        3 + c.n_layers * 11 <= usize::MAX,
    ensures
        v@.len() == 3 + c.n_layers * 11,
        forall|k: int| 0 <= k < v@.len() ==> is_need(#[trigger] v@[k], need_at(*c, k)),
{
    let mut v: Vec<Need> = Vec::new();
    v.push(Need { name: String::from_str("fc.weight"), len: None });
    v.push(Need { name: String::from_str("hidden_norm.weight"), len: Some(c.h) });
    v.push(Need { name: String::from_str("norm.weight"), len: Some(c.h) });
    let mut i: usize = 0;
    while i < c.n_layers
        invariant
            i <= c.n_layers,
            3 + c.n_layers * 11 <= usize::MAX,
            v@.len() == 3 + i * 11,
            forall|k: int| 0 <= k < v@.len() ==> is_need(#[trigger] v@[k], need_at(*c, k)),
        decreases c.n_layers - i,
    {
        let mut k: usize = 0;
        while k < LAYER_PARTS
            invariant
                i < c.n_layers,
                k <= LAYER_PARTS,
                3 + c.n_layers * 11 <= usize::MAX,
                v@.len() == 3 + i * 11 + k,
                forall|x: int| 0 <= x < v@.len() ==> is_need(#[trigger] v@[x], need_at(*c, x)),
            decreases LAYER_PARTS - k,
        {
            let mut name = String::from_str("layers.");
            name.append(text::to_decimal(i as u64).as_str());
            name.append(part_name(k));
            let len: Option<usize> = if k < 2 {
                Some(c.h)
            } else if k < 4 {
                Some(c.hd)
            } else {
                None
            };
            let ghost place = v@.len() as int;
            assert((place - 3) / 11 == i && (place - 3) % 11 == k);
            v.push(Need { name, len });
            k += 1;
        }
        i += 1;
    }
    v
}

/// The words of little-endian bytes.
pub open spec fn words_of(b: Seq<u8>) -> Seq<u16> {
    Seq::new(b.len() / 2, |i: int| (b[2 * i] + 0x100 * b[2 * i + 1]) as u16)
}

fn to_words(b: &Vec<u8>) -> (w: Vec<u16>)
    ensures
        w@ == words_of(b@),
{
    let mut w: Vec<u16> = Vec::new();
    let len: usize = b.len();
    let n: usize = len / 2;
    let mut i: usize = 0;
    while i < n
        invariant
            len == b@.len(),
            n == len / 2,
            i <= n,
            w@ == words_of(b@).take(i as int),
        decreases n - i,
    {
        w.push(b[2 * i] as u16 + 0x100 * b[2 * i + 1] as u16);
        i += 1;
        assert(w@ =~= words_of(b@).take(i as int));
    }
    assert(w@ =~= words_of(b@));
    w
}

/// What is wrong with a tensor that is needed, given what was found.
pub open spec fn complaint(
    t: Option<Option<(bool, Seq<u8>)>>,
    need: (Seq<char>, Option<usize>),
    e: LoadError,
) -> bool {
    match t {
        None => e is NotTensors,
        Some(None) => e matches LoadError::Missing(n) && n@ == need.0,
        Some(Some(x)) => if !x.0 {
            e matches LoadError::Format(n) && n@ == need.0
        } else {
            e matches LoadError::Shape(n) && n@ == need.0
        },
    }
}

/// What was found is what is needed.
pub open spec fn serves(t: Option<Option<(bool, Seq<u8>)>>, need: (Seq<char>, Option<usize>)) -> bool {
    t matches Some(Some(x)) && x.0 && (need.1 matches Some(n) ==> x.1.len() / 2 == n)
}

/// The values of what was found.
pub open spec fn values_of(t: Option<Option<(bool, Seq<u8>)>>) -> Seq<u16> {
    words_of((t->0->0).1)
}

/// `w` holds the values of what is needed in place `k`.
pub open spec fn loaded(raw: Seq<u8>, c: DflashCfg, k: int, w: Seq<u16>) -> bool {
    let t = tensor_of(raw, need_at(c, k).0);
    serves(t, need_at(c, k)) && w == values_of(t)
}

/// Checks what was found under a name against what is needed, and takes its values.
pub fn take_tensor(found: Found, name: &str, len: Option<usize>) -> (r: Result<Vec<u16>, LoadError>)
    ensures
        serves(contents(found), (name@, len)) ==> r is Ok && r->Ok_0@ == values_of(contents(found)),
        !serves(contents(found), (name@, len)) ==> r is Err && complaint(
            contents(found),
            (name@, len),
            r->Err_0,
        ),
{
    match found {
        None => Err(LoadError::NotTensors),
        Some(None) => Err(LoadError::Missing(String::from_str(name))),
        Some(Some((bf16, data))) => {
            if !bf16 {
                return Err(LoadError::Format(String::from_str(name)));
            }
            let w = to_words(&data);
            match len {
                Some(n) => if w.len() != n {
                    Err(LoadError::Shape(String::from_str(name)))
                } else {
                    Ok(w)
                },
                None => Ok(w),
            }
        },
    }
}

/// Loads the tensors that an artifact must hold. The first one that is wrong is the error.
pub fn load_tensors(raw: &[u8], c: &DflashCfg) -> (r: Result<Vec<Vec<u16>>, LoadError>)
    requires
        3 + c.n_layers * 11 <= usize::MAX,
    ensures
        match r {
            Ok(v) => v@.len() == 3 + c.n_layers * 11 && forall|k: int|
                0 <= k < v@.len() ==> loaded(raw@, *c, k, (#[trigger] v@[k])@),
            Err(e) => exists|k: int|
                0 <= k < 3 + c.n_layers * 11 && !serves(
                    #[trigger] tensor_of(raw@, need_at(*c, k).0),
                    need_at(*c, k),
                ) && complaint(tensor_of(raw@, need_at(*c, k).0), need_at(*c, k), e) && forall|j: int|
                    0 <= j < k ==> serves(
                        #[trigger] tensor_of(raw@, need_at(*c, j).0),
                        need_at(*c, j),
                    ),
        },
{
    let fit = declares_within(raw);
    let needs = needed(c);
    let mut v: Vec<Vec<u16>> = Vec::new();
    let mut k: usize = 0;
    while k < needs.len()
        invariant
            k <= needs@.len(),
            fit == ends_fit(raw@),
            needs@.len() == 3 + c.n_layers * 11,
            forall|k: int| 0 <= k < needs@.len() ==> is_need(#[trigger] needs@[k], need_at(*c, k)),
            v@.len() == k,
            forall|j: int|
                0 <= j < k ==> loaded(raw@, *c, j, (#[trigger] v@[j])@),
        decreases needs@.len() - k,
    {
        let need = &needs[k];
        assert(is_need(needs@[k as int], need_at(*c, k as int)));
        let found = find(raw, need.name.as_str(), fit);
        match take_tensor(found, need.name.as_str(), need.len) {
            Ok(w) => {
                let ghost before = v@;
                assert(loaded(raw@, *c, k as int, w@));
                v.push(w);
                assert forall|j: int| 0 <= j < k + 1 implies loaded(
                    raw@,
                    *c,
                    j,
                    (#[trigger] v@[j])@,
                ) by {
                    if j < k {
                        assert(loaded(raw@, *c, j, before[j]@));
                    }
                }
            },
            Err(e) => {
                assert forall|j: int| 0 <= j < k implies serves(
                    #[trigger] tensor_of(raw@, need_at(*c, j).0),
                    need_at(*c, j),
                ) by {
                    assert(loaded(raw@, *c, j, v@[j]@));
                }
                return Err(e);
            },
        }
        k += 1;
    }
    Ok(v)
}

/// The artifact's own embedding table, where it has one. Without one the caller must bring the
/// target's.
pub fn load_embedding(raw: &[u8]) -> (r: Result<Option<Vec<u16>>, LoadError>)
    ensures
        ({
            let t = tensor_of(raw@, "embed_tokens.weight"@);
            match r {
                Ok(None) => !(t is Some && t->0 is Some),
                Ok(Some(w)) => serves(t, ("embed_tokens.weight"@, None)) && w@ == values_of(t),
                Err(e) => t is Some && t->0 is Some && complaint(
                    t,
                    ("embed_tokens.weight"@, None),
                    e,
                ) && !serves(t, ("embed_tokens.weight"@, None)),
            }
        }),
{
    let found = find(raw, "embed_tokens.weight", declares_within(raw));
    match &found {
        Some(Some(_)) => {},
        _ => return Ok(None),
    }
    match take_tensor(found, "embed_tokens.weight", None) {
        Ok(w) => Ok(Some(w)),
        Err(e) => Err(e),
    }
}

/// Widens the values of a norm.
pub fn widen_all(w: &Vec<u16>) -> (v: Vec<Single>)
    ensures
        v@ == w@.map_values(|x: u16| widened(x)),
{
    let mut v: Vec<Single> = Vec::new();
    let mut i: usize = 0;
    while i < w.len()
        invariant
            i <= w@.len(),
            v@ == w@.take(i as int).map_values(|x: u16| widened(x)),
        decreases w@.len() - i,
    {
        v.push(widen(w[i]));
        i += 1;
        assert(v@ =~= w@.take(i as int).map_values(|x: u16| widened(x)));
    }
    assert(w@.take(w@.len() as int) =~= w@);
    v
}


/// Words are read low byte first: each gives back its two bytes.
pub proof fn law_words_hold_their_bytes(b: Seq<u8>, i: int)
    requires
        0 <= i < b.len() / 2,
    ensures
        words_of(b).len() == b.len() / 2,
        words_of(b)[i] % 0x100 == b[2 * i],
        words_of(b)[i] / 0x100 == b[2 * i + 1],
{
}

/// Widening a half keeps its bits in the upper half of the single, and adds nothing below; a half
/// that is not a number stays none.
pub proof fn law_widening_keeps_the_value(w: u16)
    ensures
        w & 0x7FFF <= 0x7F80 ==> widened(w).bits >> 16 == w as u32,
        widened(w).bits & 0xFFFF == 0,
        w & 0x7FFF > 0x7F80 ==> widened(w).nan(),
        w & 0x7FFF <= 0x7F80 ==> !widened(w).nan(),
{
    let x = w as u32;
    assert((x << 16) >> 16 == x && (x << 16) & 0xFFFF == 0 && ((x | 0x40) << 16) & 0xFFFF == 0 && (
    x << 16) % 0x8000_0000 == ((w & 0x7FFF) as u32) << 16 && (w & 0x7FFF > 0x7F80 ==> ((x | 0x40)
        << 16) % 0x8000_0000 > 0x7F80_0000) && (w & 0x7FFF <= 0x7F80 ==> ((w & 0x7FFF) as u32) << 16
        <= 0x7F80_0000)) by (bit_vector)
        requires
            x == w as u32,
    ;
}

/// The weights of a layer stand together behind the three of the whole model: part `p` of layer `i`
/// is its `p`-th. Norms over the hidden state and over a head have that many values.
pub proof fn law_every_layer_needs_its_parts(c: DflashCfg, i: int, p: int)
    requires
        0 <= i,
        0 <= p < 11,
    ensures
        need_at(c, 3 + 11 * i + p).0 == "layers."@ + text::decimal(i as nat) + layer_part(p),
        p == 0 || p == 1 ==> need_at(c, 3 + 11 * i + p).1 == Some(c.h),
        p == 2 || p == 3 ==> need_at(c, 3 + 11 * i + p).1 == Some(c.hd),
        4 <= p ==> need_at(c, 3 + 11 * i + p).1 is None,
        need_at(c, 0) == ("fc.weight"@, None::<usize>),
        need_at(c, 1) == ("hidden_norm.weight"@, Some(c.h)),
        need_at(c, 2) == ("norm.weight"@, Some(c.h)),
{
    assert((11 * i + p) / 11 == i && (11 * i + p) % 11 == p);
}

/// Byte `k` of a number, counted from the lowest.
pub open spec fn byte_of(n: int, k: int) -> int
    decreases k,
{
    if k <= 0 {
        n % 0x100
    } else {
        byte_of(n / 0x100, k - 1)
    }
}

/// The number of the bytes from `k` on, low byte first.
spec fn read_from(raw: Seq<u8>, k: int) -> int
    decreases 8 - k,
{
    if k >= 8 {
        0
    } else {
        raw[k] + 0x100 * read_from(raw, k + 1)
    }
}

proof fn lemma_byte_of(raw: Seq<u8>, from: int, k: int)
    requires
        raw.len() >= 8,
        0 <= from,
        0 <= k,
        from + k < 8,
    ensures
        byte_of(read_from(raw, from), k) == raw[from + k],
    decreases k,
{
    let rest = read_from(raw, from + 1);
    assert(read_from(raw, from) == raw[from] + 0x100 * rest);
    if k > 0 {
        lemma_byte_of(raw, from + 1, k - 1);
    }
}

/// The length of the header is read low byte first: its bytes are the first eight.
pub proof fn law_the_header_length_holds_its_bytes(raw: Seq<u8>, k: int)
    requires
        raw.len() >= 8,
        0 <= k < 8,
    ensures
        byte_of(header_len(raw), k) == raw[k],
{
    reveal_with_fuel(read_from, 9);
    assert(header_len(raw) == read_from(raw, 0));
    lemma_byte_of(raw, 0, k);
}

/// A header stands behind the eight bytes of its length, and is there exactly where the file is long
/// enough.
pub proof fn law_the_header_stands_behind_its_length(raw: Seq<u8>)
    ensures
        header_of(raw) is Some <==> raw.len() >= 8 && 8 + header_len(raw) <= raw.len(),
        header_of(raw) matches Some(h) ==> raw.take(8) + h + raw.skip(8 + h.len() as int) == raw && h.len()
            == header_len(raw),
{
    if raw.len() >= 8 && 8 + header_len(raw) <= raw.len() {
        let h = raw.subrange(8, 8 + header_len(raw));
        assert(raw.take(8) + h + raw.skip(8 + h.len() as int) =~= raw);
    }
}

/// A tensor serves where it is there, in halves, and has the length that is asked for; otherwise the
/// complaint tells which of these fails, and of which tensor.
pub proof fn law_complaints_tell_what_fails(
    t: Option<Option<(bool, Seq<u8>)>>,
    name: Seq<char>,
    len: Option<usize>,
    e: LoadError,
)
    requires
        complaint(t, (name, len), e),
        !serves(t, (name, len)),
    ensures
        t is None <==> e is NotTensors,
        (t is Some && t->0 is None) <==> e is Missing,
        (t is Some && t->0 is Some && !(t->0->0).0) <==> e is Format,
        e is Shape ==> len is Some && (t->0->0).1.len() / 2 != len->0,
        e matches LoadError::Missing(n) ==> n@ == name,
        e matches LoadError::Format(n) ==> n@ == name,
        e matches LoadError::Shape(n) ==> n@ == name,
{
}

} // verus!
