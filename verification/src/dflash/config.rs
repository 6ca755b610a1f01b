//! The geometry of a draft artifact, from its configuration.
//!
//! Every field is required: a geometry that is guessed wrong drafts plausible nonsense instead of
//! failing.

use vstd::prelude::*;

use crate::json_schema::double::Double;
use crate::json_schema::keywords;
use crate::json_schema::value;
use crate::json_schema::value::{Json, Members};
use crate::text;

verus! {

/// Widest draft block.
pub const MAX_BLOCK: usize = 16;

/// Most layers of the target that condition the drafter.
pub const MAX_TAPS: usize = 8;

/// The geometry of a draft artifact.
#[derive(Debug)]
pub struct DflashCfg {
    pub h: usize,
    pub n_layers: usize,
    pub nh: usize,
    pub nkv: usize,
    pub hd: usize,
    pub inter: usize,
    pub vocab: usize,
    pub rms_eps: Double,
    pub rope_theta: Double,
    /// The trained draft block.
    pub block: usize,
    /// The token that fills a block.
    pub mask_token_id: u32,
    /// The target's layers whose hidden states condition the drafter, in the order of the feature.
    pub tap_layers: Vec<usize>,
    /// By layer: its attention slides. Empty where all layers attend to everything.
    pub sliding: Vec<bool>,
    /// Zero for none.
    pub sliding_window: usize,
}

/// What is wrong with a configuration.
#[derive(Debug)]
pub enum CfgError {
    /// It is not JSON.
    NotJson,
    /// A key is missing or is not a positive integer.
    Key(&'static str),
    NoRmsEps,
    NoRopeTheta,
    NoDflashObject,
    NoTaps,
    EmptyTaps,
    TooManyTaps(usize),
    BadBlock(usize),
    BadHeadDim(usize),
}

/// The member `key` of a value; none where the value is not an object.
pub open spec fn field(v: Json, key: Seq<char>) -> Option<Json> {
    match v {
        Json::Object(o) => value::member(o@, key),
        _ => None,
    }
}

/// The value as an unsigned integer, where it is one.
pub open spec fn unsigned(v: Option<Json>) -> Option<u64> {
    match v {
        Some(Json::Number(n)) => n.unsigned,
        _ => None,
    }
}

/// The value as a double, where it has that reading.
pub open spec fn double_of(v: Option<Json>) -> Option<Double> {
    match v {
        Some(Json::Number(n)) => n.double,
        _ => None,
    }
}

/// The size named `key`.
pub open spec fn size_of(v: Json, key: Seq<char>) -> Option<usize> {
    match unsigned(field(v, key)) {
        Some(n) => Some(n as usize),
        None => None,
    }
}

/// The base of the rotary angles: under the rotary parameters or, where they name none, at the
/// top.
pub open spec fn theta_of(v: Json) -> Option<Double> {
    let nested = match field(v, "rope_parameters"@) {
        Some(r) => field(r, "rope_theta"@),
        None => None,
    };
    double_of(
        match nested {
            Some(x) => Some(x),
            None => field(v, "rope_theta"@),
        },
    )
}

/// The unsigned integers among the first `n` items.
pub open spec fn sizes(a: Seq<Json>, n: int) -> Seq<usize>
    decreases n,
{
    if n <= 0 {
        Seq::empty()
    } else {
        match unsigned(Some(a[n - 1])) {
            Some(x) => sizes(a, n - 1).push(x as usize),
            None => sizes(a, n - 1),
        }
    }
}

/// The layers that condition the drafter.
pub open spec fn taps_of(d: Json) -> Option<Seq<usize>> {
    match field(d, "target_layer_ids"@) {
        Some(Json::Array(a)) => Some(sizes(a@, a@.len() as int)),
        _ => None,
    }
}

/// By layer: its attention slides.
pub open spec fn sliding_of(v: Json) -> Seq<bool> {
    match field(v, "layer_types"@) {
        Some(Json::Array(a)) => Seq::new(a@.len(), |i: int| slides(a@[i])),
        _ => Seq::empty(),
    }
}

pub open spec fn slides(t: Json) -> bool {
    t matches Json::String(s) && s@ == "sliding_attention"@
}

/// Head sizes that the attention kernels take.
pub open spec fn head_dim_ok(hd: usize) -> bool {
    hd % 32 == 0 && hd <= 512
}

/// The part of the configuration that is about drafting.
pub open spec fn draft_part(v: Json) -> Json {
    match field(v, "dflash_config"@) {
        Some(d) => d,
        None => Json::Null,
    }
}

/// What a configuration says, or what is wrong with it first.
pub open spec fn reads_as(v: Json, r: Result<DflashCfg, CfgError>) -> bool {
    let d = draft_part(v);
    if size_of(v, "hidden_size"@) is None {
        key_error(r, "hidden_size"@)
    } else if size_of(v, "num_hidden_layers"@) is None {
        key_error(r, "num_hidden_layers"@)
    } else if size_of(v, "num_attention_heads"@) is None {
        key_error(r, "num_attention_heads"@)
    } else if size_of(v, "num_key_value_heads"@) is None {
        key_error(r, "num_key_value_heads"@)
    } else if size_of(v, "head_dim"@) is None {
        key_error(r, "head_dim"@)
    } else if size_of(v, "intermediate_size"@) is None {
        key_error(r, "intermediate_size"@)
    } else if size_of(v, "vocab_size"@) is None {
        key_error(r, "vocab_size"@)
    } else if double_of(field(v, "rms_norm_eps"@)) is None {
        r matches Err(CfgError::NoRmsEps)
    } else if theta_of(v) is None {
        r matches Err(CfgError::NoRopeTheta)
    } else if !(d is Object) {
        r matches Err(CfgError::NoDflashObject)
    } else if size_of(d, "block_size"@) is None {
        key_error(r, "block_size"@)
    } else if size_of(d, "mask_token_id"@) is None {
        key_error(r, "mask_token_id"@)
    } else if taps_of(d) is None {
        r matches Err(CfgError::NoTaps)
    } else if taps_of(d)->0.len() == 0 {
        r matches Err(CfgError::EmptyTaps)
    } else if taps_of(d)->0.len() > MAX_TAPS {
        r matches Err(CfgError::TooManyTaps(n)) && n == taps_of(d)->0.len()
    } else if !(1 <= size_of(d, "block_size"@)->0 <= MAX_BLOCK) {
        r matches Err(CfgError::BadBlock(n)) && Some(n) == size_of(d, "block_size"@)
    } else if !head_dim_ok(size_of(v, "head_dim"@)->0) {
        r matches Err(CfgError::BadHeadDim(n)) && Some(n) == size_of(v, "head_dim"@)
    } else {
        r matches Ok(c) && configures(v, c)
    }
}

/// The error names the key.
pub open spec fn key_error(r: Result<DflashCfg, CfgError>, key: Seq<char>) -> bool {
    r matches Err(CfgError::Key(k)) && k@ == key
}

/// `c` is what the configuration says.
pub open spec fn configures(v: Json, c: DflashCfg) -> bool {
    let d = draft_part(v);
    &&& Some(c.h) == size_of(v, "hidden_size"@)
    &&& Some(c.n_layers) == size_of(v, "num_hidden_layers"@)
    &&& Some(c.nh) == size_of(v, "num_attention_heads"@)
    &&& Some(c.nkv) == size_of(v, "num_key_value_heads"@)
    &&& Some(c.hd) == size_of(v, "head_dim"@)
    &&& Some(c.inter) == size_of(v, "intermediate_size"@)
    &&& Some(c.vocab) == size_of(v, "vocab_size"@)
    &&& Some(c.rms_eps) == double_of(field(v, "rms_norm_eps"@))
    &&& Some(c.rope_theta) == theta_of(v)
    &&& Some(c.block) == size_of(d, "block_size"@)
    &&& c.mask_token_id == size_of(d, "mask_token_id"@)->0 as u32
    &&& Some(c.tap_layers@) == taps_of(d)
    &&& c.sliding@ == sliding_of(v)
    &&& c.sliding_window == match size_of(v, "sliding_window"@) {
        Some(n) => n,
        None => 0,
    }
}

impl DflashCfg {
    /// What every configuration that was read keeps.
    pub open spec fn wf(&self) -> bool {
        &&& 1 <= self.tap_layers@.len() <= MAX_TAPS
        &&& 1 <= self.block <= MAX_BLOCK
        &&& head_dim_ok(self.hd)
    }

    /// Number of layers that condition the drafter.
    pub fn nctx(&self) -> (n: usize)
        ensures
            n == self.tap_layers@.len(),
    {
        self.tap_layers.len()
    }
}

/// The member `key` of a value.
pub fn field_of<'a>(v: &'a Json, key: &str) -> (r: Option<&'a Json>)
    ensures
        match field(*v, key@) {
            Some(x) => r is Some && *r->0 == x,
            None => r is None,
        },
{
    match v {
        Json::Object(o) => value::get(o, key),
        _ => None,
    }
}

fn to_size(n: u64) -> (r: usize)
    ensures
        r == n as usize,
{
    #[verifier::truncate]
    (n as usize)
}

/// A size as a token.
fn to_token(n: usize) -> (r: u32)
    ensures
        r == n as u32,
{
    #[verifier::truncate]
    (n as u32)
}

/// The size named `key`.
pub fn size_field(v: &Json, key: &str) -> (r: Option<usize>)
    ensures
        r == size_of(*v, key@),
{
    match field_of(v, key) {
        Some(Json::Number(n)) => match n.unsigned {
            Some(x) => Some(to_size(x)),
            None => None,
        },
        _ => None,
    }
}

fn required(v: &Json, key: &'static str) -> (r: Result<usize, CfgError>)
    ensures
        match size_of(*v, key@) {
            Some(n) => r == Ok::<usize, CfgError>(n),
            None => r matches Err(CfgError::Key(k)) && k@ == key@,
        },
{
    match size_field(v, key) {
        Some(n) => Ok(n),
        None => Err(CfgError::Key(key)),
    }
}

fn double_field(v: Option<&Json>) -> (r: Option<Double>)
    ensures
        r == double_of(
            match v {
                Some(x) => Some(*x),
                None => None,
            },
        ),
{
    match v {
        Some(Json::Number(n)) => n.double,
        _ => None,
    }
}

fn read_theta(v: &Json) -> (r: Option<Double>)
    ensures
        r == theta_of(*v),
{
    let nested = match field_of(v, "rope_parameters") {
        Some(p) => field_of(p, "rope_theta"),
        None => None,
    };
    match nested {
        Some(x) => double_field(Some(x)),
        None => double_field(field_of(v, "rope_theta")),
    }
}

fn read_sizes(a: &Vec<Json>) -> (r: Vec<usize>)
    ensures
        r@ == sizes(a@, a@.len() as int),
{
    let mut r: Vec<usize> = Vec::new();
    let mut i: usize = 0;
    while i < a.len()
        invariant
            i <= a@.len(),
            r@ == sizes(a@, i as int),
        decreases a@.len() - i,
    {
        match &a[i] {
            Json::Number(n) => match n.unsigned {
                Some(x) => {
                    r.push(to_size(x));
                },
                None => {},
            },
            _ => {},
        }
        i += 1;
    }
    r
}

fn read_sliding(v: &Json) -> (r: Vec<bool>)
    ensures
        r@ == sliding_of(*v),
{
    let mut r: Vec<bool> = Vec::new();
    match field_of(v, "layer_types") {
        Some(Json::Array(a)) => {
            let mut i: usize = 0;
            while i < a.len()
                invariant
                    i <= a@.len(),
                    r@ == Seq::new(i as nat, |k: int| slides(a@[k])),
                decreases a@.len() - i,
            {
                let s = match &a[i] {
                    Json::String(t) => text::same_str(t.as_str(), "sliding_attention"),
                    _ => false,
                };
                r.push(s);
                i += 1;
                assert(r@ =~= Seq::new(i as nat, |k: int| slides(a@[k])));
            }
        },
        _ => {
            assert(r@ =~= Seq::<bool>::empty());
        },
    }
    r
}

/// Reads a configuration. The first thing that is wrong is the error.
pub fn read_config(v: &Json) -> (r: Result<DflashCfg, CfgError>)
    ensures
        reads_as(*v, r),
        r matches Ok(c) ==> c.wf(),
{
    let null = Json::Null;
    let d = match field_of(v, "dflash_config") {
        Some(x) => x,
        None => &null,
    };
    assert(*d == draft_part(*v));
    let h: usize = match required(v, "hidden_size") {
        Ok(n) => n,
        Err(e) => return Err(e),
    };
    let n_layers: usize = match required(v, "num_hidden_layers") {
        Ok(n) => n,
        Err(e) => return Err(e),
    };
    let nh: usize = match required(v, "num_attention_heads") {
        Ok(n) => n,
        Err(e) => return Err(e),
    };
    let nkv: usize = match required(v, "num_key_value_heads") {
        Ok(n) => n,
        Err(e) => return Err(e),
    };
    let hd: usize = match required(v, "head_dim") {
        Ok(n) => n,
        Err(e) => return Err(e),
    };
    let inter: usize = match required(v, "intermediate_size") {
        Ok(n) => n,
        Err(e) => return Err(e),
    };
    let vocab: usize = match required(v, "vocab_size") {
        Ok(n) => n,
        Err(e) => return Err(e),
    };
    let rms_eps = match double_field(field_of(v, "rms_norm_eps")) {
        Some(x) => x,
        None => return Err(CfgError::NoRmsEps),
    };
    let rope_theta = match read_theta(v) {
        Some(x) => x,
        None => return Err(CfgError::NoRopeTheta),
    };
    match d {
        Json::Object(_) => {},
        _ => return Err(CfgError::NoDflashObject),
    }
    let block: usize = match required(d, "block_size") {
        Ok(n) => n,
        Err(e) => return Err(e),
    };
    let mask: usize = match required(d, "mask_token_id") {
        Ok(n) => n,
        Err(e) => return Err(e),
    };
    let tap_layers: Vec<usize> = match field_of(d, "target_layer_ids") {
        Some(Json::Array(a)) => read_sizes(a),
        _ => return Err(CfgError::NoTaps),
    };
    if tap_layers.len() == 0 {
        return Err(CfgError::EmptyTaps);
    }
    if tap_layers.len() > MAX_TAPS {
        return Err(CfgError::TooManyTaps(tap_layers.len()));
    }
    if block < 1 || block > MAX_BLOCK {
        return Err(CfgError::BadBlock(block));
    }
    if hd % 32 != 0 || hd > 512 {
        return Err(CfgError::BadHeadDim(hd));
    }
    let sliding_window: usize = match size_field(v, "sliding_window") {
        Some(n) => n,
        None => 0,
    };
    Ok(
        DflashCfg {
            h,
            n_layers,
            nh,
            nkv,
            hd,
            inter,
            vocab,
            rms_eps,
            rope_theta,
            block,
            mask_token_id: to_token(mask),
            tap_layers,
            sliding: read_sliding(v),
            sliding_window,
        },
    )
}

impl DflashCfg {
    /// Reads the text of a configuration.
    pub fn load(txt: &str) -> (r: Result<DflashCfg, CfgError>)
        ensures
            match value::parsed(txt@) {
                None => r matches Err(CfgError::NotJson),
                Some(v) => reads_as(v, r),
            },
            r matches Ok(c) ==> c.wf(),
    {
        match value::parse_json(txt) {
            Some(v) => read_config(&v),
            None => Err(CfgError::NotJson),
        }
    }
}

/// Text of an error. `path` is where the configuration was read.
pub open spec fn error_text(e: CfgError, path: Seq<char>) -> Seq<char> {
    match e {
        CfgError::NotJson => "DFlash: parse "@ + path,
        CfgError::Key(k) => "DFlash config "@ + path + ": required key `"@ + k@
            + "` missing or not a positive integer"@,
        CfgError::NoRmsEps => "DFlash config: required key `rms_norm_eps` missing"@,
        CfgError::NoRopeTheta => "DFlash config "@ + path
            + ": no rope theta — expected `rope_theta` or `rope_parameters.rope_theta`"@,
        CfgError::NoDflashObject => "DFlash config "@ + path + ": `dflash_config` object missing"@,
        CfgError::NoTaps => "DFlash config: `dflash_config.target_layer_ids` missing"@,
        CfgError::EmptyTaps => "DFlash config: target_layer_ids empty"@,
        CfgError::TooManyTaps(n) => "DFlash config: "@ + text::decimal(n as nat)
            + " tap layers exceeds the compiled ceiling MAX_TAPS=8"@,
        CfgError::BadBlock(n) => "DFlash config: block_size "@ + text::decimal(n as nat)
            + " outside 1..=16 (MAX_VERIFY is 16)"@,
        CfgError::BadHeadDim(n) => "DFlash config: head_dim "@ + text::decimal(n as nat)
            + " outside the attention kernels' envelope (32 | hd, hd <= 512)"@,
    }
}

/// Writes an error out.
pub fn error_message(e: &CfgError, path: &str) -> (r: String)
    ensures
        r@ == error_text(*e, path@),
{
    let mut r: String;
    match e {
        CfgError::NotJson => {
            r = String::from_str("DFlash: parse ");
            r.append(path);
        },
        CfgError::Key(k) => {
            r = String::from_str("DFlash config ");
            r.append(path);
            r.append(": required key `");
            r.append(k);
            r.append("` missing or not a positive integer");
        },
        CfgError::NoRmsEps => {
            r = String::from_str("DFlash config: required key `rms_norm_eps` missing");
        },
        CfgError::NoRopeTheta => {
            r = String::from_str("DFlash config ");
            r.append(path);
            r.append(": no rope theta — expected `rope_theta` or `rope_parameters.rope_theta`");
        },
        CfgError::NoDflashObject => {
            r = String::from_str("DFlash config ");
            r.append(path);
            r.append(": `dflash_config` object missing");
        },
        CfgError::NoTaps => {
            r = String::from_str("DFlash config: `dflash_config.target_layer_ids` missing");
        },
        CfgError::EmptyTaps => {
            r = String::from_str("DFlash config: target_layer_ids empty");
        },
        CfgError::TooManyTaps(n) => {
            r = String::from_str("DFlash config: ");
            r.append(text::to_decimal(*n as u64).as_str());
            r.append(" tap layers exceeds the compiled ceiling MAX_TAPS=8");
        },
        CfgError::BadBlock(n) => {
            r = String::from_str("DFlash config: block_size ");
            r.append(text::to_decimal(*n as u64).as_str());
            r.append(" outside 1..=16 (MAX_VERIFY is 16)");
        },
        CfgError::BadHeadDim(n) => {
            r = String::from_str("DFlash config: head_dim ");
            r.append(text::to_decimal(*n as u64).as_str());
            r.append(" outside the attention kernels' envelope (32 | hd, hd <= 512)");
        },
    }
    r
}


/// The member `key` of `o` is a whole number, and `n` is it.
pub open spec fn gives(o: Members, key: Seq<char>, n: usize) -> bool {
    exists|v: Json| #[trigger]
        keywords::says(o, key, v) && (v matches Json::Number(x) && x.unsigned is Some && n
            == x.unsigned->0 as usize)
}

proof fn lemma_gives(o: Members, v: Json, key: Seq<char>)
    requires
        v matches Json::Object(x) && x@ == o,
        keywords::distinct_names(o),
    ensures
        forall|n: usize| (size_of(v, key) == Some(n)) == #[trigger] gives(o, key, n),
{
    keywords::law_members_are_found_by_name(o, key);
    assert forall|n: usize| (size_of(v, key) == Some(n)) == #[trigger] gives(o, key, n) by {
        if size_of(v, key) == Some(n) {
            let x = value::member(o, key)->0;
            assert(keywords::says(o, key, x));
        }
        if gives(o, key, n) {
            let x = choose|x: Json| #[trigger]
                keywords::says(o, key, x) && (x matches Json::Number(y) && y.unsigned is Some && n
                    == y.unsigned->0 as usize);
            assert(value::member(o, key) == Some(x));
        }
    }
}

/// Every size of a configuration that was read is the number of its own key.
pub proof fn law_sizes_are_those_of_the_keys(o: Vec<(String, Json)>, c: DflashCfg)
    requires
        keywords::distinct_names(o@),
        reads_as(Json::Object(o), Ok(c)),
    ensures
        gives(o@, "hidden_size"@, c.h),
        gives(o@, "num_hidden_layers"@, c.n_layers),
        gives(o@, "num_attention_heads"@, c.nh),
        gives(o@, "num_key_value_heads"@, c.nkv),
        gives(o@, "head_dim"@, c.hd),
        gives(o@, "intermediate_size"@, c.inter),
        gives(o@, "vocab_size"@, c.vocab),
        gives(o@, "sliding_window"@, c.sliding_window) || c.sliding_window == 0,
        forall|n: usize| #[trigger] gives(o@, "sliding_window"@, n) ==> c.sliding_window == n,
{
    let v = Json::Object(o);
    lemma_gives(o@, v, "hidden_size"@);
    lemma_gives(o@, v, "num_hidden_layers"@);
    lemma_gives(o@, v, "num_attention_heads"@);
    lemma_gives(o@, v, "num_key_value_heads"@);
    lemma_gives(o@, v, "head_dim"@);
    lemma_gives(o@, v, "intermediate_size"@);
    lemma_gives(o@, v, "vocab_size"@);
    lemma_gives(o@, v, "sliding_window"@);
}

/// The block, the mask and the taps are those of the `dflash_config` object.
pub proof fn law_the_drafter_is_configured_by_its_own_object(
    o: Vec<(String, Json)>,
    d: Vec<(String, Json)>,
    c: DflashCfg,
)
    requires
        keywords::distinct_names(o@),
        keywords::distinct_names(d@),
        keywords::says(o@, "dflash_config"@, Json::Object(d)),
        reads_as(Json::Object(o), Ok(c)),
    ensures
        gives(d@, "block_size"@, c.block),
        forall|n: usize| #[trigger]
            gives(d@, "mask_token_id"@, n) ==> c.mask_token_id == n as u32,
        1 <= c.block <= 16,
        1 <= c.tap_layers@.len() <= 8,
        c.hd % 32 == 0 && c.hd <= 512,
{
    keywords::law_members_are_found_by_name(o@, "dflash_config"@);
    assert(draft_part(Json::Object(o)) == Json::Object(d));
    lemma_gives(d@, Json::Object(d), "block_size"@);
    lemma_gives(d@, Json::Object(d), "mask_token_id"@);
}

/// The base of the rotation is the nested one where there is one, else the one at the top.
pub proof fn law_the_nested_theta_goes_first(v: Json, r: Json)
    requires
        field(v, "rope_parameters"@) == Some(r),
    ensures
        field(r, "rope_theta"@) is Some ==> theta_of(v) == double_of(field(r, "rope_theta"@)),
        field(r, "rope_theta"@) is None ==> theta_of(v) == double_of(field(v, "rope_theta"@)),
{
}

/// A list of sizes keeps the whole numbers of an array, in order, and leaves out the rest.
pub proof fn law_lists_keep_the_whole_numbers(a: Seq<Json>, n: int)
    requires
        0 <= n <= a.len(),
    ensures
        sizes(a, n) == a.take(n).filter(
            |v: Json| v matches Json::Number(x) && x.unsigned is Some,
        ).map_values(|v: Json| v->Number_0.unsigned->0 as usize),
    decreases n,
{
    reveal(Seq::filter);
    let keep = |v: Json| v matches Json::Number(x) && x.unsigned is Some;
    let read = |v: Json| v->Number_0.unsigned->0 as usize;
    if n > 0 {
        law_lists_keep_the_whole_numbers(a, n - 1);
        let w = a.take(n);
        assert(w.drop_last() =~= a.take(n - 1));
        assert(w.last() == a[n - 1]);
        let fewer = a.take(n - 1).filter(keep);
        if keep(a[n - 1]) {
            assert(w.filter(keep) == fewer.push(a[n - 1]));
            assert(fewer.push(a[n - 1]).map_values(read) =~= fewer.map_values(read).push(
                read(a[n - 1]),
            ));
        } else {
            assert(w.filter(keep) == fewer);
        }
    } else {
        assert(a.take(0) =~= Seq::empty());
        assert(sizes(a, 0) =~= a.take(0).filter(keep).map_values(read));
    }
}

/// A layer slides exactly where its type says so, one for one.
pub proof fn law_layers_slide_by_their_types(v: Json, a: Vec<Json>, i: int)
    requires
        field(v, "layer_types"@) == Some(Json::Array(a)),
        0 <= i < a@.len(),
    ensures
        sliding_of(v).len() == a@.len(),
        sliding_of(v)[i] == (a@[i] matches Json::String(s) && s@ == "sliding_attention"@),
{
}

} // verus!
