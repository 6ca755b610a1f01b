use gb10_infer::dflash::config::{error_message, CfgError, DflashCfg};
use gb10_infer::dflash::forward::{forward_step, Ask, Buf, ForwardError, Matrix, NormWeight, Op};
use gb10_infer::dflash::probe::{read_probe_input, read_tokens, ProbeError};
use gb10_infer::dflash::shape::{
    attention, dflash_mask_pack, draft_kernel_name, gemm_by_kernel, grid, norm_threads, top1,
    Attention,
};
use gb10_infer::dflash::taps::{
    capture_fits, tap_capture, warn_wide_skip, Copy2d, DflashTapSink,
};
use gb10_infer::dflash::weights::{
    declares_within, load_embedding, load_tensors, needed, take_tensor, widen_all, LoadError,
};
use gb10_infer::dspark::config::{
    rope_from_text, sha_pin, transpose, verify_width, RopeError,
};
use gb10_infer::dspark::context::{context_kernels, context_launch, ContextStep, Intake};
use gb10_infer::dspark::kernels::{
    attn_kind, draft_round_kernels, draft_round_kernels_partial, launch, loaded_name, switched_on,
    AttnKind, Borrowed, RoundOptions, Step, HEADS_PACKED, LOADED,
};
use gb10_infer::dspark::round::{geometry, pack_rows, range_message, rope_rows, DsparkRound};
use gb10_infer::single::Single;

fn single(x: f32) -> Single {
    Single { bits: x.to_bits() }
}

const CONFIG: &str = r#"{
    "hidden_size": 4, "num_hidden_layers": 1, "num_attention_heads": 4,
    "num_key_value_heads": 2, "head_dim": 32, "intermediate_size": 8, "vocab_size": 100,
    "rms_norm_eps": 1e-6, "rope_parameters": {"rope_theta": 10000.0},
    "layer_types": ["sliding_attention"], "sliding_window": 64,
    "dflash_config": {"block_size": 4, "mask_token_id": 99, "target_layer_ids": [1, 20]}
}"#;

fn config() -> DflashCfg {
    match DflashCfg::load(CONFIG) {
        Ok(c) => c,
        Err(e) => panic!("{}", error_message(&e, "config.json")),
    }
}

fn config_error(text: &str) -> String {
    match DflashCfg::load(text) {
        Ok(_) => panic!("must be refused"),
        Err(e) => error_message(&e, "x/config.json"),
    }
}

#[test]
fn a_configuration_is_read() {
    let c = config();
    assert_eq!((c.h, c.n_layers, c.nh, c.nkv, c.hd, c.inter, c.vocab), (4, 1, 4, 2, 32, 8, 100));
    assert_eq!((c.block, c.mask_token_id, c.sliding_window), (4, 99, 64));
    assert_eq!((c.tap_layers.clone(), c.sliding.clone()), (vec![1, 20], vec![true]));
    assert_eq!(f64::from_bits(c.rms_eps.bits), 1e-6);
    assert_eq!(f64::from_bits(c.rope_theta.bits), 10000.0);
    assert_eq!(c.nctx(), 2);
    let top = CONFIG.replace("\"rope_parameters\": {\"rope_theta\": 10000.0}", "\"rope_theta\": 5");
    assert_eq!(f64::from_bits(DflashCfg::load(&top).unwrap().rope_theta.bits), 5.0);
}

#[test]
fn a_bad_configuration_is_refused() {
    assert!(matches!(DflashCfg::load("{"), Err(CfgError::NotJson)));
    assert_eq!(config_error("{"), "DFlash: parse x/config.json");
    assert_eq!(
        config_error(&CONFIG.replace("vocab_size", "v")),
        "DFlash config x/config.json: required key `vocab_size` missing or not a positive integer"
    );
    assert_eq!(
        config_error(&CONFIG.replace("rms_norm_eps", "r")),
        "DFlash config: required key `rms_norm_eps` missing"
    );
    assert!(config_error(&CONFIG.replace("rope_theta", "t")).contains("no rope theta"));
    assert!(config_error(&CONFIG.replace("dflash_config", "d")).contains("object missing"));
    assert!(config_error(&CONFIG.replace("target_layer_ids", "t")).contains("target_layer_ids` missing"));
    assert_eq!(
        config_error(&CONFIG.replace("[1, 20]", "[]")),
        "DFlash config: target_layer_ids empty"
    );
    assert_eq!(
        config_error(&CONFIG.replace("[1, 20]", "[1,2,3,4,5,6,7,8,9]")),
        "DFlash config: 9 tap layers exceeds the compiled ceiling MAX_TAPS=8"
    );
    assert_eq!(
        config_error(&CONFIG.replace("\"block_size\": 4", "\"block_size\": 17")),
        "DFlash config: block_size 17 outside 1..=16 (MAX_VERIFY is 16)"
    );
    assert!(config_error(&CONFIG.replace("\"head_dim\": 32", "\"head_dim\": 33")).contains("head_dim 33"));
}

#[test]
fn masks_and_grids_are_packed() {
    assert_eq!(dflash_mask_pack(5, false, 0), 5);
    assert_eq!(dflash_mask_pack(5, true, 64), 5 | 1 << 32 | 64 << 33);
    assert_eq!(grid(1), (1, 1, 1));
    assert_eq!(grid(256), (1, 1, 1));
    assert_eq!(grid(257), (2, 1, 1));
    assert_eq!((norm_threads(128), norm_threads(4096)), (128, 1024));
    assert!(gemm_by_kernel(2) && !gemm_by_kernel(3));
}

#[test]
fn captures_go_to_their_rows() {
    let mut s = DflashTapSink::new(4, vec![1, 20]);
    assert_eq!(s.tap_index(20), Some(1));
    assert_eq!(s.tap_index(2), None);
    assert_eq!(
        tap_capture(&s, 3, 1),
        Copy2d { src_pitch: 8, dst_x: 8, dst_y: 0, dst_pitch: 16, width: 8, height: 3 }
    );
    s.arm_wide(100);
    s.set_wide_pos(7);
    assert_eq!((s.wide_stride, s.wide_pos), (Some(100), 7));
    assert!(capture_fits(3, 5, 8) && !capture_fits(4, 5, 8));
    assert!(warn_wide_skip(4, 5, 8).contains("window [4, 9) exceeds the ctx surface stride 8;"));
}

#[test]
fn attention_is_tiled_where_there_is_a_kernel() {
    assert_eq!(
        attention(128, 32, 4, 16, false),
        Attention::Tiled { kernel: "dflash_attn_tiled_d4_g8", grid: 16, smem: 32768, tk: 64 }
    );
    assert_eq!(
        attention(128, 32, 4, 16, true),
        Attention::Eager { grid: 512, block: 128, smem: 20 }
    );
    assert_eq!(
        attention(96, 3, 1, 5, false),
        Attention::Eager { grid: 15, block: 96, smem: 16 }
    );
    assert_eq!(draft_kernel_name(20), "dflash_attn_tiled_d8_g8");
}

#[test]
fn the_first_of_the_largest_wins() {
    let v: Vec<Single> = [1.0, 3.0, 3.0, f32::NAN, 2.0, 2.0, 9.0, -1.0].map(single).to_vec();
    assert_eq!(top1(&v, 2, 4), vec![1, 2]);
    assert!(top1(&vec![], 0, 4).is_empty());
}

fn ask() -> Ask {
    Ask { ctx_len: 3, ctx_row0: 5, q: 4, pos_start: 8, stride: 12, feature: 24 }
}

#[test]
fn a_forward_runs_its_kernels_in_order() {
    let c = config();
    let ops = forward_step(&c, &ask()).unwrap();
    assert_eq!(ops.len(), 3 + 23 + 1);
    assert_eq!(
        ops[0],
        Op::Gemm { w: Matrix::Fc, x: Buf::Feature, out: Buf::Cond, inn: 8, outn: 4, batch: 3 }
    );
    assert_eq!(ops[3 + 12], Op::WriteContext { layer: 0, row: 5, n: 3 });
    assert_eq!(ops[3 + 13], Op::WriteBlock { layer: 0, row: 8, n: 4 });
    assert_eq!(
        ops[3 + 14],
        Op::Attend { layer: 0, keys: 12, mask: 8 | 1 << 32 | 64 << 33, batch: 4 }
    );
    assert_eq!(ops[3 + 11], Op::Rope { x: Buf::KCtx, heads: 2, pos: 5, batch: 3 });
    assert_eq!(
        ops[26],
        Op::Norm { x: Buf::Hidden, out: Buf::Last, w: NormWeight::Last, heads: 1, n: 4, batch: 4 }
    );
}

#[test]
fn a_bad_forward_is_refused() {
    let c = config();
    let e = |a: Ask| forward_step(&c, &a).err();
    assert_eq!(e(Ask { q: 0, ..ask() }), Some(ForwardError::Block));
    assert_eq!(e(Ask { q: 5, ..ask() }), Some(ForwardError::Block));
    assert_eq!(e(Ask { stride: 11, ..ask() }), Some(ForwardError::Stride));
    assert_eq!(e(Ask { feature: 23, ..ask() }), Some(ForwardError::Feature));
    assert_eq!(e(Ask { pos_start: 9, ..ask() }), Some(ForwardError::Frontier));
}

fn words(list: &[u32]) -> Vec<u8> {
    list.iter().flat_map(|w| w.to_le_bytes()).collect()
}

fn dfctx(plen: u32, nsteps: u32, features: u32) -> Vec<u8> {
    let mut b = b"DFCTX".to_vec();
    b.extend(words(&[1, plen, nsteps, 4, 2]));
    b.extend(words(&(0..plen + nsteps).map(|t| 10 + t).collect::<Vec<u32>>()));
    b.extend(words(&(0..features * 8).map(|f| 1000 + f).collect::<Vec<u32>>()));
    b
}

#[test]
fn files_with_tokens_are_read() {
    let c = config();
    let p = match read_probe_input(&dfctx(2, 3, 4), &None, &c) {
        Ok(p) => p,
        Err(e) => panic!("{e:?}"),
    };
    assert_eq!((p.plen, p.steps.len()), (2, 3));
    assert_eq!(p.steps[1].pos_start, 3);
    assert_eq!(p.steps[1].ctx, (1008..1016).collect::<Vec<u32>>());
    assert_eq!(p.steps[1].ctx_len, 1);
    assert_eq!(p.steps[1].block_tokens, vec![13, 14, 99, 99]);
    assert_eq!(p.steps[2].chain, Some(vec![10, 11, 12, 13, 14]));
}

#[test]
fn plain_files_are_read() {
    let c = config();
    let mut b = b"DFCT".to_vec();
    b.extend(words(&[1, 2, 1]));
    b.extend(words(&(0..16).collect::<Vec<u32>>()));
    let t = read_tokens(r#"{"plen": 2, "tokens": [5, 6, 7]}"#).unwrap();
    assert_eq!(t, (vec![5, 6, 7], 2));
    let p = match read_probe_input(&b, &Some(t), &c) {
        Ok(p) => p,
        Err(e) => panic!("{e:?}"),
    };
    assert_eq!((p.plen, p.steps.len()), (2, 1));
    assert_eq!(p.steps[0].ctx, (0..16).collect::<Vec<u32>>());
    assert_eq!(p.steps[0].block_tokens, vec![7, 99, 99, 99]);
    assert!(matches!(read_probe_input(&b, &None, &c), Err(ProbeError::NeedsPlen)));
}

#[test]
fn bad_files_are_refused() {
    let c = config();
    let e = |b: &Vec<u8>| read_probe_input(b, &None, &c).err().unwrap();
    assert!(matches!(e(&b"nope".to_vec()), ProbeError::Magic));
    assert!(matches!(e(&b"DFCTX".to_vec()), ProbeError::CutShort));
    let mut b = dfctx(2, 3, 4);
    b[5] = 2;
    assert!(matches!(e(&b), ProbeError::Version(2)));
    let mut b = dfctx(2, 3, 4);
    b[17] = 5;
    assert!(matches!(e(&b), ProbeError::Geometry));
    assert!(matches!(e(&dfctx(2, 3, 3)), ProbeError::Truncated));
    assert!(matches!(e(&dfctx(2, 3, 4)[..30].to_vec()), ProbeError::CutShort));
    assert!(matches!(read_tokens("["), Err(ProbeError::TokensNotJson)));
    assert!(matches!(read_tokens("{}"), Err(ProbeError::NoTokens)));
    assert!(matches!(read_tokens(r#"{"plen": 2, "tokens": [1]}"#), Err(ProbeError::BadPlen)));
}

/// A tensor file that holds one-dimensional tensors.
fn tensor_file(tensors: &[(String, &str, Vec<u8>)]) -> Vec<u8> {
    let mut header = String::from("{");
    let mut data: Vec<u8> = vec![];
    for (i, (name, dtype, bytes)) in tensors.iter().enumerate() {
        if i > 0 {
            header.push(',');
        }
        let width = if *dtype == "BF16" { 2 } else { 4 };
        header.push_str(&format!(
            "\"{name}\":{{\"dtype\":\"{dtype}\",\"shape\":[{}],\"data_offsets\":[{},{}]}}",
            bytes.len() / width,
            data.len(),
            data.len() + bytes.len()
        ));
        data.extend(bytes);
    }
    header.push('}');
    let mut file = (header.len() as u64).to_le_bytes().to_vec();
    file.extend(header.as_bytes());
    file.extend(data);
    file
}

fn artifact(c: &DflashCfg) -> Vec<(String, &'static str, Vec<u8>)> {
    needed(c)
        .iter()
        .enumerate()
        .map(|(k, n)| {
            let len = n.len.unwrap_or(3);
            let bytes = (0..len).flat_map(|i| [(k + i) as u8, 0x3F]).collect();
            (n.name.clone(), "BF16", bytes)
        })
        .collect()
}

#[test]
fn tensors_are_loaded_in_order() {
    let c = config();
    let needs = needed(&c);
    assert_eq!(needs.len(), 14);
    assert_eq!(needs[3].name, "layers.0.input_layernorm.weight");
    assert_eq!((needs[5].name.as_str(), needs[5].len), ("layers.0.self_attn.q_norm.weight", Some(32)));
    let t = artifact(&c);
    let v = load_tensors(&tensor_file(&t), &c).unwrap();
    assert_eq!(v.len(), 14);
    assert_eq!(v[0], vec![0x3F00, 0x3F01, 0x3F02]);
    assert_eq!(v[13], vec![0x3F0D, 0x3F0E, 0x3F0F]);
    assert_eq!(widen_all(&v[0])[1], single(f32::from_bits(0x3F01_0000)));
    assert_eq!(load_embedding(&tensor_file(&t)).unwrap(), None);
    let mut more = t.clone();
    more.push((String::from("embed_tokens.weight"), "BF16", vec![1, 2]));
    assert_eq!(load_embedding(&tensor_file(&more)).unwrap(), Some(vec![0x0201]));
}

#[test]
fn bad_artifacts_are_refused() {
    let c = config();
    assert!(matches!(load_tensors(b"junk", &c), Err(LoadError::NotTensors)));
    let mut t = artifact(&c);
    t.remove(4);
    assert!(matches!(
        load_tensors(&tensor_file(&t), &c),
        Err(LoadError::Missing(n)) if n == "layers.0.post_attention_layernorm.weight"
    ));
    let mut t = artifact(&c);
    t[1].2.truncate(4);
    assert!(matches!(
        load_tensors(&tensor_file(&t), &c),
        Err(LoadError::Shape(n)) if n == "hidden_norm.weight"
    ));
    let mut t = artifact(&c);
    t[0] = (String::from("fc.weight"), "F32", vec![0; 4]);
    assert!(matches!(
        load_tensors(&tensor_file(&t), &c),
        Err(LoadError::Format(n)) if n == "fc.weight"
    ));
    assert!(matches!(take_tensor(None, "x", None), Err(LoadError::NotTensors)));
    assert_eq!(take_tensor(Some(Some((true, vec![1, 2, 3, 4]))), "x", Some(2)).unwrap(), vec![0x0201, 0x0403]);
}

fn with_header(header: &str) -> Vec<u8> {
    let mut file = (header.len() as u64).to_le_bytes().to_vec();
    file.extend(header.as_bytes());
    file
}

#[test]
fn ends_behind_the_file_are_refused() {
    let c = config();
    let huge = with_header(
        r#"{"fc.weight":{"dtype":"U8","shape":[18446744073709551615],"data_offsets":[0,18446744073709551615]}}"#,
    );
    assert!(!declares_within(&huge));
    assert!(matches!(load_tensors(&huge, &c), Err(LoadError::NotTensors)));
    assert_eq!(load_embedding(&huge).unwrap(), None);
    let listed = with_header(
        r#"{"fc.weight":["U8",[18446744073709551615],[0,18446744073709551615]]}"#,
    );
    assert!(!declares_within(&listed));
    let empty = with_header(r#"{"x":{"dtype":"U8","shape":[0,18446744073709551615],"data_offsets":[0,0]}}"#);
    assert!(declares_within(&empty));
    assert!(matches!(load_tensors(&empty, &c), Err(LoadError::Missing(n)) if n == "fc.weight"));
    assert!(declares_within(b"junk") && declares_within(&tensor_file(&artifact(&c))));
}

#[test]
fn brain_floats_are_widened() {
    let v = widen_all(&vec![0x3F80, 0xC000, 0x7F81, 0x7F80]);
    assert_eq!(v[0], single(1.0));
    assert_eq!(v[1], single(-2.0));
    assert_eq!(v[2].bits, 0x7FC1_0000);
    assert_eq!(v[3], single(f32::INFINITY));
}

#[test]
fn rings_have_a_geometry() {
    let g = geometry(4096).unwrap();
    assert_eq!((g.max_pos, g.c_ring, g.ring_stride, g.score_stride), (4104, 4096, 4104, 4103));
    assert_eq!(rope_rows(10), 18);
    assert!(geometry(1023).is_none());
    assert!(geometry(2_097_136).is_some());
    assert!(geometry(2_097_137).is_none());
    assert_eq!(
        range_message(7),
        "dspark max_c 7 out of the packed-arg range (1024..=2097136); larger contexts need the ntot_dev arm"
    );
    assert_eq!(pack_rows(1, 2, 3), 1 << 42 | 2 << 21 | 3);
    assert_eq!(HEADS_PACKED, (40 << 20) | (128 << 10) | 8);
}

#[test]
fn a_ring_moves_its_frontier() {
    let mut r = DsparkRound { nprev: 0, max_c: 1024, ring_slot: None };
    assert_eq!(r.prime_window(3, 5), vec![5, 6, 7]);
    assert_eq!(r.nprev(), 8);
    assert_eq!(r.inject_dev(2), vec![8, 9, 0, 0, 0, 0, 0, 0]);
    assert_eq!(r.upload_scalars(42, -1), vec![42, 10, 1024, -1]);
    r.note_ring(3);
    r.rewind(4);
    assert_eq!((r.nprev(), r.ring_slot(), r.max_c()), (4, Some(3), 1024));
    r.invalidate_ring();
    assert_eq!(r.ring_slot(), None);
    r.note_ring(1);
    r.reset();
    assert_eq!((r.nprev(), r.ring_slot()), (0, None));
}

fn round_options() -> RoundOptions {
    RoundOptions {
        attn: AttnKind::Tensor,
        head: Borrowed::TwoStage,
        embed: Borrowed::Bf16,
        rope_interleaved: false,
        first_plain: false,
        scan_broadcast: false,
        sms: 48,
    }
}

#[test]
fn a_round_runs_its_kernels_in_order() {
    let o = round_options();
    let v = draft_round_kernels(&o);
    assert_eq!(v.len(), 3 + 5 * 19 + 1 + 3 + 14);
    assert_eq!(v[3], Step::InputNorm(0));
    assert_eq!(v[3 + 10], Step::Merge(0));
    assert_eq!(v[98], Step::FinalNorm);
    assert_eq!(v[102], Step::ChainScan(0));
    assert_eq!(v[115], Step::ChainPick(6));
    assert_eq!(draft_round_kernels_partial(&o, 2).len(), 3 + 2 * 19);
    let plain = RoundOptions { first_plain: true, attn: AttnKind::Scores, head: Borrowed::Bf16, ..o };
    let v = draft_round_kernels(&plain);
    assert_eq!(v.len(), 3 + 5 * 18 + 1 + 1 + 1 + 12);
    assert_eq!(launch(&plain, Step::ChainScan(1)).kernel, "dspark_chain_a");
}

#[test]
fn launches_have_their_shapes() {
    let o = round_options();
    let l = launch(&o, Step::Attend(2));
    assert_eq!((l.kernel, l.grid, l.block, l.smem), ("dspark_attn_full_ring_e", (8, 16, 1), (96, 1, 1), 0));
    let l = launch(&o, Step::Head);
    assert_eq!((l.kernel, l.grid), ("gemm_mma_fp4_b", (288, 1, 1)));
    let l = launch(&RoundOptions { attn: AttnKind::Split, ..o }, Step::Attend(0));
    assert_eq!((l.grid, l.smem), ((8, 8, 1), 7 * 5 * 128 * 4 + 2 * 32 * 128 * 2));
    let l = launch(&RoundOptions { attn: AttnKind::Tiled, ..o }, Step::Attend(0));
    assert_eq!(l.smem, (128 + 32) * 4 + 128 * (128 + 16) * 2);
    assert_eq!(launch(&o, Step::SiluMul(0)).grid, (280, 1, 1));
    assert_eq!(loaded_name(LOADED - 1), "dspark_scalars_b");
    assert_eq!(attn_kind("c"), AttnKind::Tiled);
    assert_eq!(attn_kind(""), AttnKind::Tensor);
    assert!(switched_on(Some("on")) && switched_on(Some("1")) && !switched_on(Some("0")));
}

#[test]
fn rotary_parameters_have_defaults() {
    let p = rope_from_text(r#"{"rope_parameters": {"factor": 64.0}}"#).unwrap();
    assert_eq!(f64::from_bits(p.factor.bits), 64.0);
    assert_eq!(f64::from_bits(p.theta.bits), 1e7);
    assert_eq!(f64::from_bits(p.beta_fast.bits), 32.0);
    assert_eq!(f64::from_bits(p.beta_slow.bits), 1.0);
    assert_eq!(p.orig_ctx, 8192);
    assert_eq!(rope_from_text("{}"), Err(RopeError::NoParameters));
    assert_eq!(rope_from_text("x"), Err(RopeError::NotJson));
}

#[test]
fn a_digest_is_pinned_unless_it_is_off() {
    assert_eq!(sha_pin(None, "abc"), Some("abc"));
    assert_eq!(sha_pin(Some("off"), "abc"), None);
    assert_eq!(sha_pin(Some("def"), "abc"), Some("def"));
}

#[test]
fn tables_are_transposed() {
    assert_eq!(transpose(&vec![1, 2, 3, 4, 5, 6], 2, 3), vec![1, 4, 2, 5, 3, 6]);
    assert!(transpose(&vec![], 0, 3).is_empty());
}

#[test]
fn the_verify_is_cut_where_a_draft_is_doubtful() {
    let s = |v: &[f32]| v.iter().map(|&x| single(x)).collect::<Vec<Single>>();
    assert_eq!(verify_width(&s(&[0.9, 0.8, 0.5, 0.3, 0.2, 0.16])), 8);
    assert_eq!(verify_width(&s(&[0.9, 0.14, 0.1, 0.0, 0.0, 0.0])), 3);
    assert_eq!(verify_width(&s(&[0.1])), 2);
}

#[test]
fn context_comes_in_by_its_kernels() {
    let v = context_kernels(Intake::Prime);
    assert_eq!(v.len(), 28);
    assert_eq!(v[0], ContextStep::GatherRope);
    assert_eq!(v[7], ContextStep::WriteRows(0));
    assert_eq!(context_kernels(Intake::Inject)[2], ContextStep::GatherRope);
    let l = context_launch(Intake::Prime, false, 130, ContextStep::Project);
    assert_eq!((l.kernel, l.grid, l.block), ("gemm_tiled_b", (2, 40, 1), (16, 16, 1)));
    let l = context_launch(Intake::Inject, true, 3, ContextStep::VGemm(4));
    assert_eq!((l.kernel, l.grid), ("gemm_dsp_b_m8_r4", (256, 1, 1)));
    let l = context_launch(Intake::Inject, true, 3, ContextStep::KRope(4));
    assert_eq!((l.kernel, l.grid), ("dspark_rope_b", (6, 1, 1)));
    let l = context_launch(Intake::Inject, true, 3, ContextStep::WriteRows(4));
    assert_eq!((l.kernel, l.grid), ("write_kv_b", (12, 1, 1)));
}
