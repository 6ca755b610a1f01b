use gb10_infer::dispatch_assert::{
    arm_name, count_of, fmt_name, init_from_env, posture, posture_name, record, set_posture,
    stats_line, violates, violations, Dispatches, ARM_BF16_BINV, ARM_BF16_SLICE, ARM_MMA,
    ARM_MXFP4_NATIVE, ARM_PREFILL, FMT_BF16, FMT_NVFP4, POSTURE_ASSERT, POSTURE_COUNT, POSTURE_OFF,
};
use gb10_infer::kv_cache::{kv_lane_check, KVCache, KvLaneVerdict, ModelConfig};
use gb10_infer::tel::{
    mode_name, note_step, publish_df2, publish_df2_tree, publish_dflash, publish_mtp, ring_push_us,
    set_boot, snapshot, AcceptAt, Mode, Telemetry,
};

#[test]
fn prefill_under_the_bound_is_a_violation() {
    assert!(violates(1, ARM_PREFILL, 16));
    assert!(violates(16, ARM_PREFILL, 16));
}

#[test]
fn mma_over_the_bound_is_a_violation() {
    assert!(violates(17, ARM_MMA, 16));
    assert!(violates(8192, ARM_MMA, 16));
}

#[test]
fn the_legal_arms_are_legal() {
    for n in 1..=16 {
        assert!(!violates(n, ARM_MMA, 16), "mma at {n}");
        assert!(!violates(n, ARM_BF16_BINV, 16), "bf16 binv at {n}");
    }
    for n in [17usize, 8192] {
        assert!(!violates(n, ARM_PREFILL, 16), "prefill at {n}");
        assert!(!violates(n, ARM_BF16_SLICE, 16), "bf16 slice at {n}");
        assert!(!violates(n, ARM_MXFP4_NATIVE, 16), "mxfp4 native at {n}");
    }
}

#[test]
fn record_counts_and_does_not_panic_in_count_posture() {
    let mut d = Dispatches::new();
    set_posture(&mut d, POSTURE_COUNT);
    let before = count_of(&d, FMT_NVFP4, ARM_MMA);
    assert!(record(&mut d, FMT_NVFP4, 8, ARM_MMA, 16, "unit").is_none());
    assert_eq!(count_of(&d, FMT_NVFP4, ARM_MMA), before + 1);
    set_posture(&mut d, POSTURE_OFF);
}

#[test]
fn nothing_is_recorded_when_off() {
    let mut d = Dispatches::new();
    assert_eq!(posture_name(&d), "off");
    assert!(record(&mut d, FMT_BF16, 1, ARM_PREFILL, 16, "unit").is_none());
    assert_eq!(count_of(&d, FMT_BF16, ARM_PREFILL), 0);
    assert_eq!(violations(&d), 0);
    assert_eq!(stats_line(&d), "[dispatch] posture=off no-dispatches |  | violations=0");
}

#[test]
fn violations_are_counted_and_reported() {
    let mut d = Dispatches::new();
    init_from_env(&mut d, Some("assert"));
    assert_eq!(posture(&d), POSTURE_ASSERT);
    assert!(record(&mut d, FMT_NVFP4, 8, ARM_MMA, 16, "a").is_none());
    let m = record(&mut d, FMT_BF16, 16, ARM_PREFILL, 16, "gemm_act").expect("a violation");
    assert!(m.starts_with(
        "DISPATCH_ASSERT VIOLATION: site=gemm_act fmt=bf16 batch=16 arm=prefill (MAX_VERIFY=16)"
    ));
    assert!(m.ends_with(
        "or batch>MAX_VERIFY took the fixed-shape MMA arm."
    ));
    assert_eq!(violations(&d), 1);
    assert_eq!(
        stats_line(&d),
        "[dispatch] posture=assert nvfp4.mma=1 bf16.prefill=1 | max_mma=8 max_prefill=16 | violations=1"
    );
}

#[test]
fn wide_products_take_the_arms_that_are_left() {
    let mut d = Dispatches::new();
    set_posture(&mut d, POSTURE_ASSERT);
    assert!(record(&mut d, FMT_BF16, 16, ARM_BF16_BINV, 16, "unit").is_none());
    assert!(record(&mut d, FMT_BF16, 17, ARM_BF16_BINV, 16, "unit").is_some());
    assert!(record(&mut d, FMT_BF16, 17, ARM_BF16_SLICE, 16, "unit").is_none());
    assert_eq!(violations(&d), 1);
}

#[test]
fn posture_is_taken_from_the_environment_once() {
    let mut d = Dispatches::new();
    init_from_env(&mut d, Some("nonsense"));
    assert_eq!(posture(&d), POSTURE_OFF);
    init_from_env(&mut d, None);
    assert_eq!(posture(&d), POSTURE_OFF);
    init_from_env(&mut d, Some("1"));
    assert_eq!(posture_name(&d), "count");
    init_from_env(&mut d, Some("assert"));
    assert_eq!(posture_name(&d), "count");
}

#[test]
fn unknown_arms_and_formats_have_no_name() {
    assert_eq!(arm_name(4), "mxfp4_native");
    assert_eq!(arm_name(9), "?");
    assert_eq!(fmt_name(2), "fp8blk");
    assert_eq!(fmt_name(5), "?");
    let mut d = Dispatches::new();
    set_posture(&mut d, POSTURE_COUNT);
    assert!(record(&mut d, 9, 3, 9, 16, "unit").is_none());
    assert_eq!(stats_line(&d), "[dispatch] posture=count no-dispatches |  | violations=0");
}

fn verdict_of(kv: &str, mb: usize, tp: usize) -> bool {
    matches!(kv_lane_check(Some(kv), mb, tp, false), KvLaneVerdict::Accept)
}

#[test]
fn kv_lane_table() {
    for tp in [1usize, 2, 4] {
        assert!(verdict_of("bf16", 1, tp), "bf16 mb1 tp{tp}");
        assert!(verdict_of("bf16", 4, tp), "bf16 mb4 tp{tp}");
        assert!(verdict_of("k8v8", 1, tp), "k8v8 mb1 tp{tp}");
        assert!(!verdict_of("k8v8", 4, tp), "k8v8 mb4 tp{tp} must fail fast");
        assert!(verdict_of("q4", 4, tp), "q4 mb4 tp{tp}");
        assert!(verdict_of("tq", 4, tp), "tq mb4 tp{tp}");
    }
}

#[test]
fn kv_lane_reject_message_is_actionable() {
    match kv_lane_check(Some("k8v8"), 4, 4, false) {
        KvLaneVerdict::Reject(m) => {
            assert!(m.contains("k8v8"), "{m}");
            assert!(m.contains("max-batch 4 > 1"), "{m}");
            assert!(m.contains("--kv-cache bf16"), "{m}");
            assert!(m.contains("--max-batch 1"), "{m}");
        }
        KvLaneVerdict::Accept => panic!("k8v8 x mb4 must be rejected"),
    }
}

#[test]
fn kv_lane_default_is_ok() {
    assert_eq!(kv_lane_check(None, 8, 4, false), KvLaneVerdict::Accept);
}

#[test]
fn kv_lane_can_be_forced() {
    assert!(matches!(kv_lane_check(None, 2, 1, true), KvLaneVerdict::Reject(_)));
    assert_eq!(kv_lane_check(Some("bf16"), 1, 1, true), KvLaneVerdict::Accept);
}

#[test]
fn a_read_gives_back_what_was_written() {
    let config = ModelConfig { num_layers: 2, num_kv_heads: 2, head_dim: 3, max_seq_len: 4 };
    let mut c = KVCache::new(&config);
    assert_eq!(c.current_len, 0);
    assert_eq!(c.read_k(1, 3), vec![0; 6]);
    c.write_kv(1, 2, vec![1, 2, 3, 4, 5, 6], vec![7, 8, 9, 10, 11, 12]);
    c.advance();
    assert_eq!(c.current_len, 1);
    assert_eq!(c.read_k(1, 2), vec![1, 2, 3, 4, 5, 6]);
    assert_eq!(c.read_v(1, 2), vec![7, 8, 9, 10, 11, 12]);
    assert_eq!(c.read_k(0, 2), vec![0; 6]);
    assert_eq!(c.read_v(1, 3), vec![0; 6]);
    c.reset();
    assert_eq!(c.current_len, 0);
    assert_eq!(c.read_k(1, 2), vec![1, 2, 3, 4, 5, 6]);
}

#[test]
fn step_times_are_kept_in_a_ring() {
    let mut t = Telemetry::new();
    note_step(&mut t, 1000);
    assert!(snapshot(&t).samples.is_empty());
    note_step(&mut t, 1100);
    note_step(&mut t, 1100);
    note_step(&mut t, 1130);
    assert_eq!(snapshot(&t).samples, vec![30_000, 100_000]);
    for _ in 0..256 {
        ring_push_us(&mut t, 5);
    }
    assert_eq!(snapshot(&t).samples, vec![5; 256]);
    ring_push_us(&mut t, u64::MAX);
    assert_eq!(snapshot(&t).samples[255], u32::MAX);
    assert_eq!(t.ring_n, 259);
}

#[test]
fn publishing_sets_the_mode() {
    let mut t = Telemetry::new();
    set_boot(&mut t, 4, 8);
    assert_eq!((t.tp_world, t.df2_block), (4, 8));
    assert_eq!(snapshot(&t).mode, "none");
    publish_mtp(&mut t, 7, 10, 30, 20, 25, 10, 3, &[(9, 10), (5, 9), (2, 5), (1, 2)]);
    let s = snapshot(&t);
    assert_eq!(s.mode, "mtp");
    assert_eq!(t.updated_ms, 7);
    assert_eq!(
        s.mtp_accept_at,
        vec![
            AcceptAt { k: 1, accepted: 9, offered: 10 },
            AcceptAt { k: 2, accepted: 5, offered: 9 },
            AcceptAt { k: 3, accepted: 2, offered: 5 },
        ]
    );
    publish_df2(&mut t, 8, 1, 7, 3, 4);
    assert_eq!(snapshot(&t).mode, "dflash2");
    publish_df2_tree(&mut t, 9, 1, 15, 0);
    assert_eq!(snapshot(&t).mode, "dflash2-tree");
    assert_eq!((t.tree.steps, t.tree.nodes, t.tree.rescues), (1, 15, 0));
    publish_dflash(&mut t, 10, 1, 15, 4, 5, 16, &[(1, 1); 20]);
    let s = snapshot(&t);
    assert_eq!(s.mode, "dflash");
    assert_eq!(s.dflash_accept_at.len(), 16);
    assert_eq!(t.mode, Mode::DFlash);
    assert_eq!(mode_name(Mode::Idle), "none");
}
