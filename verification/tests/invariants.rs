use gb10_infer::batch::admission::{AdmitOptions, BatchRequest};
use gb10_infer::batch::layout::state_layout;
use gb10_infer::batch::policy::{MtpPolicy, Tick};
use gb10_infer::batch::rings::Df2Ring;
use gb10_infer::batch::rng::splitmix64;
use gb10_infer::batch::route::Route;
use gb10_infer::batch::scheduler::{BatchScheduler, Opening};
use gb10_infer::batch::sources::{Domain, SpecSource};
use gb10_infer::dflash::shape::{attention, draft_kernel_name, Attention, DRAFT_KERNELS};
use gb10_infer::dspark::kernels::{
    draft_round_kernels, launch, loaded_name, AttnKind, Borrowed, RoundOptions, LOADED,
};
use gb10_infer::single::Single;

fn single(x: f32) -> Single {
    Single { bits: x.to_bits() }
}

fn setup(max_batch: usize) -> Opening {
    Opening {
        max_batch,
        kv_stride: 4096,
        eos: vec![2],
        prefix_cache: true,
        ngram_draft: 0,
        tree_draft: false,
        mtp_lanes: true,
        gpu_sample: true,
        draft_dir: false,
        step_dump: false,
    }
}

fn request(prompt: Vec<u32>, max_new: usize) -> BatchRequest {
    BatchRequest {
        prompt,
        max_new,
        temperature: single(0.0),
        top_p: single(1.0),
        top_k: 40,
        rep_penalty: single(1.0),
        presence_penalty: single(0.0),
        frequency_penalty: single(0.0),
        min_new: 0,
        ignore_eos: false,
        client: 0,
        seed: Some(1),
        ckpt_at: None,
        domain: Domain::Code,
        image_embeds: None,
        image_spans: vec![],
        schema: None,
    }
}

fn take_in(s: &mut BatchScheduler, req: BatchRequest) {
    let o = AdmitOptions {
        grid_reuse: true,
        dspark_ring_blind: false,
        df2_len_only: false,
        derived_seed: 0,
    };
    s.admit_request(req, o);
    while s.pf.is_some() {
        if s.pf_window().is_some() {
            s.pf_advance(7, true, true);
        } else {
            s.pf_finish();
        }
        audit(s);
    }
}

/// Every slot has one holder, and every lane's slot has consumed what its position says.
fn audit(s: &BatchScheduler) {
    let mut held: Vec<usize> = s.free_slots.clone();
    held.extend(s.lanes.iter().map(|l| l.phys));
    held.extend(s.pf.iter().map(|c| c.phys));
    held.sort();
    assert_eq!(held, (0..s.setup.max_batch).collect::<Vec<usize>>());
    for (l, done) in s.lanes.iter().zip(&s.done) {
        if !done {
            assert_eq!(s.slots.cache[l.phys].len(), l.pos);
            assert!(l.pos < s.setup.kv_stride);
        }
    }
}

#[test]
fn a_long_run_keeps_the_invariants() {
    let policy = MtpPolicy::with_source(true, Some(true), None, vec![], SpecSource::Mtp);
    let mut s = BatchScheduler::new(setup(3), policy);
    let mut key = 42u64;
    for round in 0..300u32 {
        key = splitmix64(key);
        if s.may_take() && key % 3 == 0 {
            let len = 1 + (key >> 8) % 700;
            take_in(&mut s, request((0..len as u32).map(|t| t % 11 + 3).collect(), 1 + (key >> 20) as usize % 9));
        }
        let n = s.num_active();
        let plan = s.plan_step(&vec![false; n]);
        let lanes_before: Vec<usize> = s.lanes.iter().map(|l| l.phys).collect();
        let pack: Vec<usize> = (0..n).filter(|&i| plan.routes[i] == Route::Pack).collect();
        if !pack.is_empty() {
            let drafts = vec![vec![5u32]; pack.len()];
            let starts: Vec<usize> = (0..pack.len()).map(|k| 2 * k).collect();
            let preds: Vec<u32> = (0..2 * pack.len() as u32).map(|c| 5 + (key as u32 + c) % 2).collect();
            s.mtp_forest_step(&pack, &drafts, &starts, &preds);
        }
        for i in (0..n).filter(|&i| plan.routes[i] == Route::Head) {
            s.mtp_lane_step(i, &vec![5, 6], &vec![5, 6 + round % 2, 2 + (key % 5) as u32], None);
        }
        let batch: Vec<usize> = (0..n).filter(|&i| plan.routes[i] == Route::Batch).collect();
        let next = vec![2 + (key % 4) as u32; batch.len()];
        s.commit_batch(&batch, &next);
        audit(&s);
        let going: Vec<usize> =
            (0..n).filter(|&i| !s.done[i] && !plan.cancelled[i]).map(|i| lanes_before[i]).collect();
        s.compact(&plan.cancelled);
        assert_eq!(s.lanes.iter().map(|l| l.phys).collect::<Vec<usize>>(), going);
        audit(&s);
    }
    assert!(s.stats.mtp.steps > 0);
}

#[test]
fn plain_lanes_are_batched() {
    let policy = MtpPolicy::with_source(true, Some(true), None, vec![], SpecSource::Plain);
    let mut s = BatchScheduler::new(setup(2), policy);
    take_in(&mut s, request(vec![3, 4], 5));
    assert_eq!(s.plan_step(&vec![false]).routes, vec![Route::Batch]);
    s.mtp.set_spec_source(SpecSource::Mtp);
    assert_eq!(s.plan_step(&vec![false]).routes, vec![Route::Head]);
}

#[test]
fn a_ring_drafter_serves_one_lane() {
    let policy = MtpPolicy::with_source(true, Some(true), None, vec![], SpecSource::DFlash2);
    let ring = Df2Ring { nprev: 0, ring_slot: None, ring_len: 0 };
    let mut s = BatchScheduler::with_df2(setup(2), policy, Some(ring), true, None, false);
    take_in(&mut s, request(vec![3, 4], 5));
    assert_eq!(s.plan_step(&vec![false]).routes, vec![Route::Selector]);
    take_in(&mut s, request(vec![5, 6], 5));
    assert_eq!(s.plan_step(&vec![false; 2]).routes, vec![Route::Pack; 2]);
}

#[test]
fn a_claim_outlives_a_shorter_prompt() {
    let policy = MtpPolicy::with_source(true, Some(true), None, vec![], SpecSource::DFlash2);
    let ring = Df2Ring { nprev: 0, ring_slot: None, ring_len: 0 };
    let mut s = BatchScheduler::with_df2(setup(1), policy, Some(ring), true, None, false);
    let prompt: Vec<u32> = (10..20).collect();
    take_in(&mut s, request(prompt.clone(), 5));
    s.df2_lane_step(0, &vec![1], &vec![2, 0]);
    s.compact(&vec![false]);
    assert_eq!(s.df2.map(|r| (r.ring_slot, r.ring_len)), Some((Some(0), 11)));
    let o = AdmitOptions {
        grid_reuse: true,
        dspark_ring_blind: false,
        df2_len_only: false,
        derived_seed: 0,
    };
    // The prompt leaves no room: the claim is still about the same tokens.
    s.setup.kv_stride = 20;
    s.admit_request(request(prompt[..5].to_vec(), 5), o);
    assert_eq!(s.df2.and_then(|r| r.ring_slot), Some(0));
    s.admit_request(request(vec![99, 98], 5), o);
    assert_eq!(s.df2.and_then(|r| r.ring_slot), None);
}

#[test]
fn a_policy_that_was_forced_is_left_alone() {
    let mut p = MtpPolicy::with_source(true, Some(true), None, vec![], SpecSource::Mtp);
    for _ in 0..500 {
        p.record_step(3, 0, 1);
        assert_eq!(p.begin_tick(100), Tick::Idle);
    }
    assert!(p.active());
    let mut p = MtpPolicy::with_source(true, None, None, vec![], SpecSource::Mtp);
    let mut weighed = 0;
    let mut probed = 0;
    for _ in 0..5000 {
        if p.active() {
            p.record_step(3, 0, 1);
        }
        match p.begin_tick(100) {
            Tick::Idle => {}
            Tick::Reprobe => probed += 1,
            Tick::Evaluate(_) => {
                weighed += 1;
                p.settle(4, false);
            }
        }
    }
    assert!(weighed > 1 && probed > 0);
}

#[test]
fn launched_kernels_are_loaded() {
    let names: Vec<&str> = (0..LOADED).map(loaded_name).collect();
    for attn in [AttnKind::Scores, AttnKind::Tiled, AttnKind::Split, AttnKind::Tensor] {
        for head in [Borrowed::Bf16, Borrowed::Nvfp4, Borrowed::TwoStage] {
            for first_plain in [false, true] {
                let o = RoundOptions {
                    attn,
                    head,
                    embed: Borrowed::Bf16,
                    rope_interleaved: first_plain,
                    first_plain,
                    scan_broadcast: false,
                    sms: 48,
                };
                for s in draft_round_kernels(&o) {
                    assert!(names.contains(&launch(&o, s).kernel), "{s:?}");
                }
            }
        }
    }
    let names: Vec<&str> = (0..DRAFT_KERNELS).map(draft_kernel_name).collect();
    for hd in [32, 64, 96, 128, 256, 512] {
        for nh in 1..33 {
            if let Attention::Tiled { kernel, .. } = attention(hd, nh, 1, 4, false) {
                assert!(names.contains(&kernel));
            }
        }
    }
}

#[test]
fn every_column_has_a_checkpoint() {
    for width in 1..=8usize {
        let l = state_layout(2, true, false, false, false);
        assert!(width == 8 || l.snapshot_slot + width - 1 < l.snapshot_slot + l.n_ckpt);
    }
}

#[test]
fn a_pinned_depth_stays() {
    let costs = vec![(2048usize, vec![(2usize, single(1.0)), (3, single(1.1)), (6, single(1.2))])];
    let mut p = MtpPolicy::with_source(true, None, Some(20), costs.clone(), SpecSource::Mtp);
    let fixed = p.depth();
    for k in 0..400 {
        p.record_step(3, k % 4, 1 + k % 4);
        if let Tick::Evaluate(_) = p.begin_tick(1000) {
            assert!(p.candidates(1000).is_empty());
            p.settle(fixed, k % 3 != 0);
        }
        assert_eq!(p.depth(), fixed);
    }
    let free = MtpPolicy::with_source(true, None, None, costs, SpecSource::Mtp);
    assert_eq!(free.candidates(1000).iter().map(|c| c.0).collect::<Vec<usize>>(), vec![2, 3, 6]);
}

#[test]
fn counts_stop_at_the_deepest_offer() {
    let mut p = MtpPolicy::with_source(true, Some(true), None, vec![], SpecSource::Mtp);
    assert!(p.hazard_counts().is_empty());
    p.record_step(3, 2, 3);
    p.record_step(1, 0, 1);
    assert_eq!(p.hazard_counts(), vec![(1, 2), (1, 1), (0, 1)]);
}
