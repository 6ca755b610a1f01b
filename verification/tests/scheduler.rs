use gb10_infer::batch::admission::{AdmitOptions, BatchRequest};
use gb10_infer::batch::bench::{
    bench_request, log_draft_step, r9_register_state, LiveState, SpecBenchJob, SpecStepRec, StepLog,
};
use gb10_infer::batch::commit::{mask_chain, point_ratios, reject_sample};
use gb10_infer::batch::draft::{alternates, draft_count, lookup_draft, next_draft, two_branch_tree};
use gb10_infer::batch::forest::{pack, pack_depth, Chain};
use gb10_infer::batch::inputs::Dispatch;
use gb10_infer::batch::lane::{emit, has_penalties, remember, schema_advance, Params, TokEvent};
use gb10_infer::batch::layout::{captures_graphs, keeps_graphs, state_layout, StateLayout};
use gb10_infer::batch::penalty::{
    make_forest_penalty, make_penalty, penalty_row, LaneColumns, PenaltyKey,
};
use gb10_infer::batch::policy::MtpPolicy;
use gb10_infer::batch::prefix::ImageSpan;
use gb10_infer::batch::rings::Df2Ring;
use gb10_infer::batch::rng::{rng_mantissa, rng_u32, seeds, splitmix64, RNG_DOM_ACCEPT, RNG_DOM_SAMPLE};
use gb10_infer::batch::route::Route;
use gb10_infer::batch::scheduler::{BatchScheduler, Opening};
use gb10_infer::batch::sources::{Domain, SpecSource};
use gb10_infer::batch::tp::{compare_tokens, Agreement};
use gb10_infer::dspark::round::DsparkRound;
use gb10_infer::json_schema::{compile_response_format, parse_json, SchemaMask};
use gb10_infer::single::Single;

fn single(x: f32) -> Single {
    Single { bits: x.to_bits() }
}

fn setup(max_batch: usize, kv_stride: usize) -> Opening {
    Opening {
        max_batch,
        kv_stride,
        eos: vec![2],
        prefix_cache: true,
        ngram_draft: 0,
        tree_draft: false,
        mtp_lanes: false,
        gpu_sample: true,
        draft_dir: false,
        step_dump: false,
    }
}

fn policy(on: bool, src: SpecSource) -> MtpPolicy {
    MtpPolicy::with_source(true, Some(on), None, vec![], src)
}

fn request(client: u64, prompt: Vec<u32>, max_new: usize) -> BatchRequest {
    BatchRequest {
        prompt,
        max_new,
        temperature: single(0.0),
        top_p: single(1.0),
        top_k: 40,
        rep_penalty: single(1.0),
        presence_penalty: single(0.0),
        frequency_penalty: single(0.0),
        min_new: 0,
        ignore_eos: false,
        client,
        seed: Some(7),
        ckpt_at: None,
        domain: Domain::General,
        image_embeds: None,
        image_spans: vec![],
        schema: None,
    }
}

fn options(grid: bool) -> AdmitOptions {
    AdmitOptions { grid_reuse: grid, dspark_ring_blind: false, df2_len_only: false, derived_seed: 99 }
}

/// Prefills the cursor to the end; the model chooses `tok` behind every window. Returns the windows.
fn prefill(s: &mut BatchScheduler, tok: u32) -> (Vec<(usize, usize)>, Option<u32>) {
    let mut windows = vec![];
    let mut first = None;
    while s.pf.is_some() {
        match s.pf_window() {
            Some(w) => {
                windows.push((w.w0, w.w1));
                let r = s.pf_advance(tok, true, true);
                if r.first.is_some() {
                    first = r.first;
                }
            }
            None => {
                let r = s.pf_finish();
                if r.first.is_some() {
                    first = r.first;
                }
            }
        }
    }
    (windows, first)
}

fn running(max_batch: usize, on: bool, src: SpecSource, n: usize) -> BatchScheduler {
    let mut s = BatchScheduler::new(setup(max_batch, 4096), policy(on, src));
    for k in 0..n {
        let prompt = vec![10 + k as u32, 20, 30];
        assert!(s.admit_request(request(k as u64, prompt, 50), options(true)).refused.is_none());
        prefill(&mut s, 40 + k as u32);
    }
    s
}

fn schema(text: &str) -> SchemaMask {
    let rf = format!("{{\"type\":\"json_schema\",\"schema\":{text}}}");
    let mut m = compile_response_format(&parse_json(&rf).unwrap()).unwrap().unwrap();
    m.set_vocab((0u32..256).map(|b| (b, vec![b as u8])).collect());
    m
}

#[test]
fn a_request_becomes_a_lane() {
    let mut s = BatchScheduler::new(setup(2, 4096), policy(false, SpecSource::Mtp));
    assert_eq!(s.free_slots, vec![1, 0]);
    assert!(s.may_take() && s.idle());
    let r = s.admit_request(request(5, vec![1, 2, 3], 10), options(true));
    assert!(r.refused.is_none() && r.restore.is_none());
    assert!(!s.may_take() && !s.idle());
    assert_eq!(s.free_slots, vec![1]);
    let (windows, first) = prefill(&mut s, 77);
    assert_eq!(windows, vec![(0, 3)]);
    assert_eq!(first, Some(77));
    assert_eq!(s.num_active(), 1);
    let l = &s.lanes[0];
    assert_eq!((l.phys, l.pos, l.last_tok, l.generated, l.mtp_pos), (0, 3, 77, 1, 2));
    assert_eq!(l.history, vec![77]);
    assert_eq!(l.seed, 7);
    assert!(l.params.greedy && !l.mtp_primed && !l.df2_primed);
    assert_eq!(s.slots.cache[0], vec![1, 2, 3]);
}

#[test]
fn windows_are_cut_on_the_grid() {
    let mut s = BatchScheduler::new(setup(1, 40000), policy(false, SpecSource::Mtp));
    let prompt: Vec<u32> = (0..1300).collect();
    s.admit_request(request(0, prompt, 10), options(true));
    let (windows, _) = prefill(&mut s, 1);
    assert_eq!(windows, vec![(0, 512), (512, 1024), (1024, 1300)]);
    assert_eq!(&s.slots.ring_len[0][..3], &[512, 1024, 0]);
    assert_eq!(s.slots.ring_cursor[0], 2);

    let mut plain = setup(1, 40000);
    plain.prefix_cache = false;
    let mut s = BatchScheduler::new(plain, policy(false, SpecSource::Mtp));
    s.admit_request(request(0, (0..9000).collect(), 10), options(true));
    let (windows, _) = prefill(&mut s, 1);
    assert_eq!(windows, vec![(0, 8192), (8192, 9000)]);

    let mut s = BatchScheduler::new(setup(1, 40000), policy(false, SpecSource::Mtp));
    let mut req = request(0, (0..700).collect(), 10);
    req.ckpt_at = Some(600);
    s.admit_request(req, options(false));
    let (windows, _) = prefill(&mut s, 1);
    assert_eq!(windows, vec![(0, 512), (512, 600), (600, 700)]);
    assert_eq!(s.slots.ckpt_seq[0], (0..600).collect::<Vec<u32>>());
}

#[test]
fn prompts_resume_where_a_state_stands() {
    let mut s = BatchScheduler::new(setup(2, 40000), policy(false, SpecSource::Mtp));
    let prompt: Vec<u32> = (0..1300).collect();
    s.admit_request(request(0, prompt.clone(), 1), options(true));
    prefill(&mut s, 5);
    let p = s.plan_step(&vec![false]);
    assert_eq!(p.routes, vec![Route::Batch]);
    s.commit_batch(&vec![0], &vec![2]);
    let told = s.compact(&p.cancelled);
    assert_eq!(told.len(), 1);
    assert_eq!(told[0].0, 0);
    assert!(matches!(&told[0].1, TokEvent::Finish { reason } if reason == "length"));
    assert_eq!(s.free_slots, vec![1, 0]);

    let mut longer = prompt.clone();
    longer.extend([5, 9, 9]);
    let r = s.admit_request(request(1, longer.clone(), 10), options(true));
    let base = s.setup.layout.ring_ckpt_slot;
    assert_eq!(r.restore, Some(base + 1));
    let c = s.pf.as_ref().unwrap();
    assert_eq!((c.phys, c.reuse, c.w0), (0, 1024, 1024));
    let (windows, _) = prefill(&mut s, 6);
    assert_eq!(windows, vec![(1024, 1303)]);
    let p = s.plan_step(&vec![true]);
    assert_eq!(p.cancelled, vec![true]);
    s.commit_batch(&vec![0], &vec![3]);
    let told = s.compact(&p.cancelled);
    assert!(matches!(&told[0].1, TokEvent::Finish { reason } if reason == "stop"));

    // Token by token: the live state reaches further.
    let mut next = s.slots.cache[0].clone();
    assert_eq!(next.len(), 1304);
    next.push(1);
    let r = s.admit_request(request(2, next, 10), options(false));
    assert_eq!(r.restore, None);
    assert_eq!(s.pf.as_ref().unwrap().reuse, 1304);
}

#[test]
fn requests_without_room_are_turned_away() {
    let mut s = BatchScheduler::new(setup(1, 64), policy(true, SpecSource::Mtp));
    let r = s.admit_request(request(0, (0..64).collect(), 10), options(true));
    assert_eq!(r.refused.as_deref(), Some("context_length_exceeded"));
    assert_eq!(s.free_slots, vec![0]);
    let r = s.admit_request(request(0, (0..48).collect(), 10), options(true));
    assert_eq!(r.refused.as_deref(), Some("context_length_exceeded"));
    let r = s.admit_request(request(0, (0..47).collect(), 10), options(true));
    assert!(r.refused.is_none());
    assert_eq!(s.pf.as_ref().unwrap().params.max_new, 1);
    prefill(&mut s, 9);
    let r = s.admit_request(request(1, vec![1], 10), options(true));
    assert_eq!(r.refused.as_deref(), Some("capacity"));

    let mut s = BatchScheduler::new(setup(1, 64), policy(false, SpecSource::Mtp));
    let r = s.admit_request(request(0, (0..48).collect(), 100), options(true));
    assert!(r.refused.is_none());
    assert_eq!(s.pf.as_ref().unwrap().params.max_new, 15);
}

#[test]
fn a_seed_is_derived_where_none_is_given() {
    let mut s = BatchScheduler::new(setup(1, 64), policy(false, SpecSource::Mtp));
    let mut req = request(0, vec![1], 4);
    req.seed = None;
    s.admit_request(req, options(true));
    assert_eq!(s.pf.as_ref().unwrap().seed, 99);
}

#[test]
fn a_batched_step_moves_every_lane_by_one() {
    let mut s = running(3, false, SpecSource::Mtp, 3);
    let p = s.plan_step(&vec![false, false, false]);
    assert_eq!(p.routes, vec![Route::Batch; 3]);
    let mode = s.batch_mode(&vec![0, 1, 2], false, true, true);
    assert_eq!(mode.dispatch, Dispatch::Graph);
    assert_eq!(mode.max_pc, 4);
    let u = s.batch_inputs(&vec![0, 1, 2], 8);
    assert_eq!(u.toks, vec![40, 41, 42]);
    assert_eq!(u.pos, vec![3, 3, 3]);
    assert_eq!(u.slot_ids, vec![0, 1, 2]);
    assert!(u.penalties.is_none());
    s.commit_batch(&vec![0, 1, 2], &vec![100, 2, 102]);
    assert_eq!(s.done, vec![false, true, false]);
    assert_eq!(s.deepest(), 4);
    let told = s.compact(&p.cancelled);
    assert_eq!(told.len(), 1);
    assert_eq!(told[0].0, 1);
    assert!(matches!(&told[0].1, TokEvent::Finish { reason } if reason == "stop"));
    assert_eq!(s.num_active(), 2);
    assert_eq!((s.lanes[0].phys, s.lanes[1].phys), (0, 2));
    assert_eq!(s.free_slots, vec![1]);
    assert_eq!(s.slots.cache[2], vec![12, 20, 30, 42]);
    assert!(s.lanes[1].mtp_stale && s.lanes[1].df2_stale);
    assert_eq!(s.lanes[1].last_tok, 102);
}

#[test]
fn a_chain_step_commits_the_accepted_drafts() {
    let mut s = running(1, true, SpecSource::Mtp, 1);
    let p = s.plan_step(&vec![false]);
    assert_eq!(p.routes, vec![Route::Head]);
    let step = s.mtp_lane_step(0, &vec![50, 51, 52], &vec![50, 51, 99, 7], None);
    assert_eq!(step.emission.tokens, vec![50, 51, 99]);
    assert_eq!(step.emission.accepted, 2);
    assert!(!step.emission.finished);
    assert_eq!(step.restore, Some(s.setup.layout.snapshot_slot + 2));
    assert_eq!(step.fed, vec![40, 50, 51]);
    let l = &s.lanes[0];
    assert_eq!((l.pos, l.last_tok, l.generated, l.mtp_pos), (6, 99, 4, 5));
    assert_eq!(s.slots.cache[0], vec![10, 20, 30, 40, 50, 51]);
    assert_eq!(l.history, vec![40, 50, 51, 99]);
    assert_eq!((s.stats.mtp.steps, s.stats.mtp.drafts, s.stats.mtp.accepted), (1, 3, 2));
    assert_eq!(s.stats.mtp.emitted, 3);
    assert_eq!(s.mtp.hazard_counts(), vec![(1, 1), (1, 1), (0, 1)]);
    let whole = s.mtp_lane_step(0, &vec![1, 3], &vec![1, 3, 4], None);
    assert_eq!(whole.restore, None);
    assert_eq!(whole.emission.accepted, 2);
}

#[test]
fn the_budget_counts_drafts_too() {
    let mut s = BatchScheduler::new(setup(1, 4096), policy(true, SpecSource::Mtp));
    s.admit_request(request(0, vec![1, 2], 3), options(true));
    prefill(&mut s, 9);
    let step = s.mtp_lane_step(0, &vec![5, 6, 7], &vec![5, 6, 7, 8], None);
    assert_eq!(step.emission.tokens, vec![5, 6]);
    assert!(step.emission.finished);
    assert_eq!(s.lanes[0].generated, 3);
    assert_eq!(s.done, vec![true]);
    assert_eq!(s.slots.cache[0], vec![1, 2, 9, 5, 6, 7]);
    let told = s.compact(&vec![false]);
    assert!(matches!(&told[0].1, TokEvent::Finish { reason } if reason == "length"));
}

#[test]
fn sampled_steps_draw_from_the_key() {
    let mut s = running(1, true, SpecSource::Mtp, 1);
    s.lanes[0].params.greedy = false;
    let p = s.plan_step(&vec![false]);
    assert_eq!(p.routes, vec![Route::HeadSample]);
    let step = s.mtp_lane_step_sample(
        0,
        &vec![50, 51],
        &vec![single(1.0), single(0.0)],
        &vec![60, 61],
        70,
    );
    assert_eq!(step.emission.tokens, vec![50, 61]);
    assert_eq!(step.emission.accepted, 1);
    assert_eq!(s.lanes[0].seed, splitmix64(7));
    assert_eq!((s.lanes[0].pos, s.lanes[0].last_tok), (5, 61));
    let step = s.mtp_lane_step_sample(0, &vec![1], &vec![single(1.0)], &vec![3], 71);
    assert_eq!(step.emission.tokens, vec![1, 71]);
    assert_eq!(step.restore, None);
}

#[test]
fn rejection_compares_the_draw_with_the_ratio() {
    let u = rng_mantissa(7, RNG_DOM_ACCEPT, 0) as f32 / 16777216.0;
    let above = f32::from_bits(u.to_bits() + 1);
    let (list, n) = reject_sample(7, &vec![5], &vec![single(above)], &vec![6], 8);
    assert_eq!((list, n), (vec![5, 8], 1));
    let (list, n) = reject_sample(7, &vec![5], &vec![single(u)], &vec![6], 8);
    assert_eq!((list, n), (vec![6], 0));
    assert_eq!(
        point_ratios(&vec![single(0.5), single(2.0), single(f32::NAN)]),
        vec![single(0.5), single(1.0), single(1.0)]
    );
}

#[test]
fn units_are_exact_singles() {
    for m in [0u32, 1, 2, 3, 0x7F_FFFF, 0x80_0000, 0xFF_FFFF, 0x12_3456] {
        assert_eq!(Single::unit(m), single(m as f32 / 16777216.0));
    }
    assert!(single(-1.0).less(single(0.0)));
    assert!(!single(0.0).less(single(-0.0)));
    assert!(!single(f32::NAN).less(single(1.0)));
    assert!(single(1.5).less(single(f32::INFINITY)));
}

#[test]
fn the_generator_is_splitmix() {
    assert_eq!(splitmix64(0), 0xE220A8397B1DCDAF);
    assert_eq!(seeds(3, RNG_DOM_SAMPLE, 2), vec![rng_u32(3, RNG_DOM_SAMPLE, 0), rng_u32(3, RNG_DOM_SAMPLE, 1)]);
    assert_ne!(rng_u32(3, RNG_DOM_SAMPLE, 0), rng_u32(3, RNG_DOM_ACCEPT, 0));
}

#[test]
fn a_tree_step_follows_the_targets_choice() {
    let mut s = running(1, true, SpecSource::Mtp, 1);
    s.setup.tree_draft = true;
    assert_eq!(s.plan_step(&vec![false]).routes, vec![Route::HeadTree]);
    let r = s.mtp_tree_step(0, &vec![-1, 0, 0, 2], &vec![40, 10, 20, 30], &vec![20, 5, 30, 88]);
    assert_eq!(r.path, vec![0, 2, 3]);
    assert_eq!(r.step.emission.tokens, vec![20, 30, 88]);
    assert_eq!(r.step.restore, None);
    assert_eq!(s.slots.cache[0], vec![10, 20, 30, 40, 20, 30]);
    let r = s.mtp_tree_step(0, &vec![-1, 0, 0], &vec![88, 1, 3], &vec![1, 9, 9]);
    assert_eq!(r.step.restore, Some(s.setup.layout.snapshot_slot + 1));
}

#[test]
fn lanes_share_a_verify() {
    let mut s = running(3, true, SpecSource::Mtp, 3);
    s.setup.mtp_lanes = true;
    s.lanes[1].params.greedy = false;
    let p = s.plan_step(&vec![false; 3]);
    assert_eq!(p.routes, vec![Route::Pack, Route::HeadSample, Route::Pack]);
    assert_eq!(pack_depth(2, 4), 4);
    assert_eq!(pack_depth(5, 8), 2);
    assert_eq!(pack_depth(6, 8), 1);
    let chains = vec![s.chain(0, vec![1, 3]), s.chain(2, vec![4])];
    let f = pack(&chains, 4);
    assert_eq!(f.starts, vec![0, 3]);
    assert_eq!(f.tokens, vec![40, 1, 3, 42, 4]);
    assert_eq!(f.parent, vec![-1, 0, 1, -1, 3]);
    assert_eq!(f.slot, vec![0, 0, 0, 2, 2]);
    assert_eq!(f.rope, vec![3, 4, 5, 3, 4]);
    assert_eq!(&f.winsrc[..4], &[-3, -2, -1, 0]);
    assert_eq!(&f.winsrc[4 * 4..], &[-2, -1, 3, 4]);
    assert_eq!(&f.path[2 * 16..2 * 16 + 4], &[0, 1, 2, 0]);
    let steps = s.mtp_forest_step(
        &vec![0, 2],
        &vec![vec![1, 3], vec![4]],
        &f.starts,
        &vec![1, 9, 9, 4, 5],
    );
    assert_eq!(steps[0].emission.tokens, vec![1, 9]);
    assert_eq!(steps[0].restore, Some(s.setup.layout.snapshot_slot + 1));
    assert_eq!(steps[1].emission.tokens, vec![4, 5]);
    assert_eq!(steps[1].restore, None);
    assert_eq!((s.stats.mtp.steps, s.stats.mtp_verify_fwds), (2, 1));
    assert_eq!(s.slots.cache[2], vec![12, 20, 30, 42, 4]);
    assert_eq!(s.mtp.win_steps, 0);
}

#[test]
fn a_single_lane_is_not_packed() {
    let mut s = running(2, true, SpecSource::Mtp, 2);
    s.setup.mtp_lanes = true;
    s.lanes[1].mtp_stale = true;
    assert_eq!(s.plan_step(&vec![false; 2]).routes, vec![Route::Head, Route::Batch]);
    s.setup.mtp_lanes = false;
    assert_eq!(s.plan_step(&vec![false; 2]).routes, vec![Route::Batch, Route::Batch]);
}

#[test]
fn the_selector_serves_a_lane_that_is_alone() {
    let mut s = BatchScheduler::with_df2(
        setup(2, 4096),
        policy(true, SpecSource::DFlash2Auto),
        Some(Df2Ring { nprev: 0, ring_slot: None, ring_len: 0 }),
        true,
        None,
        false,
    );
    s.admit_request(request(0, vec![1, 3, 5], 50), options(true));
    prefill(&mut s, 9);
    assert!(s.lanes[0].df2_primed);
    assert_eq!(s.df2.unwrap().nprev, 3);
    assert_eq!(s.plan_step(&vec![false]).routes, vec![Route::SelectorRq]);
    s.lanes[0].params.domain = Domain::Code;
    assert_eq!(s.plan_step(&vec![false]).routes, vec![Route::Selector]);
    let step = s.df2_lane_step(0, &vec![6, 7, 8], &vec![6, 0, 0, 0]);
    assert_eq!(step.emission.tokens, vec![6, 0]);
    let ring = s.df2.unwrap();
    assert_eq!((ring.nprev, ring.ring_slot, ring.ring_len), (5, Some(0), 5));
    assert_eq!(s.stats.df2.steps, 1);
    let step = s.df2_lane_step_sample(0, &vec![6], &vec![single(0.0)], &vec![11], 12);
    assert_eq!(step.emission.tokens, vec![11]);
    let step = s.df2_lane_step_sample_rq(0, &vec![6], &vec![single(1.0)], &vec![11], 12);
    assert_eq!(step.emission.tokens, vec![6, 12]);
    assert_eq!(s.df2.unwrap().nprev, 8);

    // A step of the head leaves the ring behind.
    s.mtp.set_spec_source(SpecSource::Mtp);
    assert_eq!(s.plan_step(&vec![false]).routes, vec![Route::Head]);
    assert!(s.lanes[0].df2_stale);
    s.mtp.set_spec_source(SpecSource::DFlash2);
    assert_eq!(s.plan_step(&vec![false]).routes, vec![Route::Head]);
}

#[test]
fn the_selectors_tree_rescues_a_branch() {
    let mut s = BatchScheduler::with_df2(
        setup(1, 4096),
        policy(true, SpecSource::DFlash2Tree),
        Some(Df2Ring { nprev: 0, ring_slot: None, ring_len: 0 }),
        true,
        None,
        false,
    );
    s.admit_request(request(0, vec![1, 3, 5], 50), options(true));
    prefill(&mut s, 9);
    assert_eq!(s.plan_step(&vec![false]).routes, vec![Route::SelectorTree]);
    let drafts: Vec<u32> = (100..107).collect();
    let mut table = vec![];
    for j in 0..7u32 {
        table.extend((0..16).map(|c| if c == 0 { 100 + j } else { 200 + 10 * j + c }));
    }
    let b = alternates(&drafts, &table);
    assert_eq!(b, vec![201, 211, 221, 231, 241, 251, 261]);
    let (tokens, parent) = two_branch_tree(9, &drafts, &b);
    assert_eq!(parent, vec![-1, 0, 1, 2, 3, 4, 5, 6, 0, 8, 9, 10, 11, 12, 13]);
    let mut preds = vec![0; 15];
    preds[0] = 201;
    preds[8] = 211;
    preds[9] = 3;
    let r = s.df2_tree_step(0, 7, &parent, &tokens, &preds);
    assert_eq!(r.path, vec![0, 8, 9]);
    assert_eq!(r.step.emission.tokens, vec![201, 211, 3]);
    assert_eq!((s.stats.tree_steps, s.stats.tree_nodes, s.stats.tree_rescues), (1, 15, 1));
    let ring = s.df2.unwrap();
    assert_eq!((ring.nprev, ring.ring_slot), (6, None));
    assert_eq!(s.lanes[0].mtp_pos, 5);
}

#[test]
fn alternates_end_where_nothing_is_left() {
    let drafts = vec![1, 3];
    let mut table = vec![1; 16];
    table.extend(vec![4; 16]);
    assert!(alternates(&drafts, &table).is_empty());
    let mut table = vec![4; 16];
    table.extend(vec![4; 16]);
    assert_eq!(alternates(&drafts, &table), vec![4]);
}

fn spark(max_batch: usize) -> BatchScheduler {
    BatchScheduler::with_df2(
        setup(max_batch, 4096),
        policy(true, SpecSource::Dspark),
        None,
        false,
        Some(DsparkRound { nprev: 0, max_c: 4096, ring_slot: None }),
        true,
    )
}

#[test]
fn a_ring_is_carried_to_the_slot_that_it_belongs_to() {
    let mut s = spark(2);
    let prompt: Vec<u32> = (10..610).collect();
    s.admit_request(request(0, prompt.clone(), 50), options(true));
    prefill(&mut s, 9);
    assert_eq!(s.plan_step(&vec![false]).routes, vec![Route::Spark]);
    let drafts: Vec<u32> = (700..707).collect();
    let step = s.dspark_lane_step(0, &drafts, &vec![700, 701, 2, 0, 0, 0, 0, 0]);
    assert_eq!(step.emission.tokens, vec![700, 701, 2]);
    assert!(step.emission.finished);
    let ring = s.dspark.unwrap();
    assert_eq!((ring.nprev, ring.ring_slot), (603, Some(0)));
    assert_eq!(s.slots.dspark_len[0], 603);
    s.compact(&vec![false]);

    let mut longer = prompt.clone();
    longer.extend([9, 700, 701, 2, 8]);
    s.admit_request(request(1, longer, 50), options(true));
    let c = s.pf.as_ref().unwrap();
    assert!(c.dspark_carry && c.will_use_dspark);
    assert_eq!(c.reuse, 512);
    assert_eq!(s.dspark.unwrap().nprev, 512);
    prefill(&mut s, 9);
    assert_eq!(s.dspark.unwrap().nprev, 605);
    let before = s.lanes[0].seed;
    let step = s.dspark_lane_step_sample(0, &drafts, &vec![single(0.0); 7], &vec![31; 7], 32);
    assert_eq!(step.emission.tokens, vec![31]);
    assert_eq!(s.lanes[0].seed, before);
    s.compact(&vec![true]);

    // Another slot's claim carries nothing.
    s.dspark.as_mut().unwrap().note_ring(1);
    let mut again = prompt.clone();
    again.push(1);
    s.admit_request(request(2, again, 50), options(true));
    let c = s.pf.as_ref().unwrap();
    assert!(!c.dspark_carry && !c.will_use_dspark);
    assert_eq!(s.slots.dspark_len[0], 0);
    assert_eq!(s.dspark.unwrap().ring_slot, None);
}

#[test]
fn a_failed_prime_falls_back_to_the_head() {
    let mut s = spark(1);
    s.admit_request(request(0, vec![1, 3, 5], 50), options(true));
    assert!(s.pf_window().is_some());
    s.pf_advance(9, true, false);
    assert!(!s.lanes[0].df2_primed);
    assert_eq!(s.plan_step(&vec![false]).routes, vec![Route::Head]);
}

#[test]
fn the_block_drafter_extends_its_context() {
    let mut s = BatchScheduler::new(setup(1, 4096), policy(true, SpecSource::DFlash));
    s.install_dflash_lane(4, 777);
    s.admit_request(request(0, vec![1, 3, 5], 50), options(true));
    assert!(s.dflash_prime_armed);
    prefill(&mut s, 9);
    assert!(s.dflash_prime_done);
    assert_eq!(s.plan_step(&vec![false]).routes, vec![Route::Block]);
    assert_eq!(s.dflash_block(0), vec![9, 777, 777, 777]);
    let step = s.dflash_lane_step(0, &vec![4, 6, 8], &vec![4, 6, 1, 0]);
    assert_eq!(step.emission.tokens, vec![4, 6, 1]);
    let d = s.dflash.unwrap();
    assert_eq!((d.row0, d.ncols), (3, 3));
    assert_eq!(&s.stats.dflash_acc_n[..4], &[1, 1, 1, 0]);
    assert_eq!(&s.stats.dflash_acc_a[..4], &[1, 1, 0, 0]);
}

#[test]
fn schemas_are_masked_on_every_route() {
    let mut s = BatchScheduler::new(setup(1, 4096), policy(true, SpecSource::Mtp));
    s.setup.tree_draft = true;
    s.setup.mtp_lanes = true;
    let mut req = request(0, vec![1, 3], 50);
    req.schema = Some(schema(r#"{"type":"boolean"}"#));
    s.admit_request(req, options(true));
    let (_, first) = prefill(&mut s, 9);
    assert_eq!(first, None);
    assert_eq!(s.lanes[0].generated, 0);
    assert_eq!(s.plan_step(&vec![false]).routes, vec![Route::Head]);
    let t: Vec<u32> = b"true".iter().map(|&b| b as u32).collect();
    let drafts = vec![t[0], t[1], b'x' as u32];
    let chain = s.lane_masks(0, &drafts, 8).expect("a schema");
    assert_eq!(chain.valid, 2);
    assert_eq!(chain.masks.len(), 4);
    assert!(chain.masks[3].iter().all(|&w| w == 0));
    let bit = |w: &Vec<u32>, t: u32| w[(t >> 5) as usize] >> (t & 31) & 1 == 1;
    assert!(bit(&chain.masks[2], t[2]) && !bit(&chain.masks[2], b'x' as u32));
    let step = s.mtp_lane_step(0, &drafts, &vec![t[0], t[1], t[2], 0], Some(chain.valid));
    assert_eq!(step.emission.tokens, vec![t[0], t[1], t[2]]);
    assert!(!step.emission.finished);
    s.lanes[0].mtp_stale = true;
    assert_eq!(s.plan_step(&vec![false]).routes, vec![Route::Batch]);
    let m = s.schema_decode_masks(&vec![0], 8).expect("masks");
    assert_eq!(m.flags, vec![1]);
    assert!(bit(&m.words, t[3]));
    assert_eq!(m.words.iter().map(|w| w.count_ones()).sum::<u32>(), 1);
    let mode = s.batch_mode(&vec![0], true, true, true);
    assert_eq!(mode.dispatch, Dispatch::Eager);
    assert!(!mode.resident);
    s.commit_batch(&vec![0], &vec![t[3]]);
    assert_eq!(s.done, vec![true]);
}

#[test]
fn an_inadmissible_token_ends_the_answer() {
    let mut m = schema(r#"{"type":"boolean"}"#);
    let s0 = m.start_state();
    let r = schema_advance(&mut m, s0, &vec![b't' as u32, b'x' as u32, b'u' as u32]);
    assert_eq!(r.taken, 1);
    assert!(r.done);
    let chain = mask_chain(&mut m, s0, &vec![], 8);
    assert_eq!((chain.valid, chain.masks.len()), (0, 1));
}

fn params(max_new: usize, min_new: usize, ignore_eos: bool) -> Params {
    Params {
        client: 0,
        max_new,
        min_new,
        ignore_eos,
        greedy: true,
        domain: Domain::Code,
        temperature: single(0.0),
        top_p: single(1.0),
        top_k: 1,
        rep_penalty: single(1.0),
        presence_penalty: single(0.0),
        frequency_penalty: single(0.0),
    }
}

#[test]
fn emission_stops_at_the_budget_and_at_the_end() {
    let eos = vec![2];
    assert_eq!(emit(&vec![5, 2, 7], 1, &params(10, 0, false), &eos), (vec![5, 2], true));
    assert_eq!(emit(&vec![5, 2, 7], 1, &params(10, 4, false), &eos), (vec![5, 2, 7], false));
    assert_eq!(emit(&vec![5, 2, 7], 1, &params(10, 0, true), &eos), (vec![5, 2, 7], false));
    assert_eq!(emit(&vec![5, 6, 7], 1, &params(2, 0, false), &eos), (vec![5], true));
    assert_eq!(emit(&vec![5, 6, 7], 1, &params(1, 0, false), &eos), (vec![], true));
}

#[test]
fn histories_are_halved_when_they_are_full() {
    let mut h: Vec<u32> = (0..256).collect();
    remember(&mut h, 1000);
    assert_eq!(h.len(), 129);
    assert_eq!((h[0], h[128]), (128, 1000));
}

#[test]
fn the_lookup_copies_what_followed() {
    assert_eq!(lookup_draft(&vec![1, 2, 3, 9, 1, 2], 2), Some(3));
    assert_eq!(lookup_draft(&vec![1, 2, 3, 1, 2, 4, 1, 2], 2), Some(4));
    assert_eq!(lookup_draft(&vec![1, 2, 3], 2), None);
    assert_eq!(lookup_draft(&vec![1, 2, 1, 2], 0), None);
    assert_eq!(lookup_draft(&vec![7, 7], 1), Some(7));
    let mut work = vec![1, 2, 3, 1];
    assert_eq!(next_draft(50, &mut work, 1), 2);
    assert_eq!(work, vec![1, 2, 3, 1, 2]);
    assert_eq!(next_draft(50, &mut vec![1], 2), 50);
}

#[test]
fn penalty_rows_hold_recent_tokens_once() {
    let r = penalty_row(&vec![5, 6, 5, 7], 3);
    assert_eq!(r.tokens, vec![7, 5, 6]);
    assert_eq!(r.counts, vec![1, 1, 1]);
    let r = penalty_row(&vec![5, 6, 5, 7], 8);
    assert_eq!(r.tokens, vec![7, 5, 6, -1, -1, -1, -1, -1]);
    assert_eq!(r.counts, vec![1, 2, 1, 0, 0, 0, 0, 0]);
}

#[test]
fn penalty_values_go_up_when_they_change() {
    let key = PenaltyKey { rep: single(1.1), presence: single(0.0), frequency: single(0.0) };
    let plain = PenaltyKey { rep: single(1.0), presence: single(0.0), frequency: single(-1.0) };
    let mut held = None;
    assert!(make_penalty(&vec![5], plain, 2, &mut held).is_none());
    let t = make_penalty(&vec![5], key, 2, &mut held).unwrap();
    assert_eq!(t.tokens.len(), 32);
    assert_eq!(&t.tokens[..4], &[5, -1, 5, -1]);
    assert_eq!(t.values.unwrap().rep, vec![single(1.1); 16]);
    assert_eq!(held, Some(key));
    let t = make_penalty(&vec![5, 5], key, 2, &mut held).unwrap();
    assert!(t.values.is_none());
    assert_eq!(&t.counts[..2], &[2, 0]);
    let cols = vec![
        LaneColumns { start: 0, len: 2, key: plain, history: vec![1] },
        LaneColumns { start: 2, len: 1, key, history: vec![3, 3] },
    ];
    let t = make_forest_penalty(&cols, 1, &mut held).unwrap();
    assert_eq!(&t.tokens[..5], &[1, 1, 3, -1, -1]);
    assert_eq!(&t.counts[..4], &[1, 1, 1, 0]);
    let v = t.values.unwrap();
    assert_eq!(&v.rep[1..4], &[single(1.0), single(1.1), single(1.0)]);
    assert_eq!(held, None);
    assert!(has_penalties(single(1.0), single(0.5), single(0.0)));
}

#[test]
fn batches_upload_penalties_and_clear_them_once() {
    let mut s = running(2, false, SpecSource::Mtp, 2);
    s.lanes[1].params.rep_penalty = single(1.5);
    let u = s.batch_inputs(&vec![0, 1], 2);
    let p = u.penalties.unwrap();
    assert_eq!(p.tokens, vec![-1, -1, 41, -1]);
    assert_eq!(p.counts, vec![0, 0, 1, 0]);
    assert_eq!(p.rep, vec![single(1.0), single(1.5)]);
    s.lanes[1].params.rep_penalty = single(1.0);
    assert!(s.batch_inputs(&vec![0, 1], 2).penalties.is_some());
    assert!(s.batch_inputs(&vec![0, 1], 2).penalties.is_none());
    let t = s.lane_penalty(0, 4);
    assert!(t.is_none());
}

#[test]
fn resident_buffers_go_up_when_something_changed() {
    let mut s = running(3, false, SpecSource::Mtp, 2);
    s.lanes[0].history = vec![1, 2, 3];
    let u = s.resident_inputs(&vec![0, 1], 2).expect("dirty");
    assert_eq!(u.toks, vec![40, 41, 0]);
    assert_eq!(u.pos, vec![2, 2, 0]);
    assert_eq!(u.ring, vec![2, 3, 41, -1, -1, -1]);
    assert_eq!(u.ring_state, vec![2, (1 << 8) | 1, 0]);
    assert_eq!(u.keys, vec![7, 7, 0]);
    assert!(s.resident_inputs(&vec![0, 1], 2).is_none());
    s.note_host_sampling();
    assert!(s.resident_dirty);
}

#[test]
fn plain_sampling_draws_one_seed_per_lane() {
    let mut s = running(3, false, SpecSource::Mtp, 2);
    s.lanes[1].params.greedy = false;
    assert_eq!(s.batch_mode(&vec![0, 1], false, true, false).dispatch, Dispatch::SampleEager);
    assert_eq!(s.batch_mode(&vec![0, 1], false, true, true).dispatch, Dispatch::SampleGraph);
    s.setup.gpu_sample = false;
    assert_eq!(s.batch_mode(&vec![0, 1], false, true, true).dispatch, Dispatch::SampleHost);
    let p = s.sampling_inputs(&vec![1]);
    assert_eq!(p.top_k, vec![40, 1, 1]);
    assert_eq!(p.temps, vec![single(0.0), single(1.0), single(1.0)]);
    let d = s.draw_seeds(&vec![1]);
    assert_eq!(d, vec![rng_u32(7, RNG_DOM_SAMPLE, 0), 0, 0]);
    assert_eq!((s.lanes[0].seed, s.lanes[1].seed), (7, splitmix64(7)));
}

#[test]
fn state_regions_follow_each_other() {
    let l = state_layout(2, true, false, false, true);
    assert_eq!(
        l,
        StateLayout {
            n_ckpt: 7,
            snapshot_slot: 2,
            prompt_ckpt_slot: 9,
            ring_ckpt_slot: 11,
            n_state_slots: 43,
        }
    );
    assert_eq!(state_layout(2, false, false, true, false).n_state_slots, 2);
    assert_eq!(state_layout(2, false, true, false, false).n_ckpt, 16);
    assert!(captures_graphs(18_432, false));
    assert!(!captures_graphs(18_432, true));
    assert!(!captures_graphs(49_153, false));
    assert!(keeps_graphs(&vec![true, true]));
    assert!(!keeps_graphs(&vec![true, false]));
}

#[test]
fn ranks_agree_on_equal_states() {
    let s = running(2, true, SpecSource::Mtp, 2);
    let t = running(2, true, SpecSource::Mtp, 2);
    let a = s.agree_token(false);
    assert_eq!(a, t.agree_token(false));
    assert_eq!((a.count, a.k_verify), (2, 4));
    assert_eq!(a.wire, a.hash ^ (4 << 27));
    assert_eq!(compare_tokens(&a, Some((a.count, a.wire))), Agreement::Agreed);
    assert_eq!(compare_tokens(&a, Some((a.count, a.hash))), Agreement::Mismatch);
    assert_eq!(compare_tokens(&a, None), Agreement::Lost);
    assert_eq!(s.agree_token(true).hash, a.hash ^ 0xDEAD);
    let mut u = running(2, true, SpecSource::Mtp, 2);
    u.lanes[1].last_tok = 1;
    assert_ne!(u.agree_token(false).hash, a.hash);
    let empty = BatchScheduler::new(setup(1, 64), policy(false, SpecSource::Mtp));
    let mut h = 0x811c9dc5u32;
    for x in [0u32, 4, 0] {
        h = (h ^ x).wrapping_mul(0x0100_0193);
    }
    assert_eq!(empty.agree_token(false).hash, h);
}

#[test]
fn cancels_travel_over_the_wire() {
    let mut s = running(3, false, SpecSource::Mtp, 2);
    s.serve_in_group();
    assert_eq!(s.plan_step(&vec![true, true]).cancelled, vec![false, false]);
    assert_eq!(s.mark_gone(&vec![false, true]), vec![1]);
    assert!(s.mark_gone(&vec![false, true]).is_empty());
    assert_eq!(s.plan_step(&vec![false, false]).cancelled, vec![false, true]);
    assert!(s.replay_cancel(0));
    assert!(!s.replay_cancel(2));
    assert!(s.may_draw(0) && !s.may_draw(1));
    assert!(s.takes_now(1) && !s.takes_now(0));
    assert!(!s.shuts_down(true, 0));
    s.commit_batch(&vec![0, 1], &vec![5, 6]);
    s.compact(&vec![true, true]);
    assert!(s.shuts_down(true, 0) && !s.shuts_down(false, 0));
}

#[test]
fn benchmark_jobs_become_requests() {
    let job = SpecBenchJob {
        prompt: vec![1, 2],
        max_new: 9,
        temperature: single(0.7),
        top_p: single(0.9),
        top_k: 20,
        seed: 11,
        source: SpecSource::Plain,
        domain: Domain::Code,
    };
    let r = bench_request(job, 3);
    assert_eq!((r.prompt, r.max_new, r.seed, r.client), (vec![1, 2], 9, Some(11), 3));
    assert_eq!(r.rep_penalty, single(1.0));
    let rec = SpecStepRec {
        greedy: true,
        pos: 1,
        drafts: 2,
        nacc: 1,
        emitted: 2,
        round_ms: single(0.0),
        verify_ms: single(0.0),
        step_ms: single(0.0),
    };
    let mut log = StepLog { on: false, steps: vec![] };
    log.rec_step(rec);
    assert!(log.steps.is_empty());
    log.start();
    log.rec_step(rec);
    assert_eq!(log.finish(), vec![rec]);
    assert!(!log.on && log.steps.is_empty());
    let mut live = LiveState { registered: None };
    r9_register_state(&mut live, 1, 2);
    assert_eq!(live.registered, Some((1, 2)));
    assert_eq!(
        log_draft_step(3, 0, 12, 7, &vec![8, 9], &vec![], 1),
        r#"{"step":3,"lane":0,"pos":12,"committed":7,"drafts":[8,9],"preds":[],"nacc":1}"#
    );
}

#[test]
fn images_keep_prompts_apart() {
    let mut s = BatchScheduler::new(setup(1, 40000), policy(false, SpecSource::Mtp));
    let prompt: Vec<u32> = vec![7; 600];
    let with = |bits: u32, client: u64| {
        let mut r = request(client, prompt.clone(), 1);
        r.image_embeds = Some(vec![bits; 4]);
        r.image_spans = vec![ImageSpan { start: 100, num_tokens: 2 }];
        r
    };
    s.admit_request(with(1, 0), options(true));
    prefill(&mut s, 5);
    s.commit_batch(&vec![0], &vec![5]);
    s.compact(&vec![true]);
    s.admit_request(with(2, 1), options(true));
    assert_eq!(s.pf.as_ref().unwrap().reuse, 0);
    prefill(&mut s, 5);
    s.commit_batch(&vec![0], &vec![5]);
    s.compact(&vec![true]);
    s.admit_request(with(2, 2), options(true));
    assert_eq!(s.pf.as_ref().unwrap().reuse, 512);
}

#[test]
fn a_budget_of_one_is_one_token() {
    let one = |on: bool| {
        let mut s = BatchScheduler::new(setup(1, 4096), policy(on, SpecSource::Mtp));
        s.admit_request(request(3, vec![4, 5], 1), options(true));
        assert_eq!(prefill(&mut s, 9).1, Some(9));
        s
    };
    let mut s = one(false);
    assert_eq!(s.plan_step(&vec![false]).routes, vec![Route::Batch]);
    assert_eq!(s.commit_batch(&vec![0], &vec![8]), vec![false]);
    assert_eq!((s.lanes[0].generated, s.lanes[0].history.clone()), (1, vec![9]));
    assert!(matches!(&s.compact(&vec![false])[0].1, TokEvent::Finish { reason } if reason == "length"));
    let mut s = one(true);
    let step = s.mtp_lane_step(0, &vec![8], &vec![8, 7], None);
    assert!(step.emission.tokens.is_empty() && step.emission.finished);
    let mut s = one(true);
    s.lanes[0].params.greedy = false;
    let step = s.mtp_lane_step_sample(0, &vec![8], &vec![single(1.0)], &vec![6], 7);
    assert!(step.emission.tokens.is_empty() && step.emission.finished);
    assert_eq!(s.lanes[0].generated, 1);
}

#[test]
fn an_ordinary_budget_is_sent_by_the_batch() {
    let mut s = running(1, false, SpecSource::Mtp, 1);
    s.plan_step(&vec![false]);
    assert_eq!(s.commit_batch(&vec![0], &vec![8]), vec![true]);
    assert_eq!(s.lanes[0].generated, 2);
}

#[test]
fn an_opened_scheduler_has_its_layout() {
    let layout = |o: Opening, src: SpecSource, ring: Option<Df2Ring>| {
        let s = BatchScheduler::with_df2(o, policy(true, src), ring, false, None, false);
        assert!(!s.setup.pf_inline && !s.setup.df2_carry_enabled && !s.setup.tp_serving);
        assert!(!s.setup.prose_lane_greedy && !s.setup.cov_trace);
        assert!(s.resident_dirty && !s.pen_had && s.pen_key.is_none());
        assert!(s.slots.cache.iter().all(|c| c.is_empty()) && s.stats.mtp.steps == 0);
        s.setup.layout
    };
    let ring = Some(Df2Ring { nprev: 0, ring_slot: None, ring_len: 0 });
    assert_eq!(layout(setup(2, 64), SpecSource::Mtp, None), state_layout(2, true, false, false, true));
    assert_eq!(layout(setup(2, 64), SpecSource::Mtp, ring).n_ckpt, 16);
    assert_eq!(layout(setup(2, 64), SpecSource::DFlash2Tree, None).n_ckpt, 16);
    assert_eq!(layout(setup(2, 64), SpecSource::DFlash, None).n_ckpt, 16);
    let with_dir = Opening { draft_dir: true, ..setup(2, 64) };
    assert_eq!(layout(with_dir, SpecSource::Mtp, None).n_ckpt, 16);
    let packed = Opening { mtp_lanes: true, prefix_cache: false, ..setup(2, 64) };
    assert_eq!(layout(packed, SpecSource::Mtp, None).n_state_slots, 18);
    let traced = Opening { step_dump: true, ..setup(1, 64) };
    let s = BatchScheduler::new(traced, policy(false, SpecSource::Mtp));
    assert!(s.setup.cov_trace && !s.df2_prime && !s.dspark_prime && s.dflash.is_none());
}

#[test]
fn a_chain_drafts_one_less_than_its_columns() {
    assert_eq!([0, 1, 2, 8, 16, 40].map(draft_count), [0, 0, 1, 7, 15, 15]);
}
