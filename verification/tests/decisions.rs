use gb10_infer::batch::policy::{MtpPolicy, Tick, MTP_EVAL_FIRST, MTP_EVAL_WINDOW};
use gb10_infer::batch::{
    df2_carry_ok, images_compatible, request_image_identities, tree_accept_walk, ImageSpan,
};
use gb10_infer::single::Single;

// A tree degenerates to a chain (parent[c]=c-1). The walk must reproduce "accept longest prefix".
#[test]
fn chain_is_accept_longest_prefix() {
    // committed=100; drafts=[10,20,30]; target preds=[10,20,99,..] => accept 10,20, correct 30->99.
    let parent = [-1, 0, 1, 2];
    let tokens = [100u32, 10, 20, 30];
    let preds  = [10u32, 20, 99, 7];         // preds[2]=99 != tokens[3]=30 -> stop, bonus 99
    let (path, emitted) = tree_accept_walk(&parent, &tokens, &preds);
    assert_eq!(path, vec![0, 1, 2]);          // accepted committed, 10, 20
    assert_eq!(emitted, vec![10, 20, 99]);    // 10, 20 accepted, 99 the correction
}

// Fork at position 1: child A (col 1) wrong, child B (col 2) right -> B rescued, then chains.
#[test]
fn fork_rescues_second_branch() {
    //        0(committed=100)
    //       / \
    //   1(A=10) 2(B=20)---3(B2=30)
    let parent = [-1, 0, 0, 2];
    let tokens = [100u32, 10, 20, 30];
    let preds  = [20u32, 5, 30, 88];  // after committed target wants 20 (=B), then 30 (=B2), then 88
    let (path, emitted) = tree_accept_walk(&parent, &tokens, &preds);
    assert_eq!(path, vec![0, 2, 3]);          // walked root -> B -> B2
    assert_eq!(emitted, vec![20, 30, 88]);    // B, B2 accepted, 88 the bonus
}

// Neither child matches at the root -> emit just the correction, accept nothing past committed.
#[test]
fn no_child_matches() {
    let parent = [-1, 0, 0];
    let tokens = [100u32, 10, 20];
    let preds  = [77u32, 1, 2];               // target wants 77, neither child is 77
    let (path, emitted) = tree_accept_walk(&parent, &tokens, &preds);
    assert_eq!(path, vec![0]);
    assert_eq!(emitted, vec![77]);
}

// Tie: two children carry the target's token -> prefer the lowest index (deterministic).
#[test]
fn tie_prefers_lowest_child() {
    let parent = [-1, 0, 0];
    let tokens = [100u32, 42, 42];
    let preds  = [42u32, 9, 9];
    let (path, _) = tree_accept_walk(&parent, &tokens, &preds);
    assert_eq!(path, vec![0, 1]); // col 1, not col 2
}

fn single(x: f32) -> Single {
    Single { bits: x.to_bits() }
}

/// A cost table: a step of depth two to eight, in decode steps.
fn r_tp4_2k() -> Vec<(usize, Vec<(usize, Single)>)> {
    vec![(
        2048,
        vec![
            (2, single(1.13)),
            (3, single(1.26)),
            (4, single(1.39)),
            (5, single(1.48)),
            (6, single(1.6)),
            (8, single(1.9)),
        ],
    )]
}

/// Expected tokens of a step of depth `d`, from the acceptance counts by position.
fn yield_at(hz: &[(u64, u64)], d: usize) -> f32 {
    let mut last = 0.5f64;
    let mut acc = 1.0f64;
    let mut chain = 1.0f64;
    for i in 1..d {
        let p = match hz.get(i - 1) {
            Some(&(a, n)) if n >= 8 => {
                last = a as f64 / n as f64;
                last
            }
            _ => last,
        };
        chain *= p;
        acc += chain;
    }
    acc as f32
}

/// Ticks the policy, weighing the depths where it asks for it.
fn tick(policy: &mut MtpPolicy, ctx: usize) {
    if let Tick::Evaluate(_) = policy.begin_tick(ctx) {
        let hz = policy.hz.clone();
        let depth = policy.depth();
        let cur = yield_at(&hz, depth) / f32::from_bits(policy.r_at(depth, ctx).bits);
        let (mut best_d, mut best) = (depth, cur);
        for (d, r) in policy.candidates(ctx) {
            let s = yield_at(&hz, d) / f32::from_bits(r.bits);
            let margin = if d < depth { 1.0 } else { 1.05 };
            if s > best * margin {
                best = s;
                best_d = d;
            }
        }
        policy.settle(best_d, best >= 1.0);
    }
}

/// Runs windows of steps whose acceptance follows a hazard curve, and returns the depths.
fn run(policy: &mut MtpPolicy, hz: &[f64], steps_per_window: usize, windows: usize) -> Vec<usize> {
    let mut state = 0x853c49e6748fea9bu64;
    let mut draw = |h: f64| {
        state = state.wrapping_mul(6364136223846793005).wrapping_add(1442695040888963407);
        let x = (state >> 33) as f64 / (1u64 << 31) as f64;
        x < h
    };
    let mut hist = vec![policy.depth()];
    for _ in 0..windows {
        for _ in 0..steps_per_window {
            let mut acc = 0usize;
            while acc < policy.depth() - 1 && draw(hz.get(acc).copied().unwrap_or(0.0)) {
                acc += 1;
            }
            let emitted = (acc + 1) as u64;
            policy.record_step((policy.depth() - 1) as u64, acc as u64, emitted);
        }
        tick(policy, 2048);
        hist.push(policy.depth());
    }
    hist
}

#[test]
fn low_alpha_descends_to_d3() {
    let mut p = MtpPolicy::new(true, None, None, r_tp4_2k());
    assert_eq!(p.depth(), 4, "auto policy opens at 4");
    let hz = [0.44, 0.50, 0.45, 0.45, 0.45, 0.45, 0.45, 0.45];
    let hist = run(&mut p, &hz, MTP_EVAL_FIRST as usize + 32, 4);
    assert!(hist.contains(&3), "policy never tried d3 at a low-alpha curve; history {hist:?}");
}

#[test]
fn high_alpha_stays_deep() {
    let mut p = MtpPolicy::new(true, None, None, r_tp4_2k());
    let hz = [0.83, 0.85, 0.86, 0.87, 0.88, 0.88, 0.88, 0.88];
    let hist = run(&mut p, &hz, MTP_EVAL_WINDOW as usize + 8, 4);
    assert!(
        hist.iter().all(|&d| d >= 4),
        "policy bailed shallow on a high-alpha curve; history {hist:?}"
    );
}

#[test]
fn up_switch_keeps_margin() {
    let mut p = MtpPolicy::new(true, None, Some(3), r_tp4_2k());
    let hz = [0.80, 0.95, 0.99, 0.99, 0.99, 0.99, 0.99, 0.99];
    let hist = run(&mut p, &hz, MTP_EVAL_WINDOW as usize + 8, 4);
    assert!(
        hist.iter().all(|&d| d == 3),
        "up-switched without clearing the margin; history {hist:?}"
    );
}

const OUT_HIDDEN: usize = 5120;

fn span(start: usize, n: usize) -> ImageSpan {
    ImageSpan { start, num_tokens: n }
}

/// The embeddings of two images, one behind the other, by their bits.
fn two_image_embeds(n0: usize, n1: usize) -> (Vec<u32>, Vec<ImageSpan>) {
    let mut e = Vec::new();
    let mut seed = 0x12345678u64;
    let mut next = move || {
        seed = seed.wrapping_mul(6364136223846793005).wrapping_add(1442695040888963407);
        (((seed >> 33) as f32) - 0.5).to_bits()
    };
    for _ in 0..n0 * OUT_HIDDEN {
        e.push(next());
    }
    for _ in 0..n1 * OUT_HIDDEN {
        e.push(next());
    }
    (e, vec![span(60, n0), span(60 + n0, n1)])
}

#[test]
fn identities_are_deterministic_and_positioned() {
    let (emb, spans) = two_image_embeds(4, 5);
    let ids = request_image_identities(Some(&emb), &spans);
    assert_eq!(ids.len(), 2, "two images -> two identities");
    assert_eq!(ids[0].start, 60);
    assert_eq!(ids[1].start, 60 + 4);
    let ids2 = request_image_identities(Some(&emb), &spans);
    assert_eq!(ids[0].hash, ids2[0].hash);
    assert_eq!(ids[1].hash, ids2[1].hash);
    let mut emb2 = emb.clone();
    emb2[4 * OUT_HIDDEN] = (-12345.678f32).to_bits();
    let ids3 = request_image_identities(Some(&emb2), &spans);
    assert_eq!(ids3[0].hash, ids[0].hash, "image 0 unchanged");
    assert_ne!(ids3[1].hash, ids[1].hash, "image 1 changed -> hash must differ");
    assert!(request_image_identities(None, &[]).is_empty());
}

#[test]
fn compatibility_detects_a_changed_image_in_the_reused_prefix() {
    let (emb, spans) = two_image_embeds(4, 5);
    let img_old = request_image_identities(Some(&emb), &spans);
    assert!(images_compatible(&img_old, &img_old, 80), "identical image key must match");
    assert!(images_compatible(&img_old, &[], 80), "text-only request may reuse any prefix");
    let mut emb_c = emb.clone();
    emb_c[5] = (-12345.678f32).to_bits();
    let img_new = request_image_identities(Some(&emb_c), &spans);
    assert!(
        !images_compatible(&img_old, &img_new, 80),
        "changed image in the reused prefix must break reuse"
    );
    let spans_suffix = vec![span(70, 4), span(80, 5)];
    let img_sfx = request_image_identities(Some(&emb_c), &spans_suffix);
    assert!(
        images_compatible(&img_old, &img_sfx, 60),
        "image wholly in the suffix imposes no constraint"
    );
}

const ON: bool = true;
const DF2: bool = true;
const SLOT_A: usize = 0;
const SLOT_B: usize = 1;
const FULL: bool = false;
#[test]
fn multi_turn_carries() {
    assert!(df2_carry_ok(ON, DF2, 2048, 2440, SLOT_A, Some(SLOT_A), 2240, FULL));
}
#[test]
fn frontier_past_prompt_refused() {
    assert!(!df2_carry_ok(ON, DF2, 2048, 2200, SLOT_A, Some(SLOT_A), 2240, FULL));
}
#[test]
fn len_only_instrument_admits_the_bad_carry() {
    assert!(df2_carry_ok(ON, DF2, 2048, 2200, SLOT_A, Some(SLOT_A), 2240, true));
}
#[test]
fn stale_ring_from_another_slot_refused() {
    assert!(!df2_carry_ok(ON, DF2, 2048, 2600, SLOT_A, Some(SLOT_B), 3000, FULL));
}
#[test]
fn cold_never_carries() {
    assert!(!df2_carry_ok(ON, DF2, 0, 2600, SLOT_A, Some(SLOT_A), 3000, FULL));
}
#[test]
fn unproven_identity_refused() {
    assert!(!df2_carry_ok(ON, DF2, 2048, 2600, SLOT_A, None, 3000, FULL));
}
#[test]
fn reuse_past_frontier_refused() {
    assert!(!df2_carry_ok(ON, DF2, 2500, 2600, SLOT_A, Some(SLOT_A), 2400, FULL));
}
#[test]
fn flag_off_never_carries() {
    assert!(!df2_carry_ok(false, DF2, 2048, 2440, SLOT_A, Some(SLOT_A), 2240, FULL));
}
#[test]
fn non_df2_source_never_carries() {
    assert!(!df2_carry_ok(ON, false, 2048, 2440, SLOT_A, Some(SLOT_A), 2240, FULL));
}
