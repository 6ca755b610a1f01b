use gb10_infer::batch::draft::{alternates, two_branch_tree};
use gb10_infer::batch::forest::{pack, pack_depth, Chain};
use gb10_infer::batch::lane::{emit, Params};
use gb10_infer::batch::layout::state_layout;
use gb10_infer::batch::prefix::{df2_carry_ok, images_compatible, ImageIdentity};
use gb10_infer::batch::sources::{
    classify_domain, df2_effective_src, is_df2_src, spec_source_for, Domain, SpecSource,
};
use gb10_infer::batch::tree::tree_accept_walk;
use gb10_infer::dflash::shape::dflash_mask_pack;
use gb10_infer::dspark::round::{geometry, pack_rows};
use gb10_infer::single::Single;

fn single(x: f32) -> Single {
    Single { bits: x.to_bits() }
}

/// A model: its choice behind a text.
fn choice(text: &[u32]) -> u32 {
    text.iter().fold(17u32, |h, &t| h.wrapping_mul(31).wrapping_add(t)) % 5
}

fn one_by_one(text: &[u32], n: usize) -> Vec<u32> {
    let mut t = text.to_vec();
    for _ in 0..n {
        t.push(choice(&t));
    }
    t[text.len()..].to_vec()
}

#[test]
fn greedy_chains_are_lossless() {
    let text = vec![3, 1, 4];
    for code in 0..125u32 {
        let drafts = vec![code % 5, code / 5 % 5, code / 25];
        let preds: Vec<u32> = (0..=3)
            .map(|k| choice(&[&text[..], &drafts[..k]].concat()))
            .collect();
        let parent = vec![-1, 0, 1, 2];
        let tokens: Vec<u32> = [vec![4], drafts.clone()].concat();
        let (path, out) = tree_accept_walk(&parent, &tokens, &preds);
        assert_eq!(out, path.iter().map(|&c| preds[c]).collect::<Vec<u32>>());
        assert_eq!(out, one_by_one(&text, out.len()));
    }
}

#[test]
fn greedy_trees_are_lossless() {
    let text = vec![2, 7];
    let parent = vec![-1, 0, 0, 2, 3];
    for code in 0..625u32 {
        let tokens = vec![7, code % 5, code / 5 % 5, code / 25 % 5, code / 125];
        let above = |mut c: usize| {
            let mut v = vec![];
            while c != 0 {
                v.insert(0, tokens[c]);
                c = parent[c] as usize;
            }
            v
        };
        let preds: Vec<u32> = (0..5).map(|c| choice(&[text.clone(), above(c)].concat())).collect();
        let (path, out) = tree_accept_walk(&parent, &tokens, &preds);
        assert_eq!(out, path.iter().map(|&c| preds[c]).collect::<Vec<u32>>());
        assert_eq!(out, one_by_one(&text, out.len()));
    }
}

fn params(max_new: usize) -> Params {
    Params {
        client: 0,
        max_new,
        min_new: 0,
        ignore_eos: false,
        greedy: true,
        domain: Domain::Code,
        temperature: single(0.0),
        top_p: single(1.0),
        top_k: 1,
        rep_penalty: single(1.0),
        presence_penalty: single(0.0),
        frequency_penalty: single(0.0),
    }
}

#[test]
fn the_stop_rule_is_the_same_one_by_one() {
    let eos = vec![2];
    for n in 1..6 {
        for list in [vec![5, 6, 7, 8], vec![5, 2, 7, 8], vec![2], vec![]] {
            let p = params(n);
            let (whole, finished) = emit(&list, 0, &p, &eos);
            let mut sent = vec![];
            let mut end = false;
            for t in list {
                if end {
                    break;
                }
                let (one, done) = emit(&vec![t], sent.len(), &p, &eos);
                sent.extend(one);
                end = done;
            }
            assert_eq!((whole, finished), (sent, end));
        }
    }
}

#[test]
fn names_of_sources_round_trip() {
    let all = [
        SpecSource::Mtp,
        SpecSource::Dspark,
        SpecSource::DFlash2,
        SpecSource::DFlash2Rq,
        SpecSource::DFlash2Auto,
        SpecSource::DFlash2Tree,
        SpecSource::DFlash,
        SpecSource::Plain,
    ];
    for s in all {
        assert_eq!(SpecSource::from_cli(s.cli_name()), Some(s));
    }
    assert_eq!(SpecSource::from_cli("nothing"), None);
}

#[test]
fn packs_keep_chains_apart() {
    for p in 1..=5usize {
        let d = pack_depth(p, 4);
        assert!(d >= 1 && p * (d + 1) <= 16);
        let chains: Vec<Chain> = (0..p)
            .map(|k| Chain { phys: k, committed: 100 + k as u32, main_pos: 10 * k, drafts: vec![k as u32; d] })
            .collect();
        let f = pack(&chains, 4);
        for (c, &q) in f.parent.iter().enumerate() {
            assert!(q == -1 || f.slot[q as usize] == f.slot[c]);
        }
    }
}

#[test]
fn a_second_branch_adds_new_tokens() {
    let drafts: Vec<u32> = vec![1; 7];
    let table: Vec<u32> = (0..7 * 16).map(|i| i % 16 % 9).collect();
    let b = alternates(&drafts, &table);
    for (j, t) in b.iter().enumerate() {
        assert!(*t != drafts[j] && !b[..j].contains(t));
    }
    let (tokens, parent) = two_branch_tree(0, &drafts, &b);
    assert!(tokens.len() <= 16 && tokens.len() == parent.len());
}

#[test]
fn regions_of_states_are_apart() {
    for mb in [1, 3] {
        let l = state_layout(mb, true, false, true, true);
        assert!(mb <= l.snapshot_slot);
        assert!(l.snapshot_slot + l.n_ckpt <= l.prompt_ckpt_slot);
        assert!(l.prompt_ckpt_slot + mb <= l.ring_ckpt_slot);
        assert!(l.ring_ckpt_slot + 16 * mb <= l.n_state_slots);
    }
}

#[test]
fn packed_arguments_can_be_taken_apart() {
    let g = geometry(4096).unwrap();
    let p = pack_rows(77, g.c_ring, g.ring_stride);
    assert_eq!((p >> 42, p >> 21 & 0x1F_FFFF, p & 0x1F_FFFF), (77, g.c_ring as u64, g.ring_stride as u64));
    let m = dflash_mask_pack(1000, true, 256);
    assert_eq!((m & 0xFFFF_FFFF, m >> 32 & 1, m >> 33), (1000, 1, 256));
}

#[test]
fn images_matter_only_inside_the_prefix() {
    let at = |start: usize, hash: u64| ImageIdentity { start, hash };
    let a = vec![at(5, 9), at(50, 9)];
    let b = vec![at(5, 9), at(60, 8)];
    assert!(images_compatible(&a, &b, 20));
    assert!(!images_compatible(&a, &b, 65));
    assert!(images_compatible(&a, &b, 0));
}

#[test]
fn a_carried_ring_reaches_the_prefix() {
    assert!(df2_carry_ok(true, true, 40, 60, 3, Some(3), 50, false));
    assert!(!df2_carry_ok(true, true, 40, 60, 3, Some(3), 39, false));
    assert!(!df2_carry_ok(true, true, 40, 60, 3, Some(3), 61, false));
}

#[test]
fn prompts_with_two_markers_are_code() {
    assert_eq!(classify_domain("tell me of a CLASS of birds"), Domain::General);
    assert_eq!(classify_domain("Import x; DEF y"), Domain::Code);
    assert_eq!(classify_domain("a ``` fence"), Domain::Code);
    assert_eq!(classify_domain(""), Domain::General);
    assert_eq!(Domain::default(), Domain::General);
}

#[test]
fn measured_contexts_choose_the_source() {
    let table = vec![
        (String::from("code"), 16384, single(3.6)),
        (String::from("code"), 4096, single(3.55)),
        (String::from("code"), 16384, single(1.0)),
    ];
    assert_eq!(spec_source_for("code", 10241, &table), SpecSource::Dspark);
    assert_eq!(spec_source_for("code", 10240, &table), SpecSource::Mtp);
    assert_eq!(spec_source_for("math", 16384, &table), SpecSource::Mtp);
    assert_eq!(spec_source_for("code", 1000000, &table), SpecSource::Mtp);
    assert_eq!(spec_source_for("code", 24576, &table), SpecSource::Dspark);
}

#[test]
fn the_selector_is_routed_by_domain() {
    let auto = SpecSource::DFlash2Auto;
    assert_eq!(df2_effective_src(auto, Domain::Code, false, false), SpecSource::DFlash2);
    assert_eq!(df2_effective_src(auto, Domain::General, false, true), SpecSource::DFlash2Rq);
    assert_eq!(df2_effective_src(auto, Domain::General, true, true), SpecSource::DFlash2);
    assert_eq!(df2_effective_src(auto, Domain::General, true, false), SpecSource::DFlash2Rq);
    assert_eq!(df2_effective_src(SpecSource::Mtp, Domain::Code, true, true), SpecSource::Mtp);
    assert!(is_df2_src(auto) && !is_df2_src(SpecSource::Dspark));
}

#[test]
fn greedy_steps_compose() {
    let text = vec![3, 1, 4];
    let mut all = text.clone();
    for round in 0..40u32 {
        let drafts = vec![round % 5, round / 2 % 5, round / 3 % 5];
        let preds: Vec<u32> = (0..=3).map(|k| choice(&[&all[..], &drafts[..k]].concat())).collect();
        let tokens: Vec<u32> = [vec![all[all.len() - 1]], drafts.clone()].concat();
        all.extend(tree_accept_walk(&vec![-1, 0, 1, 2], &tokens, &preds).1);
    }
    assert_eq!(all[3..], one_by_one(&text, all.len() - 3));
}
