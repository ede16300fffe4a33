//! Sampling, schedules, generation and speculation.
use glint::sampling::{argmax, sample_from_probs, Xorshift64};
use glint::transformer::config::{attn_heads, window_for, HeadSlot, ModelConfig, Window};
use glint::transformer::forward::{
    embed, forward, forward_batch_lora, forward_one_lora, forward_prefill_inner, Lane,
    LayerSwitches, LoraLayer, Matrix, ModelPlan, Op, Step,
};
use glint::transformer::generate::{Generation, Progress};
use glint::transformer::speculative::{RoundOdds, Speculation};

/// All of the unit interval, in the units of a draw.
const ONE: u32 = 1 << 24;

/// Cumulative probabilities of a distribution, in the units of a draw.
fn cumulative(probs: &[f32]) -> Vec<u32> {
    let mut sum = 0.0f32;
    probs
        .iter()
        .map(|p| {
            sum += p;
            (sum * ONE as f32).ceil() as u32
        })
        .collect()
}

#[test]
fn test_sample_from_probs_deterministic() {
    // With a one-hot distribution, always picks the hot index
    let mut probs = vec![0.0f32; 5];
    probs[3] = 1.0;
    let mut rng = Xorshift64::new(99);
    for _ in 0..10 {
        assert_eq!(sample_from_probs(&cumulative(&probs), &mut rng), 3);
    }
}

#[test]
fn test_xorshift64_f32_range() {
    let mut rng = Xorshift64::new(12345);
    for _ in 0..10_000 {
        let v = rng.next_unit24() as f32 / ONE as f32;
        assert!((0.0..1.0).contains(&v), "v={v} out of [0,1)");
    }
}

#[test]
fn test_softmax_with_temp_seeded_determinism() {
    let probs = vec![0.1f32, 0.5, 0.2, 0.2];
    let mut rng_a = Xorshift64::new(42);
    let mut rng_b = Xorshift64::new(42);
    for _ in 0..20 {
        assert_eq!(
            sample_from_probs(&cumulative(&probs), &mut rng_a),
            sample_from_probs(&cumulative(&probs), &mut rng_b),
        );
    }
}

#[test]
fn generator_steps_as_defined() {
    let mut rng = Xorshift64::new(1);
    assert_eq!(rng.next_u64(), 1082269761);
    assert_eq!(rng.state, 1082269761);
    assert_eq!(Xorshift64::restore(7).state, 7);
}

#[test]
fn largest_logit_wins_and_the_last_of_equals() {
    let bits = |v: &[f32]| -> Vec<u32> { v.iter().map(|x| x.to_bits()).collect() };
    assert_eq!(argmax(&bits(&[1.0, 3.0, 2.0])), 1);
    assert_eq!(argmax(&bits(&[-1.0, -3.0, -2.0])), 0);
    assert_eq!(argmax(&bits(&[2.0, 2.0, 1.0])), 1);
    assert_eq!(argmax(&bits(&[-0.0, 0.0])), 1);
    assert_eq!(argmax(&[]), 0);
}

fn config() -> ModelConfig {
    ModelConfig {
        context_length: 64,
        embedding_length: 32,
        block_count: 2,
        head_count: 4,
        head_count_kv: 2,
        vocab_size: 16,
        sliding_window: None,
        sliding_window_alternating: false,
        head_dim_override: None,
        rotary_dim: None,
        final_softcap: false,
    }
}

const PLAIN: LayerSwitches = LayerSwitches {
    q_bias: false,
    k_bias: false,
    v_bias: false,
    post_attn_norm: false,
    post_ffn_norm: false,
};

fn plan() -> ModelPlan {
    ModelPlan {
        config: config(),
        layers: vec![PLAIN, PLAIN],
        adapters: vec![],
        lora: None,
    }
}

#[test]
fn heads_share_keys_in_runs() {
    assert_eq!(
        attn_heads(4, 2, 8),
        vec![
            HeadSlot { kv_head: 0, offset: 0 },
            HeadSlot { kv_head: 0, offset: 8 },
            HeadSlot { kv_head: 1, offset: 16 },
            HeadSlot { kv_head: 1, offset: 24 },
        ]
    );
}

#[test]
fn window_reaches_back_as_far_as_it_may() {
    let mut cfg = config();
    assert_eq!(window_for(&cfg, 0, 9), Window { start: 0, len: 10 });
    cfg.sliding_window = Some(4);
    assert_eq!(window_for(&cfg, 0, 9), Window { start: 6, len: 4 });
    assert_eq!(window_for(&cfg, 0, 2), Window { start: 0, len: 3 });
    cfg.sliding_window_alternating = true;
    assert_eq!(window_for(&cfg, 1, 9), Window { start: 0, len: 10 });
    assert_eq!(window_for(&cfg, 2, 9), Window { start: 6, len: 4 });
}

#[test]
fn sizes_follow_from_the_configuration() {
    let mut cfg = config();
    assert_eq!((cfg.head_dim(), cfg.rot_dim()), (8, 8));
    cfg.head_dim_override = Some(12);
    cfg.rotary_dim = Some(5);
    assert_eq!((cfg.head_dim(), cfg.rot_dim()), (12, 4));
}

/// What one lane of a schedule sees.
fn seen_by(steps: &[Step], lane: usize, token: u32) -> Vec<Op> {
    steps
        .iter()
        .filter_map(|s| match s {
            Step::All { op } => Some(*op),
            Step::One { lane: l, op } if *l == lane => Some(*op),
            _ => None,
        })
        .map(|op| match op {
            Op::Embed { .. } => Op::Embed { token },
            op => op,
        })
        .collect()
}

#[test]
fn batching_is_invisible_to_a_sequence() {
    let mut m = plan();
    m.layers[1].q_bias = true;
    m.layers[0].post_ffn_norm = true;
    m.adapters.push(vec![
        LoraLayer {
            attn_q: true,
            attn_k: false,
            attn_v: false,
            attn_output: true,
            ffn_gate: false,
            ffn_up: false,
            ffn_down: true,
        };
        2
    ]);
    let lanes = vec![
        Lane { token: 3, pos: 7, lora: None },
        Lane { token: 5, pos: 2, lora: Some(0) },
        Lane { token: 9, pos: 0, lora: None },
    ];
    let steps = forward_batch_lora(&m, &lanes, false);
    for (i, lane) in lanes.iter().enumerate() {
        assert_eq!(seen_by(&steps, i, lane.token), forward_one_lora(&m, lane), "lane {i}");
    }
    // Weights are walked once for the whole batch.
    assert!(steps.iter().all(|s| !matches!(s, Step::One { op: Op::Project { .. }, .. })));
    assert!(forward_batch_lora(&m, &vec![], false).is_empty());
}

#[test]
fn decoding_writes_before_it_reads() {
    let ops = forward_one_lora(&plan(), &Lane { token: 1, pos: 4, lora: None });
    for layer in 0..2 {
        let w = ops.iter().position(|o| *o == Op::WriteKv { layer, pos: 4 }).unwrap();
        let a = ops
            .iter()
            .position(|o| *o == Op::Attend { layer, window: Window { start: 0, len: 5 } })
            .unwrap();
        assert!(w < a);
    }
    assert_eq!(ops[0], Op::Embed { token: 1 });
    assert_eq!(ops[ops.len() - 1], Op::LmHead);
}

#[test]
fn adapter_comes_before_the_norm_of_a_block() {
    let mut m = plan();
    m.layers[0].post_attn_norm = true;
    m.adapters.push(vec![
        LoraLayer {
            attn_q: false,
            attn_k: false,
            attn_v: false,
            attn_output: true,
            ffn_gate: false,
            ffn_up: false,
            ffn_down: false,
        };
        2
    ]);
    let ops = forward_one_lora(&m, &Lane { token: 1, pos: 0, lora: Some(0) });
    let lora = ops
        .iter()
        .position(|o| *o == Op::Lora { layer: 0, matrix: Matrix::AttnOutput })
        .unwrap();
    let norm = ops.iter().position(|o| *o == Op::PostAttnNorm { layer: 0 }).unwrap();
    assert!(lora < norm);
}

#[test]
fn prompt_is_computed_as_its_tokens_would_be_one_by_one() {
    let m = plan();
    let steps = forward_prefill_inner(&m, &[4, 5, 6], 10, None);
    for (i, token) in [4u32, 5, 6].iter().enumerate() {
        let alone = forward_one_lora(&m, &Lane { token: *token, pos: 10 + i, lora: None });
        assert_eq!(seen_by(&steps, i, *token), alone, "token {i}");
    }
    assert!(forward_prefill_inner(&m, &[], 0, None).is_empty());
}

#[test]
fn whole_prompt_pass_ends_with_the_last_token() {
    let m = plan();
    let steps = forward(&m, &[4, 5]);
    assert_eq!(steps[steps.len() - 1], Step::One { lane: 1, op: Op::LmHead });
    let pooled = embed(&m, &[4, 5]);
    assert_eq!(pooled[pooled.len() - 1], Step::One { lane: 1, op: Op::Pool { count: 2 } });
}

#[test]
fn generation_stops_at_its_budget_and_at_the_stop_token() {
    let mut g = Generation::new(&[1, 2], 3, 9);
    assert_eq!(g.take(5, true), Progress::Decode { token: 5, pos: 2 });
    assert_eq!(g.take(6, true), Progress::Decode { token: 6, pos: 3 });
    assert_eq!(g.take(7, true), Progress::Decode { token: 7, pos: 4 });
    assert!(!g.wants_token());
    assert_eq!(g.tokens, vec![1, 2, 5, 6, 7]);

    let mut g = Generation::new(&[1], 10, 9);
    assert_eq!(g.take(9, true), Progress::Stop);
    assert!(!g.wants_token());
    let mut g = Generation::new(&[1], 10, 9);
    assert_eq!(g.take(4, false), Progress::Stop);
}

fn always(token: usize) -> Vec<u32> {
    (0..16).map(|i| if i >= token { ONE } else { 0 }).collect()
}

#[test]
fn certain_proposals_are_kept_and_followed_by_one_more() {
    let mut s = Speculation::new(&[1, 2], 10, 15, 7);
    assert_eq!(s.next_round(3, 64, 64), Some(3));
    assert_eq!(s.draft_step(&[]), (2, 1));
    assert_eq!(s.draft_step(&[4, 5]), (5, 3));
    let odds = RoundOdds {
        accept: vec![ONE; 3],
        residual: vec![always(0); 3],
        bonus: always(8),
    };
    assert!(!s.verify_round(&[4, 5, 6], &odds));
    assert_eq!(s.tokens, vec![1, 2, 4, 5, 6, 8]);
    assert_eq!(s.generated, 4);
}

#[test]
fn rejected_proposal_is_replaced_and_ends_the_round() {
    let mut s = Speculation::new(&[1], 10, 15, 7);
    let odds = RoundOdds {
        accept: vec![ONE, 0, ONE],
        residual: vec![always(0), always(3), always(0)],
        bonus: always(8),
    };
    assert!(!s.verify_round(&[4, 5, 6], &odds));
    assert_eq!(s.tokens, vec![1, 4, 3]);
    // A replacement that is the stop token ends the generation.
    let odds = RoundOdds { accept: vec![0], residual: vec![always(15)], bonus: always(8) };
    assert!(s.verify_round(&[4], &odds));
}

#[test]
fn nothing_is_drawn_behind_an_accepted_stop_token() {
    // The stop token is the whole proposal.
    let mut s = Speculation::new(&[5], 3, 2, 7);
    let odds = RoundOdds { accept: vec![ONE], residual: vec![always(0)], bonus: always(0) };
    assert!(s.verify_round(&[2], &odds));
    assert_eq!(s.tokens, vec![5, 2]);
    assert_eq!(s.generated, 1);
    // It is the last of a proposal, or stands inside it.
    for proposal in [[4, 6, 2], [4, 2, 6]] {
        let mut s = Speculation::new(&[5], 9, 2, 7);
        let odds = RoundOdds {
            accept: vec![ONE; 3],
            residual: vec![always(0); 3],
            bonus: always(8),
        };
        assert!(s.verify_round(&proposal, &odds));
        assert_eq!(s.tokens.last(), Some(&2));
        assert_eq!(s.tokens.iter().filter(|&&t| t == 2).count(), 1);
    }
}

#[test]
fn the_same_seed_gives_the_same_round() {
    let half: Vec<u32> = (1..=16).map(|i| i * (ONE / 16)).collect();
    let run = |seed: u64| {
        let mut s = Speculation::new(&[5], 9, 200, seed);
        let odds = RoundOdds {
            accept: vec![ONE / 2; 3],
            residual: vec![half.clone(); 3],
            bonus: half.clone(),
        };
        s.verify_round(&[1, 2, 3], &odds);
        (s.tokens, s.rng.state)
    };
    assert_eq!(run(11), run(11));
    assert_ne!(run(11).1, run(12).1);
}

#[test]
fn speculation_stops_at_its_bounds() {
    let mut s = Speculation::new(&[1, 2, 3], 2, 15, 7);
    assert_eq!(s.next_round(8, 64, 64), Some(2));
    assert_eq!(s.next_round(8, 3, 64), None);
    assert_eq!(s.next_round(8, 64, 3), None);
    let odds = RoundOdds {
        accept: vec![ONE; 2],
        residual: vec![always(0); 2],
        bonus: always(8),
    };
    s.verify_round(&[4, 5], &odds);
    assert_eq!(s.tokens, vec![1, 2, 3, 4, 5]);
    assert_eq!(s.next_round(8, 64, 64), None);
}
