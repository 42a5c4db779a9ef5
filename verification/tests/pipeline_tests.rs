use zoo::glitch_ops::{RedactWordsOp, ReduplicateWordsOp, SwapAdjacentWordsOp};
use zoo::pipeline::{
    derive_seed, plan_gaggle, GagglePlanInput, GlitchDescriptor, GlitchOperation, Pipeline,
    PlannedStep,
};
use zoo::rng::{resolve_seed, DeterministicRng, RngError, UNIT_ONE};
use zoo::sampler::weighted_sample_without_replacement;

fn sample_descriptors() -> Vec<GlitchDescriptor> {
    vec![
        GlitchDescriptor {
            name: "reduplicate".to_string(),
            seed: 151,
            operation: GlitchOperation::Reduplicate(ReduplicateWordsOp {
                rate: UNIT_ONE,
                unweighted: false,
            }),
        },
        GlitchDescriptor {
            name: "swap".to_string(),
            seed: 42,
            operation: GlitchOperation::SwapAdjacent(SwapAdjacentWordsOp { rate: 0 }),
        },
    ]
}

#[test]
fn run_is_deterministic_for_identical_inputs() {
    let first = Pipeline::compile(sample_descriptors(), Vec::new(), Vec::new())
        .run("The quick brown fox")
        .expect("run succeeds");
    let second = Pipeline::compile(sample_descriptors(), Vec::new(), Vec::new())
        .run("The quick brown fox")
        .expect("run succeeds");
    assert_eq!(first, second);
}

#[test]
fn empty_pipeline_returns_input_unchanged() {
    let pipeline = Pipeline::compile(Vec::new(), Vec::new(), Vec::new());
    assert_eq!(pipeline.run("as it was").unwrap(), "as it was");
}

#[test]
fn run_applies_steps_in_order() {
    let pipeline = Pipeline::compile(sample_descriptors(), Vec::new(), Vec::new());
    assert_eq!(
        pipeline.run("Hello world").unwrap(),
        "Hello Hello world world"
    );
}

#[test]
fn exclude_filter_removes_steps_by_name() {
    let pipeline = Pipeline::compile(
        sample_descriptors(),
        Vec::new(),
        vec!["redup*".to_string()],
    );
    assert_eq!(pipeline.run("Hello world").unwrap(), "Hello world");
}

#[test]
fn include_only_filter_keeps_matching_steps() {
    let pipeline = Pipeline::compile(
        sample_descriptors(),
        vec!["swap".to_string()],
        Vec::new(),
    );
    assert_eq!(pipeline.run("Hello world").unwrap(), "Hello world");
}

#[test]
fn pipeline_propagates_step_errors() {
    let descriptors = vec![GlitchDescriptor {
        name: "redact".to_string(),
        seed: 1,
        operation: GlitchOperation::Redact(RedactWordsOp {
            replacement_char: "█".to_string(),
            rate: UNIT_ONE / 2,
            merge_adjacent: false,
            unweighted: false,
        }),
    }];
    let pipeline = Pipeline::compile(descriptors, Vec::new(), Vec::new());
    assert!(pipeline.run("   ").is_err());
}

#[test]
fn planned_seeds_are_stable_under_filtering() {
    let master: u128 = 0xDEAD_BEEF_0123;
    let solo = plan_gaggle(
        vec![GagglePlanInput {
            index: 0,
            name: "typo".to_string(),
            scope: 2,
            order: 7,
        }],
        master,
    );
    let crowded = plan_gaggle(
        vec![
            GagglePlanInput {
                index: 0,
                name: "redact".to_string(),
                scope: 1,
                order: 1,
            },
            GagglePlanInput {
                index: 1,
                name: "typo".to_string(),
                scope: 2,
                order: 7,
            },
            GagglePlanInput {
                index: 2,
                name: "delete".to_string(),
                scope: 3,
                order: 9,
            },
        ],
        master,
    );
    assert_eq!(solo[0].seed, crowded[1].seed);
    assert_eq!(solo[0].seed, derive_seed(master, "typo", 2, 7));
}

#[test]
fn derived_seeds_depend_on_each_field() {
    let base = derive_seed(5, "step", 0, 0);
    assert_eq!(base, derive_seed(5, "step", 0, 0));
    assert_ne!(base, derive_seed(6, "step", 0, 0));
    assert_ne!(base, derive_seed(5, "Step", 0, 0));
    assert_ne!(base, derive_seed(5, "step", 1, 0));
    assert_ne!(base, derive_seed(5, "step", 0, 1));
}

#[test]
fn generator_replays_identically_from_a_seed() {
    let mut a = DeterministicRng::new(987);
    let mut b = DeterministicRng::new(987);
    for _ in 0..16 {
        assert_eq!(a.random_unit(), b.random_unit());
    }
    assert_eq!(a.rand_index(10).unwrap(), b.rand_index(10).unwrap());
}

#[test]
fn rand_index_rejects_empty_ranges() {
    let mut rng = DeterministicRng::new(3);
    assert_eq!(rng.rand_index(0).unwrap_err(), RngError::EmptyRange);
    let value = rng.rand_index(5).unwrap();
    assert!(value < 5);
}

#[test]
fn sample_indices_are_distinct_and_in_range() {
    let mut rng = DeterministicRng::new(77);
    let sample = rng.sample_indices(10, 6).unwrap();
    assert_eq!(sample.len(), 6);
    for (i, a) in sample.iter().enumerate() {
        assert!(*a < 10);
        for b in sample.iter().skip(i + 1) {
            assert_ne!(a, b);
        }
    }
    assert!(rng.sample_indices(3, 4).is_err());
    assert_eq!(rng.sample_indices(3, 0).unwrap().len(), 0);
}

#[test]
fn weighted_sampling_rejects_excessive_requests() {
    let mut rng = DeterministicRng::new(13);
    let items: Vec<(usize, u64)> = vec![(10, 1), (20, 5), (30, 2)];
    assert!(weighted_sample_without_replacement(&mut rng, &items, 4).is_err());

    let before = rng.rand_index(1000).unwrap();
    let mut replay = DeterministicRng::new(13);
    // The failed call consumed no randomness.
    assert_eq!(before, replay.rand_index(1000).unwrap());
}

#[test]
fn weighted_sampling_of_zero_items_is_empty_and_free() {
    let mut rng = DeterministicRng::new(21);
    let items: Vec<(usize, u64)> = vec![(1, 1), (2, 1)];
    let selection = weighted_sample_without_replacement(&mut rng, &items, 0).unwrap();
    assert!(selection.is_empty());
    let mut replay = DeterministicRng::new(21);
    assert_eq!(rng.rand_index(99).unwrap(), replay.rand_index(99).unwrap());
}

#[test]
fn weighted_sampling_returns_distinct_candidates() {
    let mut rng = DeterministicRng::new(5);
    let items: Vec<(usize, u64)> = vec![(100, 1), (200, 9), (300, 4)];
    let selection = weighted_sample_without_replacement(&mut rng, &items, 3).unwrap();
    let mut sorted = selection.clone();
    sorted.sort_unstable();
    assert_eq!(sorted, vec![100, 200, 300]);
}

#[test]
fn compile_with_master_matches_planned_seeds() {
    let master: u128 = 4242;
    let pipeline = Pipeline::compile_with_master(
        master,
        vec![PlannedStep {
            name: "redup".to_string(),
            scope: 1,
            order: 3,
            operation: GlitchOperation::Reduplicate(ReduplicateWordsOp {
                rate: UNIT_ONE,
                unweighted: false,
            }),
        }],
        Vec::new(),
        Vec::new(),
    );
    // The derived seed is the planned one, so the runs agree with a
    // pipeline seeded by hand from the same derivation.
    let by_hand = Pipeline::compile(
        vec![GlitchDescriptor {
            name: "redup".to_string(),
            seed: derive_seed(master, "redup", 1, 3),
            operation: GlitchOperation::Reduplicate(ReduplicateWordsOp {
                rate: UNIT_ONE,
                unweighted: false,
            }),
        }],
        Vec::new(),
        Vec::new(),
    );
    assert_eq!(
        pipeline.run("tick tock").unwrap(),
        by_hand.run("tick tock").unwrap()
    );
}

#[test]
fn sampler_draws_once_per_candidate_whatever_k_is() {
    // One uniform draw per candidate, independent of k: after sampling
    // one of three items, the generator sits exactly three draws in.
    let items: Vec<(usize, u64)> = vec![(7, 1), (8, 2), (9, 3)];
    let mut used = DeterministicRng::new(99);
    weighted_sample_without_replacement(&mut used, &items, 1).unwrap();
    let mut advanced = DeterministicRng::new(99);
    advanced.random_unit();
    advanced.random_unit();
    advanced.random_unit();
    assert_eq!(used.rand_index(1000).unwrap(), advanced.rand_index(1000).unwrap());
}

#[test]
fn resolve_seed_honours_explicit_seeds() {
    assert_eq!(resolve_seed(Some(5)), 5);
    let _fresh = resolve_seed(None);
}
