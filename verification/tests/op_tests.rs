use zoo::glitch_ops::{
    DeleteRandomWordsOp, GlitchOpError, RedactWordsOp, ReduplicateWordsOp, RushmoreComboMode,
    RushmoreComboOp, SwapAdjacentWordsOp,
};
use zoo::rng::{DeterministicRng, UNIT_ONE};
use zoo::text_buffer::TextBuffer;

#[test]
fn reduplication_inserts_duplicate_with_space() {
    let mut buffer = TextBuffer::from_owned("Hello world".to_string());
    let mut rng = DeterministicRng::new(151);
    let op = ReduplicateWordsOp {
        rate: UNIT_ONE,
        unweighted: false,
    };
    op.apply(&mut buffer, &mut rng)
        .expect("reduplication works");
    assert_eq!(buffer.to_string(), "Hello Hello world world");
}

#[test]
fn swap_adjacent_words_swaps_cores() {
    let mut buffer = TextBuffer::from_owned("Alpha, beta! Gamma delta".to_string());
    let mut rng = DeterministicRng::new(7);
    let op = SwapAdjacentWordsOp { rate: UNIT_ONE };
    op.apply(&mut buffer, &mut rng)
        .expect("swap operation succeeds");
    let result = buffer.to_string();
    assert_ne!(result, "Alpha, beta! Gamma delta");
    assert!(result.contains("beta, Alpha"));
    assert!(result.contains("delta Gamma"));
}

#[test]
fn swap_adjacent_words_respects_zero_rate() {
    let original = "Do not move these words";
    let mut buffer = TextBuffer::from_owned(original.to_string());
    let mut rng = DeterministicRng::new(42);
    let op = SwapAdjacentWordsOp { rate: 0 };
    op.apply(&mut buffer, &mut rng)
        .expect("swap operation succeeds");
    assert_eq!(buffer.to_string(), original);
}

#[test]
fn delete_random_words_cleans_up_spacing() {
    let mut buffer = TextBuffer::from_owned("One two three four five".to_string());
    let mut rng = DeterministicRng::new(151);
    let op = DeleteRandomWordsOp {
        rate: (UNIT_ONE / 4) * 3,
        unweighted: false,
    };
    let original_words = buffer.to_string().split_whitespace().count();
    op.apply(&mut buffer, &mut rng).expect("deletion works");
    let result = buffer.to_string();
    assert!(result.split_whitespace().count() < original_words);
    assert!(!result.contains("  "));
}

#[test]
fn redact_words_respects_sample_and_merge() {
    let mut buffer = TextBuffer::from_owned("Keep secrets safe".to_string());
    let mut rng = DeterministicRng::new(151);
    let op = RedactWordsOp {
        replacement_char: "█".to_string(),
        rate: (UNIT_ONE / 5) * 4,
        merge_adjacent: true,
        unweighted: false,
    };
    op.apply(&mut buffer, &mut rng).expect("redaction works");
    let result = buffer.to_string();
    assert!(result.contains('█'));
}

#[test]
fn redact_words_without_candidates_errors() {
    let mut buffer = TextBuffer::from_owned("   ".to_string());
    let mut rng = DeterministicRng::new(151);
    let op = RedactWordsOp {
        replacement_char: "█".to_string(),
        rate: UNIT_ONE / 2,
        merge_adjacent: false,
        unweighted: false,
    };
    let error = op.apply(&mut buffer, &mut rng).unwrap_err();
    match error {
        GlitchOpError::NoRedactableWords => {}
        other => panic!("expected no redactable words, got {other:?}"),
    }
}

#[test]
fn reduplication_is_deterministic_for_seed() {
    let mut buffer = TextBuffer::from_owned("The quick brown fox".to_string());
    let mut rng = DeterministicRng::new(123);
    let op = ReduplicateWordsOp {
        rate: UNIT_ONE / 2,
        unweighted: false,
    };
    op.apply(&mut buffer, &mut rng)
        .expect("reduplication succeeds");
    let result = buffer.to_string();
    let duplicates = result
        .split_whitespace()
        .collect::<Vec<_>>()
        .windows(2)
        .any(|pair| pair[0] == pair[1]);
    assert!(duplicates, "expected at least one duplicated word");
}

#[test]
fn delete_removes_words_for_seed() {
    let mut buffer = TextBuffer::from_owned(
        "The quick brown fox jumps over the lazy dog.".to_string(),
    );
    let mut rng = DeterministicRng::new(123);
    let op = DeleteRandomWordsOp {
        rate: UNIT_ONE / 2,
        unweighted: false,
    };
    let original_count = buffer.to_string().split_whitespace().count();
    op.apply(&mut buffer, &mut rng).expect("deletion succeeds");
    let result = buffer.to_string();
    assert!(result.split_whitespace().count() < original_count);
}

#[test]
fn redact_replaces_words_for_seed() {
    let mut buffer = TextBuffer::from_owned("Hide these words please".to_string());
    let mut rng = DeterministicRng::new(42);
    let op = RedactWordsOp {
        replacement_char: "█".to_string(),
        rate: UNIT_ONE / 2,
        merge_adjacent: false,
        unweighted: false,
    };
    op.apply(&mut buffer, &mut rng).expect("redaction succeeds");
    let result = buffer.to_string();
    assert!(result.contains('█'));
    assert!(result.split_whitespace().any(|word| word.contains('█')));
}

#[test]
fn redact_merge_merges_adjacent_for_seed() {
    let mut buffer = TextBuffer::from_owned("redact these words".to_string());
    let mut rng = DeterministicRng::new(7);
    let op = RedactWordsOp {
        replacement_char: "█".to_string(),
        rate: UNIT_ONE,
        merge_adjacent: true,
        unweighted: false,
    };
    op.apply(&mut buffer, &mut rng).expect("redaction succeeds");
    let result = buffer.to_string();
    assert!(!result.trim().is_empty());
    assert!(result.chars().all(|ch| ch == '█'));
}

#[test]
fn redact_rate_above_one_is_excessive() {
    let mut buffer = TextBuffer::from_owned("three small words".to_string());
    let mut rng = DeterministicRng::new(9);
    let op = RedactWordsOp {
        replacement_char: "#".to_string(),
        rate: UNIT_ONE * 2,
        merge_adjacent: false,
        unweighted: false,
    };
    let error = op.apply(&mut buffer, &mut rng).unwrap_err();
    assert!(matches!(
        error,
        GlitchOpError::ExcessiveRedaction {
            requested: 6,
            available: 3
        }
    ));
}

#[test]
fn delete_rate_zero_is_a_no_op() {
    let original = "nothing should move here";
    let mut buffer = TextBuffer::from_owned(original.to_string());
    let mut rng = DeterministicRng::new(5);
    let op = DeleteRandomWordsOp {
        rate: 0,
        unweighted: false,
    };
    op.apply(&mut buffer, &mut rng).expect("deletion succeeds");
    assert_eq!(buffer.to_string(), original);
}

#[test]
fn reduplicate_rate_zero_is_a_no_op() {
    let original = "stay exactly the same";
    let mut buffer = TextBuffer::from_owned(original.to_string());
    let mut rng = DeterministicRng::new(5);
    let op = ReduplicateWordsOp {
        rate: 0,
        unweighted: false,
    };
    op.apply(&mut buffer, &mut rng).expect("reduplication succeeds");
    assert_eq!(buffer.to_string(), original);
}

#[test]
fn rushmore_combo_runs_steps_in_mode_order() {
    let mut buffer = TextBuffer::from_owned("Hello world".to_string());
    let mut rng = DeterministicRng::new(11);
    let op = RushmoreComboOp::new(
        vec![RushmoreComboMode::Duplicate, RushmoreComboMode::Swap],
        None,
        Some(ReduplicateWordsOp {
            rate: UNIT_ONE,
            unweighted: false,
        }),
        Some(SwapAdjacentWordsOp { rate: 0 }),
    );
    op.apply(&mut buffer, &mut rng).expect("combo succeeds");
    assert_eq!(buffer.to_string(), "Hello Hello world world");
}
