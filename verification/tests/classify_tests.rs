use zoo::homophone::HomophoneWeighting;
use zoo::quotes::{QuoteKind, QuotePairsOp};
use zoo::typo::{classify_transition, MotorWeighting, TransitionType, TypoAction};

#[test]
fn homophone_weighting_parses_known_names_only() {
    assert_eq!(
        HomophoneWeighting::try_from_str("flat"),
        Some(HomophoneWeighting::Flat)
    );
    assert_eq!(HomophoneWeighting::try_from_str("steep"), None);
    assert_eq!(HomophoneWeighting::Flat.as_str(), "flat");
}

#[test]
fn motor_weighting_parses_with_case_and_dash_folding() {
    assert_eq!(MotorWeighting::from_str("uniform"), Some(MotorWeighting::Uniform));
    assert_eq!(MotorWeighting::from_str("WET-INK"), Some(MotorWeighting::WetInk));
    assert_eq!(
        MotorWeighting::from_str("Hastily_Edited"),
        Some(MotorWeighting::HastilyEdited)
    );
    assert_eq!(MotorWeighting::from_str("wetink"), None);
}

#[test]
fn transitions_follow_the_keyboard_model() {
    assert_eq!(classify_transition('f', 'v'), TransitionType::SameFinger);
    assert_eq!(classify_transition('a', 'd'), TransitionType::SameHand);
    assert_eq!(classify_transition('f', 'j'), TransitionType::CrossHand);
    assert_eq!(classify_transition('f', ' '), TransitionType::Space);
    assert_eq!(classify_transition('f', 'é'), TransitionType::Unknown);
}

#[test]
fn motor_weights_bias_same_finger_transitions() {
    let wet = MotorWeighting::WetInk;
    let hasty = MotorWeighting::HastilyEdited;
    assert_eq!(wet.weight_for_transition(TransitionType::SameFinger), 858);
    assert_eq!(hasty.weight_for_transition(TransitionType::SameFinger), 3031);
    assert_eq!(
        MotorWeighting::Uniform.weight_for_transition(TransitionType::SameFinger),
        1000
    );
    assert_eq!(wet.weight_for_transition(TransitionType::CrossHand), 1000);
}

#[test]
fn typo_actions_cover_the_catalogue() {
    assert_eq!(TypoAction::count(), 8);
    assert_eq!(TypoAction::from_index(0), TypoAction::SwapAdjacent);
    assert_eq!(TypoAction::from_index(7), TypoAction::RepeatChar);
    assert_eq!(TypoAction::from_index(99), TypoAction::SwapAdjacent);
    assert!(TypoAction::Delete.is_char_level());
    assert!(!TypoAction::InsertSpace.is_char_level());
}

#[test]
fn quote_pairs_match_per_kind() {
    let pairs = QuotePairsOp::collect_pairs("say \"hi\" and 'lo' or `x`");
    assert_eq!(pairs.len(), 3);
    assert_eq!(pairs[0].kind, QuoteKind::Double);
    assert_eq!((pairs[0].start, pairs[0].end), (4, 7));
    assert_eq!(pairs[1].kind, QuoteKind::Single);
    assert_eq!(pairs[2].kind, QuoteKind::Backtick);
    assert_eq!(QuoteKind::Double.as_char(), '"');
    assert_eq!(QuoteKind::Backtick.index(), 2);

    let unclosed = QuotePairsOp::collect_pairs("only \"one");
    assert!(unclosed.is_empty());
}
