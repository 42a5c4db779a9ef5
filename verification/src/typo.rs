//! Motor-coordination classification for typo injection.
//!
//! Typo injection biases neighbour-substitution sampling by how hard a
//! keyboard transition is for the typist: a same-finger slip is caught
//! or amplified depending on whether the text models corrected or raw
//! typing. This module holds the keyboard hand/finger model, the
//! transition classifier, the weighting modes with their fixed-point
//! multipliers, and the catalogue of corruption actions.

use vstd::prelude::*;

verus! {

/// Fixed-point scale for transition weight multipliers: a weight of
/// `WEIGHT_UNIT` stands for an unbiased multiplier of one.
pub const WEIGHT_UNIT: u64 = 1000;

/// The hand and finger a key is struck with: hand 0 is left, 1 right,
/// 2 the thumb on space; finger 0 is the pinky through 3 the index,
/// 4 the thumb.
pub open spec fn spec_finger_for_char(c: char) -> Option<(u8, u8)> {
    let u = c as u32;
    let l: int = if 65 <= u && u <= 90 {
        u as int + 32
    } else {
        u as int
    };
    if l == 96 || l == 49 || l == 113 || l == 97 || l == 122 || l == 126 || l == 33 {
        Some((0u8, 0u8))
    } else if l == 50 || l == 119 || l == 115 || l == 120 || l == 64 {
        Some((0u8, 1u8))
    } else if l == 51 || l == 101 || l == 100 || l == 99 || l == 35 {
        Some((0u8, 2u8))
    } else if l == 52 || l == 114 || l == 102 || l == 118 || l == 53 || l == 116 || l == 103
        || l == 98 || l == 36 || l == 37 {
        Some((0u8, 3u8))
    } else if l == 54 || l == 121 || l == 104 || l == 110 || l == 55 || l == 117 || l == 106
        || l == 109 || l == 94 || l == 38 {
        Some((1u8, 3u8))
    } else if l == 56 || l == 105 || l == 107 || l == 44 || l == 42 || l == 60 {
        Some((1u8, 2u8))
    } else if l == 57 || l == 111 || l == 108 || l == 46 || l == 40 || l == 62 {
        Some((1u8, 1u8))
    } else if l == 48 || l == 112 || l == 59 || l == 47 || l == 45 || l == 91 || l == 39 || l == 41
        || l == 58 || l == 63 || l == 95 || l == 123 || l == 34 || l == 61 || l == 93 || l == 92
        || l == 43 || l == 125 || l == 124 {
        Some((1u8, 0u8))
    } else if l == 32 {
        Some((2u8, 4u8))
    } else {
        None
    }
}

/// Executable form of [`spec_finger_for_char`].
pub fn finger_for_char(c: char) -> (r: Option<(u8, u8)>)
    ensures
        r == spec_finger_for_char(c),
{
    let u: u32 = c as u32;
    let l: u32 = if 65 <= u && u <= 90 {
        u + 32
    } else {
        u
    };
    if l == 96 || l == 49 || l == 113 || l == 97 || l == 122 || l == 126 || l == 33 {
        Some((0u8, 0u8))
    } else if l == 50 || l == 119 || l == 115 || l == 120 || l == 64 {
        Some((0u8, 1u8))
    } else if l == 51 || l == 101 || l == 100 || l == 99 || l == 35 {
        Some((0u8, 2u8))
    } else if l == 52 || l == 114 || l == 102 || l == 118 || l == 53 || l == 116 || l == 103
        || l == 98 || l == 36 || l == 37 {
        Some((0u8, 3u8))
    } else if l == 54 || l == 121 || l == 104 || l == 110 || l == 55 || l == 117 || l == 106
        || l == 109 || l == 94 || l == 38 {
        Some((1u8, 3u8))
    } else if l == 56 || l == 105 || l == 107 || l == 44 || l == 42 || l == 60 {
        Some((1u8, 2u8))
    } else if l == 57 || l == 111 || l == 108 || l == 46 || l == 40 || l == 62 {
        Some((1u8, 1u8))
    } else if l == 48 || l == 112 || l == 59 || l == 47 || l == 45 || l == 91 || l == 39 || l == 41
        || l == 58 || l == 63 || l == 95 || l == 123 || l == 34 || l == 61 || l == 93 || l == 92
        || l == 43 || l == 125 || l == 124 {
        Some((1u8, 0u8))
    } else if l == 32 {
        Some((2u8, 4u8))
    } else {
        None
    }
}

/// How one keystroke follows another on the modelled keyboard.
#[derive(Debug, Clone, Copy, PartialEq, Eq, Structural)]
pub enum TransitionType {
    /// The same finger strikes both keys.
    SameFinger,
    /// The same hand but a different finger.
    SameHand,
    /// The hands alternate.
    CrossHand,
    /// Either key is the space bar.
    Space,
    /// Either character is off the modelled keyboard.
    Unknown,
}

/// The transition class of a character pair.
pub open spec fn spec_classify_transition(prev: char, curr: char) -> TransitionType {
    match (spec_finger_for_char(prev), spec_finger_for_char(curr)) {
        (Some(p), Some(c)) => {
            if p.0 == 2 || c.0 == 2 {
                TransitionType::Space
            } else if p.0 != c.0 {
                TransitionType::CrossHand
            } else if p.1 == c.1 {
                TransitionType::SameFinger
            } else {
                TransitionType::SameHand
            }
        },
        _ => TransitionType::Unknown,
    }
}

/// Executable form of [`spec_classify_transition`].
pub fn classify_transition(prev: char, curr: char) -> (r: TransitionType)
    ensures
        r == spec_classify_transition(prev, curr),
{
    let p = match finger_for_char(prev) {
        Some(f) => f,
        None => {
            return TransitionType::Unknown;
        },
    };
    let c = match finger_for_char(curr) {
        Some(f) => f,
        None => {
            return TransitionType::Unknown;
        },
    };
    if p.0 == 2 || c.0 == 2 {
        TransitionType::Space
    } else if p.0 != c.0 {
        TransitionType::CrossHand
    } else if p.1 == c.1 {
        TransitionType::SameFinger
    } else {
        TransitionType::SameHand
    }
}

/// Motor coordination weighting mode for typo sampling.
#[derive(Debug, Clone, Copy, PartialEq, Eq, Structural)]
pub enum MotorWeighting {
    /// All neighbours equally likely.
    Uniform,
    /// Corrected text: same-finger errors are mostly caught, so they
    /// are suppressed relative to cross-hand slips.
    WetInk,
    /// Raw typing before correction: same-finger errors dominate.
    HastilyEdited,
}

/// A mode name character, folded for matching: ASCII upper case is
/// lowered and a dash reads as an underscore.
pub open spec fn spec_fold_mode_char(c: char) -> int {
    let u = c as u32;
    if 65 <= u && u <= 90 {
        u as int + 32
    } else if u == 45 {
        95
    } else {
        u as int
    }
}

/// Whether a mode name matches a canonical name after folding.
pub open spec fn spec_mode_is(name: Seq<char>, target: Seq<char>) -> bool {
    name.len() == target.len() && forall|i: int|
        0 <= i < name.len() ==> spec_fold_mode_char(#[trigger] name[i]) == (target[i] as u32) as int
}

/// Compares a mode name to a canonical target, folding case and
/// dashes.
fn mode_is(name: &str, target: &str) -> (r: bool)
    ensures
        r == spec_mode_is(name@, target@),
{
    let nl: usize = name.unicode_len();
    let tl: usize = target.unicode_len();
    if nl != tl {
        return false;
    }
    let mut i: usize = 0;
    while i < nl
        invariant
            nl == name@.len(),
            nl == target@.len(),
            i <= nl,
            forall|k: int|
                0 <= k < i ==> spec_fold_mode_char(#[trigger] name@[k]) == (target@[k] as u32)
                    as int,
        decreases nl - i,
    {
        let c: char = name.get_char(i);
        let u: u32 = c as u32;
        let folded: u32 = if 65 <= u && u <= 90 {
            u + 32
        } else if u == 45 {
            95
        } else {
            u
        };
        if folded != target.get_char(i) as u32 {
            return false;
        }
        i = i + 1;
    }
    true
}

impl MotorWeighting {
    /// Parses a motor weighting mode, ignoring case and reading dashes
    /// as underscores; `None` exactly for unknown names.
    pub fn from_str(s: &str) -> (r: Option<MotorWeighting>)
        ensures
            r == (if spec_mode_is(s@, ("uniform")@) {
                Some(MotorWeighting::Uniform)
            } else if spec_mode_is(s@, ("wet_ink")@) {
                Some(MotorWeighting::WetInk)
            } else if spec_mode_is(s@, ("hastily_edited")@) {
                Some(MotorWeighting::HastilyEdited)
            } else {
                None::<MotorWeighting>
            }),
    {
        if mode_is(s, "uniform") {
            Some(MotorWeighting::Uniform)
        } else if mode_is(s, "wet_ink") {
            Some(MotorWeighting::WetInk)
        } else if mode_is(s, "hastily_edited") {
            Some(MotorWeighting::HastilyEdited)
        } else {
            None
        }
    }

    /// The weight multiplier for a transition class, scaled by
    /// [`WEIGHT_UNIT`].
    pub fn weight_for_transition(self, transition: TransitionType) -> (r: u64)
        ensures
            self is Uniform ==> r == WEIGHT_UNIT,
            self is WetInk && transition is SameFinger ==> r == 858,
            self is WetInk && transition is SameHand ==> r == 965,
            self is HastilyEdited && transition is SameFinger ==> r == 3031,
            self is HastilyEdited && transition is SameHand ==> r == 1101,
            transition is CrossHand || transition is Space || transition is Unknown ==> r
                == WEIGHT_UNIT,
    {
        match self {
            MotorWeighting::Uniform => WEIGHT_UNIT,
            MotorWeighting::WetInk => match transition {
                TransitionType::SameFinger => 858,
                TransitionType::SameHand => 965,
                TransitionType::CrossHand => WEIGHT_UNIT,
                TransitionType::Space => WEIGHT_UNIT,
                TransitionType::Unknown => WEIGHT_UNIT,
            },
            MotorWeighting::HastilyEdited => match transition {
                TransitionType::SameFinger => 3031,
                TransitionType::SameHand => 1101,
                TransitionType::CrossHand => WEIGHT_UNIT,
                TransitionType::Space => WEIGHT_UNIT,
                TransitionType::Unknown => WEIGHT_UNIT,
            },
        }
    }
}

/// The corruption actions typo injection can take in one iteration.
#[derive(Debug, Clone, Copy, PartialEq, Eq, Structural)]
pub enum TypoAction {
    /// Swap the chosen character with the next one.
    SwapAdjacent,
    /// Delete the chosen character.
    Delete,
    /// Insert a keyboard neighbour before the chosen character.
    InsertNeighbor,
    /// Replace the chosen character with a keyboard neighbour.
    ReplaceNeighbor,
    /// Remove a space from a separator.
    RemoveSpace,
    /// Insert a space into a word.
    InsertSpace,
    /// Collapse adjacent duplicate characters.
    CollapseDuplicate,
    /// Duplicate the chosen character.
    RepeatChar,
}

impl TypoAction {
    /// The number of actions an iteration draws from.
    pub fn count() -> (r: usize)
        ensures
            r == 8,
    {
        8
    }

    /// The action a uniform draw selects; indices past the catalogue
    /// fall back to the first action.
    pub fn from_index(idx: usize) -> (r: TypoAction)
        ensures
            idx == 0 ==> r == TypoAction::SwapAdjacent,
            idx == 1 ==> r == TypoAction::Delete,
            idx == 2 ==> r == TypoAction::InsertNeighbor,
            idx == 3 ==> r == TypoAction::ReplaceNeighbor,
            idx == 4 ==> r == TypoAction::RemoveSpace,
            idx == 5 ==> r == TypoAction::InsertSpace,
            idx == 6 ==> r == TypoAction::CollapseDuplicate,
            idx == 7 ==> r == TypoAction::RepeatChar,
            idx >= 8 ==> r == TypoAction::SwapAdjacent,
    {
        match idx {
            0 => TypoAction::SwapAdjacent,
            1 => TypoAction::Delete,
            2 => TypoAction::InsertNeighbor,
            3 => TypoAction::ReplaceNeighbor,
            4 => TypoAction::RemoveSpace,
            5 => TypoAction::InsertSpace,
            6 => TypoAction::CollapseDuplicate,
            7 => TypoAction::RepeatChar,
            _ => TypoAction::SwapAdjacent,
        }
    }

    /// Whether the action needs an eligible character inside a word.
    pub fn is_char_level(self) -> (r: bool)
        ensures
            r == (self is SwapAdjacent || self is Delete || self is InsertNeighbor
                || self is ReplaceNeighbor),
    {
        matches!(
            self,
            TypoAction::SwapAdjacent | TypoAction::Delete | TypoAction::InsertNeighbor
                | TypoAction::ReplaceNeighbor
        )
    }
}

} // verus!
