//! Weighting modes for homophone substitution.
//!
//! The homophone step swaps a word for another member of its homophone
//! group; the weighting mode names how an alternative is chosen from
//! the group. An unknown mode string is a configuration error that the
//! caller reports with the offending value.

use vstd::prelude::*;

verus! {

/// How a homophone alternative is drawn from its group.
#[derive(Debug, Clone, Copy, PartialEq, Eq, Structural)]
pub enum HomophoneWeighting {
    /// Every alternative is equally likely.
    Flat,
}

impl HomophoneWeighting {
    /// Parses a weighting mode; `None` exactly for unknown names.
    pub fn try_from_str(value: &str) -> (r: Option<HomophoneWeighting>)
        ensures
            r == (if value@ == ("flat")@ {
                Some(HomophoneWeighting::Flat)
            } else {
                None::<HomophoneWeighting>
            }),
    {
        let flat: String = String::from_str("flat");
        let owned: String = value.to_owned();
        if flat.eq(&owned) {
            Some(HomophoneWeighting::Flat)
        } else {
            None
        }
    }

    /// The mode's canonical name.
    pub fn as_str(self) -> (r: &'static str)
        ensures
            r@ == ("flat")@,
    {
        "flat"
    }
}

} // verus!
