//! Similarities as integers.

use vstd::prelude::*;

verus! {

/// A similarity as the library sees it: an integer key whose order is the
/// order of the floating-point value it stands for. A higher key is a better
/// match. The host maps its floats to keys and back; the library compares.
#[derive(Debug, Clone, Copy, PartialEq, Eq, Structural)]
pub struct Score {
    pub key: u32,
}

impl Score {
    pub fn new(key: u32) -> (r: Self)
        ensures
            r.key == key,
    {
        Score { key }
    }

    /// Whether this similarity reaches `threshold`.
    pub fn reaches(&self, threshold: Score) -> (r: bool)
        ensures
            r == (self.key >= threshold.key),
    {
        self.key >= threshold.key
    }
}

} // verus!
