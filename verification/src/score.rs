//! Resolved expiration instants, the scores of the store's ordered sets.

use vstd::prelude::*;

verus! {

/// A resolved expiration instant: a finite timestamp in whole seconds since
/// the Unix epoch, or `Never` for entries that never expire. `Never` sorts
/// after every finite instant, standing in for the store's infinite score.
#[derive(Clone, Copy, Debug, PartialEq, Eq, Structural)]
pub enum Score {
    At(i64),
    Never,
}

/// Total order on scores: finite instants by their timestamp, `Never` last.
pub open spec fn score_le(a: Score, b: Score) -> bool {
    match (a, b) {
        (Score::At(x), Score::At(y)) => x <= y,
        (Score::At(_), Score::Never) => true,
        (Score::Never, Score::At(_)) => false,
        (Score::Never, Score::Never) => true,
    }
}

pub open spec fn score_lt(a: Score, b: Score) -> bool {
    score_le(a, b) && a != b
}

impl Score {
    /// Whether `self` sorts at or before `other`.
    pub fn le(self, other: Score) -> (r: bool)
        ensures
            r == score_le(self, other),
    {
        match (self, other) {
            (Score::At(x), Score::At(y)) => x <= y,
            (Score::At(_), Score::Never) => true,
            (Score::Never, Score::At(_)) => false,
            (Score::Never, Score::Never) => true,
        }
    }
}

} // verus!
