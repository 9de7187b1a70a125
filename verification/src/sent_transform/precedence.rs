//! The order in which candidates are sorted: by score, highest first.
use std::cmp::Ordering;
use vstd::prelude::*;
use vstd::std_specs::cmp::PartialOrdSpecImpl;
use crate::sent_transform::rank_of;
use crate::sent_transform::score_rank;
use crate::sent_transform::IndexWithScore;

verus! {

impl PartialOrd for IndexWithScore {
    /// Compares two candidates by score alone, so that sorting in ascending
    /// order puts the highest score first. Candidates of equal score compare
    /// equal, whatever their positions.
    fn partial_cmp(&self, other: &Self) -> (r: Option<Ordering>) {
        let mine: i64 = rank_of(self.score);
        let theirs: i64 = rank_of(other.score);
        if mine > theirs {
            Some(Ordering::Less)
        } else if mine < theirs {
            Some(Ordering::Greater)
        } else {
            Some(Ordering::Equal)
        }
    }
}

impl PartialOrdSpecImpl for IndexWithScore {
    open spec fn obeys_partial_cmp_spec() -> bool {
        true
    }

    open spec fn partial_cmp_spec(&self, other: &Self) -> Option<Ordering> {
        if score_rank(self.score) > score_rank(other.score) {
            Some(Ordering::Less)
        } else if score_rank(self.score) < score_rank(other.score) {
            Some(Ordering::Greater)
        } else {
            Some(Ordering::Equal)
        }
    }
}

} // verus!
