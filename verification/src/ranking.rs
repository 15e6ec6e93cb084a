//! The order in which the search prefers states.

use vstd::prelude::*;
use core::cmp::Ordering;
use crate::bitset::set_len;
use crate::model::{TourView, TspState};

verus! {

/// Ranks states by how close they are to a complete tour.
#[derive(Debug, Clone, Copy)]
pub struct TspRanking;

impl TspRanking {
    /// `a` is closer to completion than `b`: it has fewer destinations that
    /// it must visit; or as many, and fewer that it might visit; or as many of
    /// both, and fewer destinations at which it may stand.
    pub open spec fn closer(a: TourView, b: TourView) -> bool {
        ||| a.must_visit.len() < b.must_visit.len()
        ||| a.must_visit.len() == b.must_visit.len() && a.might_visit.len() < b.might_visit.len()
        ||| a.must_visit.len() == b.must_visit.len() && a.might_visit.len() == b.might_visit.len()
            && a.current.len() < b.current.len()
    }

    /// Neither state is closer to completion than the other.
    pub open spec fn tied(a: TourView, b: TourView) -> bool {
        &&& a.must_visit.len() == b.must_visit.len()
        &&& a.might_visit.len() == b.might_visit.len()
        &&& a.current.len() == b.current.len()
    }

    /// Compares two states for a frontier that takes the greatest first: the
    /// state closer to completion is the greater.
    pub fn compare(&self, a: &TspState, b: &TspState) -> (o: Ordering)
        ensures
            o == Ordering::Greater <==> Self::closer(a@, b@),
            o == Ordering::Less <==> Self::closer(b@, a@),
            o == Ordering::Equal <==> Self::tied(a@, b@),
    {
        let a_must: usize = set_len(a.must_visit);
        let b_must: usize = set_len(b.must_visit);
        let a_might: usize = set_len(a.might_visit);
        let b_might: usize = set_len(b.might_visit);
        let a_curr: usize = set_len(a.current);
        let b_curr: usize = set_len(b.current);
        if a_must < b_must {
            Ordering::Greater
        } else if a_must > b_must {
            Ordering::Less
        } else if a_might < b_might {
            Ordering::Greater
        } else if a_might > b_might {
            Ordering::Less
        } else if a_curr < b_curr {
            Ordering::Greater
        } else if a_curr > b_curr {
            Ordering::Less
        } else {
            Ordering::Equal
        }
    }
}

/// The ranking is a strict order up to ties: of two states exactly one of
/// "the first is closer", "the second is closer" and "tied" holds, and
/// "closer" is transitive.
pub proof fn lemma_ranking_is_total_order(a: TourView, b: TourView, c: TourView)
    ensures
        TspRanking::closer(a, b) || TspRanking::closer(b, a) || TspRanking::tied(a, b),
        !(TspRanking::closer(a, b) && TspRanking::closer(b, a)),
        !(TspRanking::closer(a, b) && TspRanking::tied(a, b)),
        TspRanking::closer(a, b) && TspRanking::closer(b, c) ==> TspRanking::closer(a, c),
{
}

} // verus!
