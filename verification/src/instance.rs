//! The travelling-salesman instance: destinations and pairwise travel costs.

use vstd::prelude::*;

verus! {

/// One unit of travel cost is this fraction of a distance unit: costs are
/// distances multiplied by the scale and rounded to the nearest integer.
pub const COST_SCALE: isize = 100_000;

/// An immutable instance. `destinations` holds the identifiers of the
/// locations, the depot first. `distances[i][j]` is the fixed-point cost of
/// travelling from destination `i` to destination `j`; the matrix need not be
/// symmetric.
#[derive(Debug, Clone)]
pub struct Instance {
    pub destinations: Vec<usize>,
    pub distances: Vec<Vec<isize>>,
}

impl Instance {
    /// Number of destinations, the depot included.
    pub open spec fn size(&self) -> nat {
        self.destinations@.len()
    }

    /// The cost of the edge from `i` to `j`.
    pub open spec fn cost(&self, i: int, j: int) -> int {
        self.distances@[i]@[j] as int
    }

    /// The matrix is square, with one row per destination, and every cost can
    /// be negated.
    pub open spec fn wf(&self) -> bool {
        &&& self.distances@.len() == self.size()
        &&& forall|i: int| 0 <= i < self.size() ==> (#[trigger] self.distances@[i])@.len() == self.size()
        &&& forall|i: int, j: int|
            0 <= i < self.size() && 0 <= j < self.size() ==> #[trigger] self.cost(i, j) > isize::MIN
    }

    /// Tests whether the instance is well formed.
    pub fn is_well_formed(&self) -> (b: bool)
        ensures
            b == self.wf(),
    {
        let n: usize = self.destinations.len();
        if self.distances.len() != n {
            return false;
        }
        let mut i: usize = 0;
        while i < n
            invariant
                n == self.size(),
                self.distances@.len() == n,
                i <= n,
                forall|a: int| 0 <= a < i ==> (#[trigger] self.distances@[a])@.len() == n,
                forall|a: int, b: int| 0 <= a < i && 0 <= b < n ==> #[trigger] self.cost(a, b) > isize::MIN,
            decreases n - i,
        {
            if self.distances[i].len() != n {
                return false;
            }
            let mut j: usize = 0;
            while j < n
                invariant
                    n == self.size(),
                    self.distances@.len() == n,
                    i < n,
                    j <= n,
                    self.distances@[i as int]@.len() == n,
                    forall|b: int| 0 <= b < j ==> #[trigger] self.cost(i as int, b) > isize::MIN,
                decreases n - j,
            {
                if self.distances[i][j] == isize::MIN {
                    assert(!(self.cost(i as int, j as int) > isize::MIN));
                    return false;
                }
                j += 1;
            }
            i += 1;
        }
        true
    }
}

} // verus!
