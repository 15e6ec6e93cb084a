//! Tour states, the transition model that advances them, and the relaxation
//! that merges several of them into one.

use vstd::prelude::*;
use smallbitset::Set64;
use crate::bitset::{listed, lists, members, set_add, set_diff, set_empty, set_full, set_inter, set_items, set_len, set_remove, set_singleton, set_union};
use crate::instance::Instance;

verus! {

/// The choice made at one stage of the tour: `variable` is the stage,
/// `value` the destination visited at that stage.
#[derive(Debug, Clone, Copy, PartialEq, Eq, Hash)]
pub struct Decision {
    pub variable: usize,
    pub value: isize,
}

/// A partial tour, possibly relaxed. `current` holds the destinations at which
/// the tour may stand, `must_visit` those that every completion still has to
/// visit, `might_visit` those that only some completions still have to visit.
#[derive(Debug, Clone, Copy, Eq, PartialEq, Hash)]
pub struct TspState {
    pub depth: usize,
    pub current: Set64,
    pub must_visit: Set64,
    pub might_visit: Set64,
}

/// A tour state as mathematical sets of destination indices.
pub struct TourView {
    pub depth: nat,
    pub current: Set<int>,
    pub must_visit: Set<int>,
    pub might_visit: Set<int>,
}

impl TourView {
    /// The destinations that may still be chosen.
    pub open spec fn domain(self) -> Set<int> {
        self.must_visit.union(self.might_visit)
    }

    /// `self` loosens `other`: it may stand wherever `other` stands, requires
    /// no visit that `other` does not require, and leaves open every visit
    /// that `other` leaves open. It is at least as deep.
    pub open spec fn relaxes(self, other: TourView) -> bool {
        &&& other.depth <= self.depth
        &&& other.current.subset_of(self.current)
        &&& self.must_visit.subset_of(other.must_visit)
        &&& other.domain().subset_of(self.domain())
    }

    /// No destination is both required and merely possible.
    pub open spec fn wf(self) -> bool {
        forall|x: int| !(self.must_visit.contains(x) && self.might_visit.contains(x))
    }
}

impl View for TspState {
    type V = TourView;

    open spec fn view(&self) -> TourView {
        TourView {
            depth: self.depth as nat,
            current: members(self.current),
            must_visit: members(self.must_visit),
            might_visit: members(self.might_visit),
        }
    }
}

/// `s` holds `x` and nothing else.
pub open spec fn is_only(s: Set<int>, x: int) -> bool {
    forall|y: int| s.contains(y) <==> y == x
}

/// Some state among the first `n` may stand at `x`.
pub open spec fn in_some_current(states: Seq<TspState>, n: int, x: int) -> bool {
    exists|i: int| 0 <= i < n && (#[trigger] states[i])@.current.contains(x)
}

/// Every state among the first `n` has to visit `x`.
pub open spec fn in_every_must(states: Seq<TspState>, n: int, x: int) -> bool {
    forall|i: int| 0 <= i < n ==> (#[trigger] states[i])@.must_visit.contains(x)
}

/// Some state among the first `n` has `x` in its domain.
pub open spec fn in_some_domain(states: Seq<TspState>, n: int, x: int) -> bool {
    exists|i: int| 0 <= i < n && (#[trigger] states[i])@.domain().contains(x)
}

/// `d` is the greatest depth among the first `n` states, or 0 if there is none.
pub open spec fn is_max_depth(states: Seq<TspState>, n: int, d: nat) -> bool {
    &&& forall|i: int| 0 <= i < n ==> (#[trigger] states[i]).depth <= d
    &&& if n <= 0 {
        d == 0
    } else {
        exists|i: int| 0 <= i < n && (#[trigger] states[i]).depth == d
    }
}

/// The transition model of the travelling-salesman problem on one instance.
#[derive(Debug, Clone)]
pub struct TspModel {
    pub instance: Instance,
}

impl TspModel {
    /// The instance is well formed and its destinations fit in a visit-set.
    pub open spec fn wf(&self) -> bool {
        self.instance.wf() && self.instance.size() <= 64
    }

    /// Every destination of `s` is one of the instance.
    pub open spec fn covers(&self, s: Set<int>) -> bool {
        forall|x: int| s.contains(x) ==> 0 <= x < self.instance.size()
    }

    /// `cost` is the value of moving to `to` from the cheapest origin in
    /// `from`: the negated least edge cost, or 0 where there is no origin.
    pub open spec fn is_transition_cost(&self, from: Set<int>, to: int, cost: int) -> bool {
        if forall|f: int| !from.contains(f) {
            cost == 0
        } else {
            &&& exists|f: int| from.contains(f) && cost == -(#[trigger] self.instance.cost(f, to))
            &&& forall|f: int| from.contains(f) ==> cost >= -(#[trigger] self.instance.cost(f, to))
        }
    }

    /// Tests whether the model can be used: see `wf`.
    pub fn is_well_formed(&self) -> (b: bool)
        ensures
            b == self.wf(),
    {
        self.instance.is_well_formed() && self.instance.destinations.len() <= 64
    }

    /// One decision per destination.
    pub fn nb_variables(&self) -> (n: usize)
        ensures
            n == self.instance.size(),
    {
        self.instance.destinations.len()
    }

    /// The tour starts at the depot with every destination still to visit,
    /// the depot among them: the tour has to come back to it.
    pub fn initial_state(&self) -> (s: TspState)
        requires
            self.instance.size() <= 64,
        ensures
            s@.depth == 0,
            is_only(s@.current, 0),
            forall|x: int| s@.must_visit.contains(x) <==> 0 <= x < self.instance.size(),
            forall|x: int| !s@.might_visit.contains(x),
            s@.wf(),
    {
        let n: usize = self.nb_variables();
        let mut must = set_empty();
        let mut i: usize = 0;
        while i < n
            invariant
                i <= n <= 64,
                forall|x: int| members(must).contains(x) <==> 0 <= x < i,
            decreases n - i,
        {
            must = set_add(must, i);
            i += 1;
        }
        TspState { depth: 0, current: set_singleton(0), must_visit: must, might_visit: set_empty() }
    }

    /// Nothing has been paid before the first decision.
    pub fn initial_value(&self) -> (v: isize)
        ensures
            v == 0,
    {
        0
    }

    /// The state after visiting `decision.value`: the tour stands there, and
    /// that destination is no longer to visit.
    pub fn transition(&self, state: &TspState, decision: Decision) -> (next: TspState)
        requires
            0 <= decision.value < 64,
            state.depth < usize::MAX,
        ensures
            next@.depth == state@.depth + 1,
            is_only(next@.current, decision.value as int),
            next@.must_visit == state@.must_visit.remove(decision.value as int),
            next@.might_visit == state@.might_visit.remove(decision.value as int),
            next@.domain() == state@.domain().remove(decision.value as int),
            state@.wf() ==> next@.wf(),
    {
        let to: usize = decision.value as usize;
        let must = set_remove(state.must_visit, to);
        let might = set_remove(state.might_visit, to);
        assert(members(must).union(members(might)) =~= state@.domain().remove(to as int));
        assert(state@.wf() ==> forall|x: int| !(members(must).contains(x) && members(might).contains(x))) by {
            if state@.wf() {
                assert forall|x: int| !(members(must).contains(x) && members(might).contains(x)) by {
                    assert(!(state@.must_visit.contains(x) && state@.might_visit.contains(x)));
                }
            }
        }
        TspState {
            depth: state.depth + 1,
            current: set_singleton(to),
            must_visit: must,
            might_visit: might,
        }
    }

    /// The value of the move to `decision.value`: the cost of the cheapest
    /// edge that leaves one of the current destinations for it, negated since
    /// the search maximises.
    pub fn transition_cost(&self, state: &TspState, decision: Decision) -> (cost: isize)
        requires
            self.instance.wf(),
            self.covers(state@.current),
            0 <= decision.value < self.instance.size(),
        ensures
            self.is_transition_cost(state@.current, decision.value as int, cost as int),
            forall|f: int| is_only(state@.current, f) ==> cost == -self.instance.cost(f, decision.value as int),
    {
        let to: usize = decision.value as usize;
        let origins = set_items(state.current);
        if origins.len() == 0 {
            assert forall|f: int| !members(state.current).contains(f) by {
                if members(state.current).contains(f) {
                    assert(listed(origins@, f));
                }
            }
            assert forall|f: int| is_only(state@.current, f) implies false by {
                assert(state@.current.contains(f));
            }
            return 0;
        }
        assert(members(state.current).contains(origins@[0] as int));
        let mut best: isize = self.instance.distances[origins[0]][to];
        let mut k: usize = 1;
        assert(best == self.instance.cost(origins@[0] as int, to as int));
        while k < origins.len()
            invariant
                self.instance.wf(),
                self.covers(members(state.current)),
                to < self.instance.size(),
                1 <= k <= origins@.len(),
                lists(origins@, members(state.current)),
                exists|i: int| 0 <= i < k && best == self.instance.cost((#[trigger] origins@[i]) as int, to as int),
                forall|i: int| 0 <= i < k ==> best <= self.instance.cost((#[trigger] origins@[i]) as int, to as int),
            decreases origins@.len() - k,
        {
            let from: usize = origins[k];
            assert(members(state.current).contains(origins@[k as int] as int));
            let c: isize = self.instance.distances[from][to];
            assert(c == self.instance.cost(origins@[k as int] as int, to as int));
            if c < best {
                best = c;
            }
            k += 1;
        }
        proof {
            let w = choose|i: int| 0 <= i < k && best == self.instance.cost((#[trigger] origins@[i]) as int, to as int);
            assert(members(state.current).contains(origins@[w] as int));
            assert(best > isize::MIN);
            assert forall|f: int| members(state.current).contains(f) implies -best >= -(#[trigger] self.instance.cost(
                f,
                to as int,
            )) by {
                assert(listed(origins@, f));
                let i = choose|i: int| 0 <= i < origins@.len() && (#[trigger] origins@[i]) as int == f;
                assert(best <= self.instance.cost(origins@[i] as int, to as int));
            }
        }
        -best
    }

    /// The stage decided at `depth`, while one is left.
    pub fn next_variable(&self, depth: usize) -> (v: Option<usize>)
        ensures
            v == (if depth < self.instance.size() { Some(depth) } else { None::<usize> }),
    {
        if depth < self.nb_variables() {
            Some(depth)
        } else {
            None
        }
    }

    /// The decisions open at `state`, in ascending order of destination. A
    /// sole remaining destination is the one choice, whichever it is; else the
    /// depot is held back and every other remaining destination is a choice.
    /// So the depot is offered only as the last destination, and then alone.
    pub fn for_each_in_domain(&self, variable: usize, state: &TspState) -> (out: Vec<Decision>)
        ensures
            forall|i: int| 0 <= i < out@.len() ==> (#[trigger] out@[i]).variable == variable,
            forall|i: int, j: int| 0 <= i < j < out@.len() ==> (#[trigger] out@[i]).value < (#[trigger] out@[j]).value,
            forall|x: int| is_only(state@.domain(), x) ==> out@.len() == 1 && out@[0].value == x,
            (forall|x: int| !is_only(state@.domain(), x)) ==> (forall|x: int|
                offered(out@, x) <==> x != 0 && state@.domain().contains(x)),
            offered(out@, 0) <==> is_only(state@.domain(), 0),
    {
        let dest = set_union(state.must_visit, state.might_visit);
        let items = set_items(dest);
        let mut out: Vec<Decision> = Vec::new();
        proof {
            lemma_len_one(members(dest));
        }
        if set_len(dest) == 1 {
            proof {
                let x = choose|x: int| is_only(members(dest), x);
                assert(members(dest).contains(x));
                assert(listed(items@, x));
                assert(members(dest).contains(items@[0] as int));
            }
            out.push(Decision { variable, value: items[0] as isize });
            proof {
                assert(out@[0].value == items@[0]);
                if offered(out@, 0) {
                    assert(is_only(members(dest), 0));
                }
            }
        } else {
            let mut k: usize = 0;
            while k < items.len()
                invariant
                    k <= items@.len(),
                    lists(items@, members(dest)),
                    forall|i: int| 0 <= i < out@.len() ==> (#[trigger] out@[i]).variable == variable,
                    forall|i: int| 0 <= i < out@.len() ==> (#[trigger] out@[i]).value != 0 && members(dest).contains(out@[i].value as int),
                    forall|i: int, j: int| 0 <= i < out@.len() && k <= j < items@.len() ==> (#[trigger] out@[i]).value < (#[trigger] items@[j]),
                    forall|j: int| 0 <= j < k && (#[trigger] items@[j]) != 0 ==> offered(out@, items@[j] as int),
                    forall|i: int, j: int| 0 <= i < j < out@.len() ==> (#[trigger] out@[i]).value < (#[trigger] out@[j]).value,
                decreases items@.len() - k,
            {
                let to: usize = items[k];
                if to != 0 {
                    let ghost before = out@;
                    out.push(Decision { variable, value: to as isize });
                    proof {
                        assert(out@[before.len() as int].value == items@[k as int]);
                        assert forall|j: int| 0 <= j < k + 1 && (#[trigger] items@[j]) != 0 implies offered(out@, items@[j] as int) by {
                            if j < k {
                                assert(offered(before, items@[j] as int));
                                let i = choose|i: int| 0 <= i < before.len() && (#[trigger] before[i]).value == items@[j] as int;
                                assert(out@[i] == before[i]);
                            }
                        }
                    }
                }
                k += 1;
            }
            proof {
                assert forall|x: int| offered(out@, x) <==> x != 0 && members(dest).contains(x) by {
                    if x != 0 && members(dest).contains(x) {
                        assert(listed(items@, x));
                        let j = choose|j: int| 0 <= j < items@.len() && (#[trigger] items@[j]) as int == x;
                        assert(offered(out@, items@[j] as int));
                    }
                }
            }
        }
        out
    }
}

/// The relaxation of the travelling-salesman problem. `compression_bound`
/// says whether a bound computed on a compressed instance is in use.
#[derive(Debug, Clone, Copy)]
pub struct TspRelax {
    pub compression_bound: bool,
}

impl TspRelax {
    pub fn new(compression_bound: bool) -> (r: Self)
        ensures
            r.compression_bound == compression_bound,
    {
        Self { compression_bound }
    }

    /// One state that stands for all of `states`: it may stand wherever one of
    /// them stands, has to visit what all of them have to visit, and might
    /// visit whatever else is left to one of them. Its depth is the greatest
    /// of theirs. Of no state at all it makes the state whose `must_visit` is
    /// full and whose other sets are empty.
    pub fn merge(&self, states: &Vec<TspState>) -> (merged: TspState)
        ensures
            is_max_depth(states@, states@.len() as int, merged@.depth),
            forall|x: int| merged@.current.contains(x) <==> in_some_current(states@, states@.len() as int, x),
            forall|x: int|
                merged@.must_visit.contains(x) <==> 0 <= x < 64 && in_every_must(states@, states@.len() as int, x),
            forall|x: int|
                merged@.might_visit.contains(x) <==> in_some_domain(states@, states@.len() as int, x)
                    && !merged@.must_visit.contains(x),
            merged@.wf(),
            forall|i: int| 0 <= i < states@.len() ==> merged@.relaxes((#[trigger] states@[i])@),
    {
        let mut depth: usize = 0;
        let mut curr = set_empty();
        let mut must = set_full();
        let mut might = set_empty();
        let mut k: usize = 0;
        while k < states.len()
            invariant
                k <= states@.len(),
                is_max_depth(states@, k as int, depth as nat),
                forall|x: int| members(curr).contains(x) <==> in_some_current(states@, k as int, x),
                forall|x: int| members(must).contains(x) <==> 0 <= x < 64 && in_every_must(states@, k as int, x),
                forall|x: int| members(might).contains(x) <==> in_some_domain(states@, k as int, x),
            decreases states@.len() - k,
        {
            let state = &states[k];
            let ghost old_depth = depth;
            if state.depth > depth {
                depth = state.depth;
            }
            let ghost old_curr = members(curr);
            let ghost old_must = members(must);
            let ghost old_might = members(might);
            curr = set_union(curr, state.current);
            must = set_inter(must, state.must_visit);
            might = set_union(might, state.must_visit);
            might = set_union(might, state.might_visit);
            proof {
                let n = k as int;
                assert(states@[n] == *state);
                assert forall|x: int| members(curr).contains(x) <==> in_some_current(states@, n + 1, x) by {
                    if in_some_current(states@, n + 1, x) {
                        let i = choose|i: int| 0 <= i < n + 1 && (#[trigger] states@[i])@.current.contains(x);
                        if i < n {
                            assert(in_some_current(states@, n, x));
                        }
                    }
                    if old_curr.contains(x) {
                        let i = choose|i: int| 0 <= i < n && (#[trigger] states@[i])@.current.contains(x);
                        assert(states@[i]@.current.contains(x));
                    }
                }
                assert forall|x: int| members(might).contains(x) <==> in_some_domain(states@, n + 1, x) by {
                    if in_some_domain(states@, n + 1, x) {
                        let i = choose|i: int| 0 <= i < n + 1 && (#[trigger] states@[i])@.domain().contains(x);
                        if i < n {
                            assert(in_some_domain(states@, n, x));
                        }
                    }
                    if old_might.contains(x) {
                        let i = choose|i: int| 0 <= i < n && (#[trigger] states@[i])@.domain().contains(x);
                        assert(states@[i]@.domain().contains(x));
                    }
                    if state@.domain().contains(x) {
                        assert(states@[n]@.domain().contains(x));
                    }
                }
                assert forall|x: int| members(must).contains(x) <==> 0 <= x < 64 && in_every_must(
                    states@,
                    n + 1,
                    x,
                ) by {
                    if in_every_must(states@, n + 1, x) {
                        assert(states@[n]@.must_visit.contains(x));
                        assert(in_every_must(states@, n, x));
                    }
                }
                if old_depth < state.depth {
                    assert(states@[n].depth == depth);
                } else if n > 0 {
                    let i = choose|i: int| 0 <= i < n && (#[trigger] states@[i]).depth == old_depth;
                    assert(states@[i].depth == depth);
                }
            }
            k += 1;
        }
        let merged = TspState { depth, current: curr, must_visit: must, might_visit: set_diff(might, must) };
        proof {
            assert forall|i: int| 0 <= i < states@.len() implies merged@.relaxes((#[trigger] states@[i])@) by {
                let s = states@[i]@;
                assert forall|x: int| s.current.contains(x) implies merged@.current.contains(x) by {
                    assert(in_some_current(states@, states@.len() as int, x));
                }
                assert forall|x: int| s.domain().contains(x) implies merged@.domain().contains(x) by {
                    assert(in_some_domain(states@, states@.len() as int, x));
                }
            }
        }
        merged
    }

    /// The cost of an edge into a merged state is the cost of the edge it
    /// stands for: merging adds no slack of its own.
    pub fn relax(
        &self,
        source: &TspState,
        dest: &TspState,
        merged: &TspState,
        decision: Decision,
        cost: isize,
    ) -> (relaxed: isize)
        ensures
            relaxed == cost,
    {
        cost
    }

    /// The bound used to prune below a state. `compressed` is what the bound
    /// on the compressed instance reports for that state, if it was computed.
    /// It is the answer where that bound is in use; else, and where nothing
    /// was computed, the answer is the greatest value, which prunes nothing.
    pub fn fast_upper_bound(&self, compressed: Option<isize>) -> (bound: isize)
        ensures
            bound == (match compressed {
                Some(b) if self.compression_bound => b,
                _ => isize::MAX,
            }),
    {
        match compressed {
            Some(b) => if self.compression_bound { b } else { isize::MAX },
            None => isize::MAX,
        }
    }
}

/// Some decision of `out` chooses destination `x`.
pub open spec fn offered(out: Seq<Decision>, x: int) -> bool {
    exists|i: int| 0 <= i < out.len() && (#[trigger] out[i]).value == x
}

/// A step takes one destination out of the domain and goes one stage deeper,
/// so depth and open destinations together stay as many as before: a tour
/// that starts with every destination open has none left when its depth is
/// their number.
pub proof fn lemma_step_keeps_count(before: TourView, after: TourView, chosen: int)
    requires
        before.domain().finite(),
        before.domain().contains(chosen),
        after.domain() == before.domain().remove(chosen),
        after.depth == before.depth + 1,
    ensures
        after.depth + after.domain().len() == before.depth + before.domain().len(),
{
}

/// A move out of a relaxed state is valued at least as high as the same move
/// out of any state that it stands for: where every origin in `few` is also
/// one in `many`, the cost from `many` is the more optimistic.
pub proof fn lemma_cost_is_optimistic(model: &TspModel, few: Set<int>, many: Set<int>, to: int, from_few: int, from_many: int)
    requires
        few.subset_of(many),
        exists|f: int| few.contains(f),
        model.is_transition_cost(few, to, from_few),
        model.is_transition_cost(many, to, from_many),
    ensures
        from_few <= from_many,
{
    let f = choose|f: int| few.contains(f) && from_few == -(#[trigger] model.instance.cost(f, to));
    assert(many.contains(f));
}

/// A set of integers has exactly one member if and only if it holds some `x`
/// and nothing else.
pub proof fn lemma_len_one(s: Set<int>)
    requires
        forall|x: int| #[trigger] s.contains(x) ==> 0 <= x < 64,
    ensures
        s.finite(),
        s.len() == 1 <==> exists|x: int| is_only(s, x),
{
    vstd::set_lib::lemma_int_range(0, 64);
    vstd::set_lib::lemma_len_subset(s, vstd::set_lib::set_int_range(0, 64));
    if s.len() == 1 {
        let c = s.choose();
        assert(s.contains(c)) by {
            if s =~= Set::empty() {
            }
        }
        assert(s.remove(c).len() == 0);
        assert(s.remove(c) =~= Set::empty());
        assert forall|y: int| s.contains(y) <==> y == c by {
            if s.contains(y) && y != c {
                assert(s.remove(c).contains(y));
            }
        }
        assert(is_only(s, c));
    }
    if exists|x: int| is_only(s, x) {
        let x = choose|x: int| is_only(s, x);
        assert(s =~= Set::empty().insert(x));
    }
}

} // verus!
