use ddo::{
    Completion, DecisionCallback, EmptyDominanceChecker, FixedWidth, MaxUB, NoCutoff, NoDupFringe, Problem,
    Relaxation, SeqNoCachingSolverLel, Solver, StateRanking, Variable,
};
use std::cmp::Ordering;
use tsp_resolution::instance::Instance;
use tsp_resolution::model::{Decision, TspModel, TspRelax, TspState};
use tsp_resolution::ranking::TspRanking;

struct Model(TspModel);
struct Relax(TspRelax);
struct Ranking(TspRanking);

fn decision(d: ddo::Decision) -> Decision {
    Decision { variable: d.variable.0, value: d.value }
}

impl Problem for Model {
    type State = TspState;

    fn nb_variables(&self) -> usize {
        self.0.nb_variables()
    }

    fn initial_state(&self) -> TspState {
        self.0.initial_state()
    }

    fn initial_value(&self) -> isize {
        self.0.initial_value()
    }

    fn transition(&self, state: &TspState, d: ddo::Decision) -> TspState {
        self.0.transition(state, decision(d))
    }

    fn transition_cost(&self, source: &TspState, _: &TspState, d: ddo::Decision) -> isize {
        self.0.transition_cost(source, decision(d))
    }

    fn next_variable(&self, depth: usize, _: &mut dyn Iterator<Item = &TspState>) -> Option<Variable> {
        self.0.next_variable(depth).map(Variable)
    }

    fn for_each_in_domain(&self, var: Variable, state: &TspState, f: &mut dyn DecisionCallback) {
        for d in self.0.for_each_in_domain(var.0, state) {
            f.apply(ddo::Decision { variable: Variable(d.variable), value: d.value });
        }
    }
}

impl Relaxation for Relax {
    type State = TspState;

    fn merge(&self, states: &mut dyn Iterator<Item = &TspState>) -> TspState {
        let states: Vec<TspState> = states.copied().collect();
        self.0.merge(&states)
    }

    fn relax(&self, a: &TspState, b: &TspState, m: &TspState, d: ddo::Decision, cost: isize) -> isize {
        self.0.relax(a, b, m, decision(d), cost)
    }

    fn fast_upper_bound(&self, _: &TspState) -> isize {
        self.0.fast_upper_bound(None)
    }
}

impl StateRanking for Ranking {
    type State = TspState;

    fn compare(&self, a: &TspState, b: &TspState) -> Ordering {
        self.0.compare(a, b)
    }
}

fn solve(model: TspModel, width: usize) -> (Completion, Vec<isize>) {
    let problem = Model(model);
    let relaxation = Relax(TspRelax::new(false));
    let ranking = Ranking(TspRanking);
    let width = FixedWidth(width);
    let dominance = EmptyDominanceChecker::default();
    let cutoff = NoCutoff;
    let mut fringe = NoDupFringe::new(MaxUB::new(&ranking));
    let mut solver =
        SeqNoCachingSolverLel::new(&problem, &relaxation, &ranking, &width, &dominance, &cutoff, &mut fringe);
    let completion = solver.maximize();
    let mut solution = solver.best_solution().unwrap();
    solution.sort_by_key(|d| d.variable.0);
    (completion, solution.iter().map(|d| d.value).collect())
}

fn square() -> TspModel {
    let s: isize = 100_000;
    let d: isize = 141_421;
    TspModel {
        instance: Instance {
            destinations: vec![0, 1, 2, 3],
            distances: vec![vec![0, s, d, s], vec![s, 0, s, d], vec![d, s, 0, s], vec![s, d, s, 0]],
        },
    }
}

#[test]
fn square_is_solved_exactly_at_width_four() {
    let (completion, tour) = solve(square(), 4);
    assert!(completion.is_exact);
    assert_eq!(completion.best_value, Some(-400_000));
    assert_eq!(tour.len(), 4);
    assert_eq!(tour[3], 0);
}

#[test]
fn square_is_solved_exactly_at_width_hundred() {
    let (completion, _) = solve(square(), 100);
    assert!(completion.is_exact);
    assert_eq!(completion.best_value, Some(-400_000));
}

#[test]
fn square_is_solved_exactly_through_relaxed_diagrams() {
    let (completion, tour) = solve(square(), 1);
    assert!(completion.is_exact);
    assert_eq!(completion.best_value, Some(-400_000));
    assert_eq!(tour[3], 0);
}

#[test]
fn asymmetric_triangle_takes_the_cheaper_direction() {
    let model = TspModel {
        instance: Instance {
            destinations: vec![0, 1, 2],
            distances: vec![vec![0, 100, 900], vec![900, 0, 100], vec![100, 900, 0]],
        },
    };
    let (completion, tour) = solve(model, 2);
    assert!(completion.is_exact);
    assert_eq!(completion.best_value, Some(-300));
    assert_eq!(tour, vec![1, 2, 0]);
}
