use smallbitset::Set64;
use std::cmp::Ordering;
use tsp_resolution::instance::Instance;
use tsp_resolution::model::{Decision, TspModel, TspRelax, TspState};
use tsp_resolution::ranking::TspRanking;

fn set_of(items: &[usize]) -> Set64 {
    let mut s = Set64::empty();
    for x in items {
        s = s.add(*x);
    }
    s
}

fn state(depth: usize, current: &[usize], must: &[usize], might: &[usize]) -> TspState {
    TspState { depth, current: set_of(current), must_visit: set_of(must), might_visit: set_of(might) }
}

fn model3() -> TspModel {
    TspModel {
        instance: Instance {
            destinations: vec![10, 11, 12],
            distances: vec![vec![0, 150_000, 700_000], vec![250_000, 0, 300_000], vec![50_000, 123_457, 0]],
        },
    }
}

fn values(decisions: &[Decision]) -> Vec<isize> {
    decisions.iter().map(|d| d.value).collect()
}

#[test]
fn instance_well_formed_accepts_square_matrix() {
    assert!(model3().instance.is_well_formed());
    assert!(model3().is_well_formed());
}

#[test]
fn instance_well_formed_rejects_ragged_matrix() {
    let i = Instance { destinations: vec![0, 1], distances: vec![vec![0, 1], vec![1]] };
    assert!(!i.is_well_formed());
    let i = Instance { destinations: vec![0, 1], distances: vec![vec![0, 1]] };
    assert!(!i.is_well_formed());
}

#[test]
fn instance_well_formed_rejects_cost_without_negation() {
    let i = Instance { destinations: vec![0, 1], distances: vec![vec![0, isize::MIN], vec![1, 0]] };
    assert!(!i.is_well_formed());
}

#[test]
fn model_well_formed_rejects_more_than_capacity() {
    let n = 65;
    let m = TspModel { instance: Instance { destinations: vec![0; n], distances: vec![vec![1; n]; n] } };
    assert!(m.instance.is_well_formed());
    assert!(!m.is_well_formed());
    let n = 64;
    let m = TspModel { instance: Instance { destinations: vec![0; n], distances: vec![vec![1; n]; n] } };
    assert!(m.is_well_formed());
}

#[test]
fn nb_variables_is_destination_count() {
    assert_eq!(model3().nb_variables(), 3);
}

#[test]
fn initial_state_starts_at_depot_with_all_to_visit() {
    let s = model3().initial_state();
    assert_eq!(s.depth, 0);
    assert_eq!(s.current, set_of(&[0]));
    assert_eq!(s.must_visit, set_of(&[0, 1, 2]));
    assert_eq!(s.might_visit, Set64::empty());
    assert_eq!(model3().initial_value(), 0);
}

#[test]
fn initial_state_of_full_capacity() {
    let n = 64;
    let m = TspModel { instance: Instance { destinations: vec![0; n], distances: vec![vec![1; n]; n] } };
    assert_eq!(m.initial_state().must_visit, Set64::full());
}

#[test]
fn transition_moves_and_consumes() {
    let m = model3();
    let s = state(1, &[0, 1], &[1, 2], &[0]);
    let t = m.transition(&s, Decision { variable: 1, value: 2 });
    assert_eq!(t, state(2, &[2], &[1], &[0]));
    let t = m.transition(&s, Decision { variable: 1, value: 0 });
    assert_eq!(t, state(2, &[0], &[1, 2], &[]));
}

#[test]
fn transition_cost_from_single_origin() {
    let m = model3();
    let s = state(0, &[0], &[0, 1, 2], &[]);
    assert_eq!(m.transition_cost(&s, Decision { variable: 0, value: 1 }), -150_000);
    assert_eq!(m.transition_cost(&s, Decision { variable: 0, value: 2 }), -700_000);
    let s = state(1, &[2], &[0, 1], &[]);
    assert_eq!(m.transition_cost(&s, Decision { variable: 1, value: 1 }), -123_457);
}

#[test]
fn transition_cost_from_relaxed_state_is_cheapest_origin() {
    let m = model3();
    let s = state(1, &[0, 1], &[2], &[]);
    assert_eq!(m.transition_cost(&s, Decision { variable: 1, value: 2 }), -300_000);
    let s = state(1, &[1, 2], &[0], &[]);
    assert_eq!(m.transition_cost(&s, Decision { variable: 1, value: 0 }), -50_000);
}

#[test]
fn transition_cost_without_origin_is_zero() {
    let m = model3();
    let s = state(1, &[], &[2], &[]);
    assert_eq!(m.transition_cost(&s, Decision { variable: 1, value: 2 }), 0);
}

#[test]
fn next_variable_until_all_decided() {
    let m = model3();
    assert_eq!(m.next_variable(0), Some(0));
    assert_eq!(m.next_variable(2), Some(2));
    assert_eq!(m.next_variable(3), None);
    assert_eq!(m.next_variable(4), None);
}

#[test]
fn domain_holds_back_the_depot() {
    let m = model3();
    let out = m.for_each_in_domain(0, &m.initial_state());
    assert_eq!(values(&out), vec![1, 2]);
    assert!(out.iter().all(|d| d.variable == 0));
    let out = m.for_each_in_domain(1, &state(1, &[1], &[0], &[2]));
    assert_eq!(values(&out), vec![2]);
}

#[test]
fn domain_offers_depot_when_alone() {
    let m = model3();
    let out = m.for_each_in_domain(2, &state(2, &[1], &[0], &[]));
    assert_eq!(out, vec![Decision { variable: 2, value: 0 }]);
    let out = m.for_each_in_domain(2, &state(2, &[1], &[], &[0]));
    assert_eq!(out, vec![Decision { variable: 2, value: 0 }]);
}

#[test]
fn domain_offers_sole_destination_whichever_it_is() {
    let m = model3();
    let out = m.for_each_in_domain(2, &state(2, &[1], &[2], &[]));
    assert_eq!(out, vec![Decision { variable: 2, value: 2 }]);
}

#[test]
fn domain_of_nothing_left_is_empty() {
    let m = model3();
    assert!(m.for_each_in_domain(3, &state(3, &[0], &[], &[])).is_empty());
}

#[test]
fn merge_unions_and_intersects() {
    let r = TspRelax::new(false);
    let a = state(2, &[1], &[2, 3, 4], &[5]);
    let b = state(3, &[2], &[3, 4, 6], &[]);
    let c = state(1, &[1], &[4, 3], &[7]);
    let m = r.merge(&vec![a, b, c]);
    assert_eq!(m.depth, 3);
    assert_eq!(m.current, set_of(&[1, 2]));
    assert_eq!(m.must_visit, set_of(&[3, 4]));
    assert_eq!(m.might_visit, set_of(&[2, 5, 6, 7]));
    assert!(m.must_visit.disjoint(m.might_visit));
}

#[test]
fn merge_of_one_state_is_that_state() {
    let r = TspRelax::new(true);
    let a = state(2, &[1], &[2, 3], &[5]);
    assert_eq!(r.merge(&vec![a]), a);
}

#[test]
fn merge_of_no_state() {
    let r = TspRelax::new(false);
    let m = r.merge(&vec![]);
    assert_eq!(m.depth, 0);
    assert_eq!(m.current, Set64::empty());
    assert_eq!(m.must_visit, Set64::full());
    assert_eq!(m.might_visit, Set64::empty());
}

#[test]
fn relax_keeps_the_cost() {
    let r = TspRelax::new(false);
    let a = state(2, &[1], &[2, 3], &[5]);
    assert_eq!(r.relax(&a, &a, &a, Decision { variable: 2, value: 2 }, -42), -42);
}

#[test]
fn fast_upper_bound_delegates_or_is_unbounded() {
    assert_eq!(TspRelax::new(true).fast_upper_bound(Some(-17)), -17);
    assert_eq!(TspRelax::new(true).fast_upper_bound(None), isize::MAX);
    assert_eq!(TspRelax::new(false).fast_upper_bound(Some(-17)), isize::MAX);
    assert_eq!(TspRelax::new(false).fast_upper_bound(None), isize::MAX);
    assert!(TspRelax::new(true).compression_bound);
}

#[test]
fn ranking_prefers_fewer_must_visit() {
    let r = TspRanking;
    let a = state(2, &[1, 2, 3], &[2], &[3, 4, 5]);
    let b = state(2, &[1], &[2, 3], &[]);
    assert_eq!(r.compare(&a, &b), Ordering::Greater);
    assert_eq!(r.compare(&b, &a), Ordering::Less);
}

#[test]
fn ranking_breaks_ties_by_might_visit_then_current() {
    let r = TspRanking;
    let a = state(2, &[1, 2], &[2, 3], &[4]);
    let b = state(2, &[1], &[5, 6], &[7, 8]);
    assert_eq!(r.compare(&a, &b), Ordering::Greater);
    assert_eq!(r.compare(&b, &a), Ordering::Less);
    let c = state(2, &[1], &[2, 3], &[9]);
    assert_eq!(r.compare(&c, &a), Ordering::Greater);
    assert_eq!(r.compare(&a, &c), Ordering::Less);
}

#[test]
fn ranking_ties_on_equal_sizes() {
    let r = TspRanking;
    let a = state(2, &[1], &[2, 3], &[4]);
    let b = state(5, &[9], &[7, 8], &[1]);
    assert_eq!(r.compare(&a, &b), Ordering::Equal);
    assert_eq!(r.compare(&a, &a), Ordering::Equal);
}

#[test]
fn merge_loosens_every_input() {
    let r = TspRelax::new(false);
    let inputs = vec![state(2, &[1], &[2, 3, 4], &[5]), state(3, &[2], &[3, 4, 6], &[]), state(1, &[4], &[3], &[7, 8])];
    let m = r.merge(&inputs);
    let domain = m.must_visit.union(m.might_visit);
    for s in &inputs {
        assert!(m.depth >= s.depth);
        assert!(m.current.contains_all(s.current));
        assert!(s.must_visit.contains_all(m.must_visit));
        assert!(domain.contains_all(s.must_visit.union(s.might_visit)));
    }
    assert!(m.must_visit.disjoint(m.might_visit));
}

#[test]
fn transition_consumes_one_destination() {
    let m = model3();
    let s = m.initial_state();
    let t = m.transition(&s, Decision { variable: 0, value: 1 });
    assert_eq!(t.depth, 1);
    assert_eq!(t.must_visit.union(t.might_visit).len(), 2);
    assert!(!t.must_visit.contains(1));
}
