use fixedbitset::FixedBitSet;
use rcpsp::heuristics::RcpspRanking;
use rcpsp::instance::RcpspInstance;
use rcpsp::model::Rcpsp;
use rcpsp::profile::{ConsumptionProfile, ConsumptionStep};
use rcpsp::state::State;
use std::cmp::Ordering;
use std::collections::VecDeque;

const NEVER: isize = isize::MAX;

fn step(start: isize, end: isize, rem_capacity: isize) -> ConsumptionStep {
    ConsumptionStep { start, end, rem_capacity }
}

fn profile(steps: Vec<ConsumptionStep>) -> ConsumptionProfile {
    ConsumptionProfile { steps: VecDeque::from(steps) }
}

fn bits(n: usize, ones: &[usize]) -> FixedBitSet {
    let mut b = FixedBitSet::with_capacity(n);
    for i in ones {
        b.insert(*i);
    }
    b
}

fn problem(text: &str) -> Rcpsp {
    let lines: Vec<Vec<u8>> = text.lines().map(|l| l.as_bytes().to_vec()).collect();
    let pb = Rcpsp::new(RcpspInstance::from_lines(&lines).unwrap());
    assert!(pb.is_ordered());
    pb
}

/// Two jobs in a chain, no resource; the sink lasts 5.
const CHAIN_OF_TWO: &str = "2 0\n\n0 1 2\n5 0\n";
/// Two jobs of duration 4 between source and sink, one resource of capacity 2.
const WIDE: &str = "4 1\n2\n0 0 2 2 3\n4 1 1 4\n4 1 1 4\n0 0 0\n";
/// The same with capacity 1.
const NARROW: &str = "4 1\n1\n0 0 2 2 3\n4 1 1 4\n4 1 1 4\n0 0 0\n";
/// Three jobs between source and sink on two resources of capacities 2 and 1.
const TWO_RESOURCES: &str = "5 2\n2 1\n0 0 0 3 2 3 4\n3 2 0 1 5\n2 1 1 1 5\n2 1 1 1 5\n0 0 0 0\n";
/// A chain of six jobs, the four in the middle of duration 2, no resource.
const CHAIN_OF_SIX: &str = "6 0\n\n0 1 2\n2 1 3\n2 1 4\n2 1 5\n2 1 6\n0 0\n";

/// The best value over all orders of decisions, by trying them all.
fn best_value(pb: &Rcpsp, state: &State, value: isize) -> isize {
    if state.depth == pb.nb_variables() {
        return value;
    }
    let mut best = isize::MIN;
    for d in pb.for_each_in_domain(state) {
        let (next, cost) = pb.combined_transition(state, d);
        best = best.max(best_value(pb, &next, value + cost));
    }
    best
}

fn sink_start(pb: &Rcpsp) -> isize {
    -best_value(pb, &pb.initial_state(), pb.initial_value())
}

#[test]
fn two_job_chain_ends_at_five() {
    let pb = problem(CHAIN_OF_TWO);
    // the value is the start of the sink; the sink itself lasts 5
    assert_eq!(sink_start(&pb), 0);
    assert_eq!(sink_start(&pb) + pb.instance.duration[1], 5);
}

#[test]
fn parallel_jobs_fit_together() {
    assert_eq!(sink_start(&problem(WIDE)), 4);
}

#[test]
fn capacity_forces_one_after_the_other() {
    assert_eq!(sink_start(&problem(NARROW)), 8);
}

#[test]
fn two_resources_with_one_job_taking_all_of_the_first() {
    // job 1 takes both units of the first resource, of which jobs 2 and 3
    // need one each: no two of the three run together
    assert_eq!(sink_start(&problem(TWO_RESOURCES)), 7);
}

#[test]
fn two_resources_with_one_job_sharing_the_first() {
    // with three units of the first resource job 1 runs beside jobs 2 and 3,
    // which still wait for each other on the second resource
    let text = "5 2\n3 1\n0 0 0 3 2 3 4\n3 2 0 1 5\n2 1 1 1 5\n2 1 1 1 5\n0 0 0 0\n";
    assert_eq!(sink_start(&problem(text)), 4);
}

#[test]
fn precedence_forces_one_after_the_other() {
    assert_eq!(sink_start(&problem(CHAIN_OF_SIX)), 8);
}

#[test]
fn toposort_places_the_job_released_last_first() {
    let pb = problem(WIDE);
    assert_eq!(Rcpsp::toposort(&pb.instance), vec![0, 2, 1, 3]);
    assert_eq!(pb.topo_order, vec![0, 2, 1, 3]);
    let pb = problem(CHAIN_OF_SIX);
    assert_eq!(pb.topo_order, vec![0, 1, 2, 3, 4, 5]);
}

#[test]
fn toposort_leaves_out_what_job_0_does_not_release() {
    // job 1 has no predecessor: nothing releases it, and job 2 waits for it
    let lines: Vec<Vec<u8>> =
        "3 0\n\n0 1 3\n1 1 3\n0 0\n".lines().map(|l| l.as_bytes().to_vec()).collect();
    let pb = Rcpsp::new(RcpspInstance::from_lines(&lines).unwrap());
    assert_eq!(pb.topo_order, vec![0]);
    assert!(!pb.is_ordered());
}

#[test]
fn an_order_is_refused_when_job_0_has_a_predecessor() {
    // 1 -> 0 and 0 -> 1
    let lines: Vec<Vec<u8>> = "2 0\n\n0 1 2\n0 1 1\n".lines().map(|l| l.as_bytes().to_vec()).collect();
    let pb = Rcpsp::new(RcpspInstance::from_lines(&lines).unwrap());
    assert!(!pb.is_ordered());
}

#[test]
fn initial_state_is_propagated() {
    let pb = problem(WIDE);
    let s = pb.initial_state();
    assert_eq!(
        s,
        State {
            done: bits(4, &[]),
            maybe_done: None,
            profile: vec![profile(vec![step(0, NEVER, 2)])],
            earliest: vec![0, 0, 0, 4],
            depth: 0,
        }
    );
    assert_eq!(s, pb.initial);
    assert_eq!(pb.initial_value(), -4);
    assert_eq!(pb.nb_variables(), 4);
    let pb = problem(CHAIN_OF_SIX);
    assert_eq!(pb.initial_state().earliest, vec![0, 0, 2, 4, 6, 8]);
    assert_eq!(pb.initial_value(), -8);
}

#[test]
fn next_variable_is_the_depth_while_jobs_are_left() {
    let pb = problem(WIDE);
    assert_eq!(pb.next_variable(0), Some(0));
    assert_eq!(pb.next_variable(3), Some(3));
    assert_eq!(pb.next_variable(4), None);
    assert_eq!(pb.next_variable(usize::MAX), None);
}

#[test]
fn domain_holds_the_jobs_whose_predecessors_are_scheduled() {
    let pb = problem(WIDE);
    let s0 = pb.initial_state();
    assert_eq!(pb.for_each_in_domain(&s0), vec![0]);
    let (s1, _) = pb.combined_transition(&s0, 0);
    assert_eq!(pb.for_each_in_domain(&s1), vec![1, 2]);
    let (s2, _) = pb.combined_transition(&s1, 2);
    assert_eq!(pb.for_each_in_domain(&s2), vec![1]);
    let (s3, _) = pb.combined_transition(&s2, 1);
    assert_eq!(pb.for_each_in_domain(&s3), vec![3]);
    let (s4, _) = pb.combined_transition(&s3, 3);
    assert_eq!(pb.for_each_in_domain(&s4), Vec::<usize>::new());
}

#[test]
fn domain_of_a_merged_state_counts_the_possibly_scheduled_jobs() {
    let pb = problem(WIDE);
    let merged = State {
        done: bits(4, &[0]),
        maybe_done: Some(bits(4, &[1, 2])),
        profile: vec![profile(vec![step(0, NEVER, 2)])],
        earliest: vec![0, 0, 0, 4],
        depth: 2,
    };
    assert_eq!(pb.for_each_in_domain(&merged), vec![1, 2, 3]);
    let merged = State { maybe_done: Some(bits(4, &[2])), ..merged };
    assert_eq!(pb.for_each_in_domain(&merged), vec![1, 2]);
}

#[test]
fn domain_goes_by_the_scheduled_jobs_when_as_many_as_decisions() {
    let pb = problem(WIDE);
    // one job scheduled, one decision: the possibly scheduled jobs do not count
    let state = State {
        done: bits(4, &[0]),
        maybe_done: Some(bits(4, &[1, 2])),
        profile: vec![profile(vec![step(0, NEVER, 2)])],
        earliest: vec![0, 0, 0, 4],
        depth: 1,
    };
    assert_eq!(pb.for_each_in_domain(&state), vec![1, 2]);
}

#[test]
fn domain_is_empty_without_possibly_scheduled_jobs_when_the_counts_differ() {
    let pb = problem(WIDE);
    let state = State {
        done: bits(4, &[0]),
        maybe_done: None,
        profile: vec![profile(vec![step(0, NEVER, 2)])],
        earliest: vec![0, 0, 0, 4],
        depth: 2,
    };
    assert_eq!(pb.for_each_in_domain(&state), Vec::<usize>::new());
}

#[test]
fn transition_enters_the_job_and_moves_the_origin() {
    let pb = problem(NARROW);
    let s0 = pb.initial_state();
    let (s1, c1) = pb.combined_transition(&s0, 0);
    assert_eq!(c1, 0);
    assert_eq!(
        s1,
        State {
            done: bits(4, &[0]),
            maybe_done: None,
            profile: vec![profile(vec![step(0, NEVER, 1)])],
            earliest: vec![0, 0, 0, 4],
            depth: 1,
        }
    );
    let (s2, c2) = pb.combined_transition(&s1, 1);
    assert_eq!(c2, -4);
    assert_eq!(
        s2,
        State {
            done: bits(4, &[0, 1]),
            maybe_done: None,
            profile: vec![profile(vec![step(0, NEVER, 1)])],
            earliest: vec![0, 0, 0, 4],
            depth: 2,
        }
    );
    let (s3, c3) = pb.combined_transition(&s2, 2);
    assert_eq!(c3, 0);
    assert_eq!(
        s3,
        State {
            done: bits(4, &[0, 1, 2]),
            maybe_done: None,
            profile: vec![profile(vec![step(0, NEVER, 1)])],
            earliest: vec![0, 0, 0, 0],
            depth: 3,
        }
    );
    let (s4, c4) = pb.combined_transition(&s3, 3);
    assert_eq!(c4, 0);
    assert_eq!(
        s4,
        State {
            done: bits(4, &[0, 1, 2, 3]),
            maybe_done: None,
            profile: vec![profile(vec![step(0, NEVER, 1)])],
            earliest: vec![0, 0, 0, 0],
            depth: 4,
        }
    );
}

#[test]
fn transition_keeps_the_profile_of_what_still_runs() {
    let pb = problem(WIDE);
    let s0 = pb.initial_state();
    let (s1, _) = pb.combined_transition(&s0, 0);
    let (s2, c2) = pb.combined_transition(&s1, 1);
    assert_eq!(c2, 0);
    assert_eq!(
        s2,
        State {
            done: bits(4, &[0, 1]),
            maybe_done: None,
            profile: vec![profile(vec![step(0, 4, 1), step(4, NEVER, 2)])],
            earliest: vec![0, 0, 0, 4],
            depth: 2,
        }
    );
}

#[test]
fn transition_from_a_merged_state_enters_the_job_in_both_sets() {
    let pb = problem(NARROW);
    let merged = State {
        done: bits(4, &[0]),
        maybe_done: Some(bits(4, &[2])),
        profile: vec![profile(vec![step(0, NEVER, 1)])],
        earliest: vec![0, 0, 0, 4],
        depth: 2,
    };
    let (next, cost) = pb.combined_transition(&merged, 1);
    assert_eq!(cost, 0);
    assert_eq!(
        next,
        State {
            done: bits(4, &[0, 1]),
            maybe_done: Some(bits(4, &[1, 2])),
            profile: vec![profile(vec![step(0, NEVER, 1)])],
            earliest: vec![0, 0, 0, 0],
            depth: 3,
        }
    );
}

#[test]
fn transition_and_its_cost_are_the_two_halves_of_the_combined_one() {
    let pb = problem(NARROW);
    let s1 = pb.combined_transition(&pb.initial_state(), 0).0;
    let (next, cost) = pb.combined_transition(&s1, 2);
    assert_eq!(pb.transition(&s1, 2), next);
    assert_eq!(pb.transition_cost(&s1, 2), cost);
    assert_eq!(cost, -4);
}

#[test]
fn same_state_and_decision_give_the_same_successor() {
    let pb = problem(TWO_RESOURCES);
    let s1 = pb.combined_transition(&pb.initial_state(), 0).0;
    for d in pb.for_each_in_domain(&s1) {
        let a = pb.combined_transition(&s1, d);
        let b = pb.combined_transition(&s1.clone(), d);
        assert_eq!(a, b);
    }
}

#[test]
fn costs_add_up_to_the_rise_of_the_sink() {
    let pb = problem(TWO_RESOURCES);
    let n = pb.nb_variables();
    let mut state = pb.initial_state();
    let mut total = 0;
    for d in [0, 2, 1, 3, 4] {
        assert!(pb.for_each_in_domain(&state).contains(&d));
        assert_eq!(state.done.count_ones(..), state.depth);
        let (next, cost) = pb.combined_transition(&state, d);
        total += cost;
        state = next;
    }
    // job 2 during [0, 2), job 1 during [2, 5), job 3 during [5, 7)
    assert_eq!(pb.initial_value(), -3);
    assert_eq!(total, -4);
    assert_eq!(state.depth, n);
    assert_eq!(state.done.count_ones(..), n);
    assert_eq!(state.maybe_done, None);
    assert_eq!(state.earliest, vec![0; 5]);
}

#[test]
fn ranking_goes_by_depth() {
    let pb = problem(WIDE);
    let s0 = pb.initial_state();
    let s1 = pb.combined_transition(&s0, 0).0;
    let ranking = RcpspRanking;
    assert_eq!(ranking.compare(&s0, &s1), Ordering::Less);
    assert_eq!(ranking.compare(&s1, &s0), Ordering::Greater);
    assert_eq!(ranking.compare(&s1, &s1.clone()), Ordering::Equal);
}

/// Walks every order of decisions and checks, at every step, that the step
/// costs nothing or less.
fn walk(pb: &Rcpsp, state: &State) -> usize {
    if state.depth == pb.nb_variables() {
        return 1;
    }
    let mut paths = 0;
    for d in pb.for_each_in_domain(state) {
        let (next, cost) = pb.combined_transition(state, d);
        assert!(cost <= 0);
        assert_eq!(next.depth, state.depth + 1);
        assert_eq!(next.done.count_ones(..), next.depth);
        assert!(next.earliest.iter().all(|e| *e >= 0));
        paths += walk(pb, &next);
    }
    paths
}

#[test]
fn no_step_costs_more_than_nothing() {
    assert_eq!(walk(&problem(TWO_RESOURCES), &problem(TWO_RESOURCES).initial_state()), 6);
    assert_eq!(walk(&problem(NARROW), &problem(NARROW).initial_state()), 2);
    assert_eq!(walk(&problem(CHAIN_OF_SIX), &problem(CHAIN_OF_SIX).initial_state()), 1);
}

#[test]
fn clone_of_a_problem_holds_the_same() {
    let pb = problem(TWO_RESOURCES);
    let copy = pb.clone();
    assert_eq!(copy.instance.n_jobs, pb.instance.n_jobs);
    assert_eq!(copy.instance.n_resources, pb.instance.n_resources);
    assert_eq!(copy.instance.predecessors, pb.instance.predecessors);
    assert_eq!(copy.instance.successors, pb.instance.successors);
    assert_eq!(copy.instance.duration, pb.instance.duration);
    assert_eq!(copy.instance.consumption, pb.instance.consumption);
    assert_eq!(copy.instance.capacity, pb.instance.capacity);
    assert_eq!(copy.initial, pb.initial);
    assert_eq!(copy.topo_order, pb.topo_order);
    assert_eq!(sink_start(&copy), 7);
}
