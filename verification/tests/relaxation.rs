use fixedbitset::FixedBitSet;
use rcpsp::instance::RcpspInstance;
use rcpsp::model::Rcpsp;
use rcpsp::profile::{ConsumptionProfile, ConsumptionStep};
use rcpsp::relax::RcpspRelax;
use rcpsp::state::State;
use std::collections::VecDeque;

const NEVER: isize = isize::MAX;

fn step(start: isize, end: isize, rem_capacity: isize) -> ConsumptionStep {
    ConsumptionStep { start, end, rem_capacity }
}

fn profile(steps: Vec<ConsumptionStep>) -> ConsumptionProfile {
    ConsumptionProfile { steps: VecDeque::from(steps) }
}

fn bits(n: usize, ones: &[usize]) -> FixedBitSet {
    let mut b = FixedBitSet::with_capacity(n);
    for i in ones {
        b.insert(*i);
    }
    b
}

fn problem(text: &str) -> Rcpsp {
    let lines: Vec<Vec<u8>> = text.lines().map(|l| l.as_bytes().to_vec()).collect();
    Rcpsp::new(RcpspInstance::from_lines(&lines).unwrap())
}

const NARROW: &str = "4 1\n1\n0 0 2 2 3\n4 1 1 4\n4 1 1 4\n0 0 0\n";
const ROOMY: &str = "4 1\n3\n0 0 2 2 3\n4 1 1 4\n4 1 1 4\n0 0 0\n";

#[test]
fn merge_of_two_states_of_one_layer() {
    let pb = problem(NARROW);
    let s1 = pb.combined_transition(&pb.initial_state(), 0).0;
    let a = pb.combined_transition(&s1, 1).0;
    let b = pb.combined_transition(&s1, 2).0;
    let relax = RcpspRelax { pb: &pb };
    let merged = relax.merge(&vec![&a, &b]);
    assert_eq!(
        merged,
        State {
            done: bits(4, &[0]),
            maybe_done: Some(bits(4, &[1, 2])),
            profile: vec![profile(vec![step(0, NEVER, 1)])],
            earliest: vec![0, 0, 0, 4],
            depth: 2,
        }
    );
    assert_eq!(pb.for_each_in_domain(&merged), vec![1, 2, 3]);
}

#[test]
fn merge_takes_the_best_of_each_state() {
    let pb = problem(ROOMY);
    let x = State {
        done: bits(4, &[0, 1]),
        maybe_done: Some(bits(4, &[2])),
        profile: vec![profile(vec![step(0, 2, 1), step(2, NEVER, 3)])],
        earliest: vec![0, 0, 5, 9],
        depth: 3,
    };
    let y = State {
        done: bits(4, &[0]),
        maybe_done: None,
        profile: vec![profile(vec![step(0, 4, 2), step(4, NEVER, 3)])],
        earliest: vec![0, 1, 3, 7],
        depth: 1,
    };
    let relax = RcpspRelax { pb: &pb };
    let expected = State {
        done: bits(4, &[0]),
        maybe_done: Some(bits(4, &[1, 2])),
        profile: vec![profile(vec![step(0, 2, 2), step(2, NEVER, 3)])],
        earliest: vec![0, 1, 3, 7],
        depth: 3,
    };
    assert_eq!(relax.merge(&vec![&x, &y]), expected);
    assert_eq!(relax.merge(&vec![&y, &x]), expected);
}

#[test]
fn merge_does_not_take_the_estimate_of_a_scheduled_job() {
    let pb = problem(ROOMY);
    // job 2 is scheduled in x, where its estimate is cleared
    let x = State {
        done: bits(4, &[0, 2]),
        maybe_done: None,
        profile: vec![profile(vec![step(0, 4, 2), step(4, NEVER, 3)])],
        earliest: vec![0, 0, 0, 4],
        depth: 2,
    };
    let y = State {
        done: bits(4, &[0, 1]),
        maybe_done: None,
        profile: vec![profile(vec![step(0, 4, 2), step(4, NEVER, 3)])],
        earliest: vec![0, 0, 6, 10],
        depth: 2,
    };
    let relax = RcpspRelax { pb: &pb };
    let merged = relax.merge(&vec![&x, &y]);
    assert_eq!(merged.earliest, vec![0, 0, 6, 4]);
    assert_eq!(merged.done, bits(4, &[0]));
    assert_eq!(merged.maybe_done, Some(bits(4, &[1, 2])));
}

#[test]
fn merge_of_one_state_keeps_what_it_holds() {
    let pb = problem(NARROW);
    let s1 = pb.combined_transition(&pb.initial_state(), 0).0;
    let a = pb.combined_transition(&s1, 1).0;
    let relax = RcpspRelax { pb: &pb };
    let merged = relax.merge(&vec![&a]);
    assert_eq!(merged.done, a.done);
    assert_eq!(merged.maybe_done, Some(bits(4, &[])));
    assert_eq!(merged.profile, a.profile);
    assert_eq!(merged.earliest, a.earliest);
    assert_eq!(merged.depth, a.depth);
}

#[test]
fn merge_joins_equal_neighbours_of_a_profile() {
    let pb = problem(ROOMY);
    let x = State {
        done: bits(4, &[0]),
        maybe_done: None,
        profile: vec![profile(vec![step(0, 3, 2), step(3, 5, 2), step(5, NEVER, 3)])],
        earliest: vec![0, 0, 0, 4],
        depth: 1,
    };
    let relax = RcpspRelax { pb: &pb };
    let merged = relax.merge(&vec![&x, &x]);
    assert_eq!(merged.profile, vec![profile(vec![step(0, 5, 2), step(5, NEVER, 3)])]);
}

#[test]
fn merge_bounds_each_state() {
    let pb = problem(ROOMY);
    let s1 = pb.combined_transition(&pb.initial_state(), 0).0;
    let a = pb.combined_transition(&s1, 1).0;
    let b = pb.combined_transition(&s1, 2).0;
    let c = pb.combined_transition(&a, 2).0;
    let relax = RcpspRelax { pb: &pb };
    let merged = relax.merge(&vec![&a, &b, &c]);
    let maybe = merged.maybe_done.clone().unwrap();
    for s in [&a, &b, &c] {
        assert!(merged.done.is_subset(&s.done));
        assert!(s.done.is_subset(&(&merged.done | &maybe)));
        assert!(merged.depth >= s.depth);
        for j in 0..4 {
            if !s.done.contains(j) {
                assert!(merged.earliest[j] <= s.earliest[j]);
            }
        }
    }
    assert!(merged.done.is_disjoint(&maybe));
    assert_eq!(merged.depth, 3);
}

#[test]
fn relax_keeps_the_cost() {
    let pb = problem(NARROW);
    let s0 = pb.initial_state();
    let s1 = pb.combined_transition(&s0, 0).0;
    let relax = RcpspRelax { pb: &pb };
    assert_eq!(relax.relax(&s0, &s1, &s1, 0, -7), -7);
    assert_eq!(relax.relax(&s0, &s1, &s1, 3, 0), 0);
    assert_eq!(relax.relax(&s0, &s1, &s1, 1, isize::MIN), isize::MIN);
}

/// The best value over all orders of decisions from `state` on.
fn best_value(pb: &Rcpsp, state: &State, value: isize) -> isize {
    if state.depth == pb.nb_variables() {
        return value;
    }
    let mut best = isize::MIN;
    for d in pb.for_each_in_domain(state) {
        let (next, cost) = pb.combined_transition(state, d);
        best = best.max(best_value(pb, &next, value + cost));
    }
    best
}

#[test]
fn merge_counts_the_rise_of_the_sink_from_its_smallest_estimate() {
    // Jobs 1 and 2 share the second resource, jobs 3 and 4 the first; the
    // sink waits for 1, 3 and 4, and 3 and 4 wait for 2.
    let text = "6 2\n1 1\n0 0 0 2 2 3\n7 0 1 1 6\n1 0 1 2 4 5\n3 1 0 1 6\n3 1 0 1 6\n0 0 0 0\n";
    let pb = problem(text);
    let s0 = pb.initial_state();
    let (s1, c0) = pb.combined_transition(&s0, 0);
    // job 2 first, then job 1: the sink waits for job 1 until 8
    let (qa, qc1) = pb.combined_transition(&s1, 2);
    let (q, qc2) = pb.combined_transition(&qa, 1);
    let value_q = pb.initial_value() + c0 + qc1 + qc2;
    // job 1 first, then job 2: jobs 3 and 4 cannot start before 8
    let (pa, pc1) = pb.combined_transition(&s1, 1);
    let (p, pc2) = pb.combined_transition(&pa, 2);
    let value_p = pb.initial_value() + c0 + pc1 + pc2;
    assert_eq!((value_q, value_p), (-8, -11));
    assert_eq!(q.earliest, vec![0, 0, 0, 0, 0, 7]);
    assert_eq!(p.earliest, vec![0, 0, 0, 0, 0, 3]);
    let relax = RcpspRelax { pb: &pb };
    let merged = relax.merge(&vec![&p, &q]);
    assert_eq!(merged.earliest, vec![0, 0, 0, 0, 0, 3]);
    assert_eq!(best_value(&pb, &q, value_q), -8);
    assert_eq!(best_value(&pb, &p, value_p), -14);
    // from the merged state the sink rises from 3 to 6, whichever of jobs 3
    // and 4 comes first
    assert_eq!(best_value(&pb, &merged, 0), -3);
}
