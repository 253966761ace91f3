use fixedbitset::FixedBitSet;
use rcpsp::profile::{ConsumptionProfile, ConsumptionStep};
use rcpsp::state::State;
use std::collections::VecDeque;

const NEVER: isize = isize::MAX;

fn step(start: isize, end: isize, rem_capacity: isize) -> ConsumptionStep {
    ConsumptionStep { start, end, rem_capacity }
}

fn profile(steps: Vec<ConsumptionStep>) -> ConsumptionProfile {
    ConsumptionProfile { steps: VecDeque::from(steps) }
}

fn bits(n: usize, ones: &[usize]) -> FixedBitSet {
    let mut b = FixedBitSet::with_capacity(n);
    for i in ones {
        b.insert(*i);
    }
    b
}

fn two_resources(n_jobs: usize) -> State {
    State {
        done: FixedBitSet::with_capacity(n_jobs),
        maybe_done: None,
        profile: vec![
            profile(vec![step(0, 4, 0), step(4, NEVER, 2)]),
            profile(vec![step(0, 6, 1), step(6, 8, 0), step(8, NEVER, 1)]),
        ],
        earliest: vec![0; n_jobs],
        depth: 0,
    }
}

#[test]
fn earliest_start_is_where_all_resources_agree() {
    let s = two_resources(1);
    assert_eq!(s.get_earliest_start(0, 3, &vec![1, 1]), 8);
    assert_eq!(s.get_earliest_start(0, 2, &vec![1, 1]), 4);
    assert_eq!(s.get_earliest_start(0, 3, &vec![0, 1]), 0);
    assert_eq!(s.get_earliest_start(0, 7, &vec![0, 1]), 8);
    assert_eq!(s.get_earliest_start(0, 3, &vec![2, 0]), 4);
    assert_eq!(s.get_earliest_start(5, 1, &vec![2, 1]), 5);
    assert_eq!(s.get_earliest_start(5, 2, &vec![2, 1]), 8);
    assert_eq!(s.get_earliest_start(9, 50, &vec![2, 1]), 9);
}

#[test]
fn earliest_start_of_a_job_without_consumption_is_the_given_time() {
    let s = two_resources(1);
    assert_eq!(s.get_earliest_start(0, 3, &vec![0, 0]), 0);
    assert_eq!(s.get_earliest_start(7, 0, &vec![0, 0]), 7);
}

#[test]
fn earliest_start_of_a_job_without_duration_needs_capacity_at_its_start() {
    let s = two_resources(1);
    assert_eq!(s.get_earliest_start(0, 0, &vec![1, 1]), 4);
    assert_eq!(s.get_earliest_start(6, 0, &vec![0, 1]), 8);
    assert_eq!(s.get_earliest_start(6, 0, &vec![1, 0]), 6);
}

#[test]
fn earliest_start_without_resources_is_the_given_time() {
    let s = State {
        done: FixedBitSet::with_capacity(2),
        maybe_done: None,
        profile: vec![],
        earliest: vec![0, 0],
        depth: 0,
    };
    assert_eq!(s.get_earliest_start(3, 5, &vec![]), 3);
}

#[test]
fn earliest_start_near_the_end_of_time() {
    let s = two_resources(1);
    assert_eq!(s.get_earliest_start(NEVER - 3, 10, &vec![1, 1]), NEVER - 3);
    assert_eq!(s.get_earliest_start(NEVER, 10, &vec![1, 1]), NEVER);
}

#[test]
fn add_consumption_touches_the_needed_resources_only() {
    let mut s = two_resources(1);
    s.add_consumption(8, 2, &vec![0, 1]);
    assert_eq!(s.profile[0], profile(vec![step(0, 4, 0), step(4, NEVER, 2)]));
    assert_eq!(
        s.profile[1],
        profile(vec![step(0, 6, 1), step(6, 8, 0), step(8, 10, 0), step(10, NEVER, 1)])
    );
    let mut s = two_resources(1);
    s.add_consumption(4, 2, &vec![1, 1]);
    assert_eq!(s.profile[0], profile(vec![step(0, 4, 0), step(4, 6, 1), step(6, NEVER, 2)]));
    assert_eq!(
        s.profile[1],
        profile(vec![step(0, 4, 1), step(4, 6, 0), step(6, 8, 0), step(8, NEVER, 1)])
    );
    let mut s = two_resources(1);
    s.add_consumption(4, 0, &vec![1, 1]);
    assert_eq!(s, two_resources(1));
}

#[test]
fn propagate_moves_jobs_behind_their_predecessors_and_into_free_capacity() {
    // 0 -> 1 -> 3, 0 -> 2 -> 3; one resource of capacity 1, busy during [0, 2)
    let successors = vec![bits(4, &[1, 2]), bits(4, &[3]), bits(4, &[3]), bits(4, &[])];
    let duration = vec![0, 3, 2, 0];
    let consumption = vec![vec![0], vec![1], vec![1], vec![0]];
    let mut s = State {
        done: FixedBitSet::with_capacity(4),
        maybe_done: None,
        profile: vec![profile(vec![step(0, 2, 0), step(2, NEVER, 1)])],
        earliest: vec![0, 0, 0, 0],
        depth: 0,
    };
    s.propagate(&vec![0, 1, 2, 3], &successors, &duration, &consumption);
    assert_eq!(s.earliest, vec![0, 2, 2, 5]);
    assert_eq!(s.profile[0], profile(vec![step(0, 2, 0), step(2, NEVER, 1)]));
    assert_eq!(s.depth, 0);
}

#[test]
fn propagate_leaves_scheduled_jobs_alone() {
    let successors = vec![bits(3, &[1]), bits(3, &[2]), bits(3, &[])];
    let duration = vec![4, 3, 0];
    let consumption = vec![vec![], vec![], vec![]];
    let mut s = State {
        done: bits(3, &[0]),
        maybe_done: None,
        profile: vec![],
        earliest: vec![0, 6, 1],
        depth: 1,
    };
    s.propagate(&vec![0, 1, 2], &successors, &duration, &consumption);
    // job 0 is scheduled: it moves nothing; job 1 stays at 6 and moves job 2 to 9
    assert_eq!(s.earliest, vec![0, 6, 9]);
}

#[test]
fn propagate_does_not_push_from_a_possibly_scheduled_job() {
    let successors = vec![bits(3, &[1]), bits(3, &[2]), bits(3, &[])];
    let duration = vec![4, 3, 0];
    let consumption = vec![vec![], vec![], vec![]];
    let mut s = State {
        done: bits(3, &[0]),
        maybe_done: Some(bits(3, &[1])),
        profile: vec![],
        earliest: vec![0, 6, 1],
        depth: 2,
    };
    s.propagate(&vec![0, 1, 2], &successors, &duration, &consumption);
    assert_eq!(s.earliest, vec![0, 6, 1]);
}

#[test]
fn propagate_holds_the_estimates_at_the_end_of_time() {
    let successors = vec![bits(2, &[1]), bits(2, &[])];
    let duration = vec![10, 0];
    let consumption = vec![vec![], vec![]];
    let mut s = State {
        done: FixedBitSet::with_capacity(2),
        maybe_done: None,
        profile: vec![],
        earliest: vec![NEVER - 4, 0],
        depth: 0,
    };
    s.propagate(&vec![0, 1], &successors, &duration, &consumption);
    assert_eq!(s.earliest, vec![NEVER - 4, NEVER]);
}

#[test]
fn forward_to_earliest_moves_the_origin_to_the_first_open_job() {
    let mut s = State {
        done: bits(3, &[0]),
        maybe_done: None,
        profile: vec![profile(vec![step(0, 2, 3), step(2, 5, 0), step(5, NEVER, 3)])],
        earliest: vec![0, 3, 5],
        depth: 1,
    };
    s.forward_to_earliest();
    assert_eq!(s.earliest, vec![0, 0, 2]);
    assert_eq!(s.profile[0], profile(vec![step(0, 2, 0), step(2, NEVER, 3)]));
    assert_eq!(s.done, bits(3, &[0]));
    assert_eq!(s.depth, 1);
}

#[test]
fn forward_to_earliest_does_nothing_when_a_job_can_start_now() {
    let start = State {
        done: bits(3, &[0]),
        maybe_done: None,
        profile: vec![profile(vec![step(0, 2, 3), step(2, NEVER, 1)])],
        earliest: vec![7, 0, 5],
        depth: 1,
    };
    let mut s = start.clone();
    s.forward_to_earliest();
    assert_eq!(s, start);
}

#[test]
fn forward_to_earliest_does_nothing_when_all_jobs_are_scheduled() {
    let start = State {
        done: bits(2, &[0, 1]),
        maybe_done: None,
        profile: vec![profile(vec![step(0, 2, 3), step(2, NEVER, 1)])],
        earliest: vec![4, 4],
        depth: 2,
    };
    let mut s = start.clone();
    s.forward_to_earliest();
    assert_eq!(s, start);
}

#[test]
fn merge_consumption_profile_merges_resource_by_resource() {
    let mut s = two_resources(1);
    let other = vec![
        profile(vec![step(0, 2, 1), step(2, NEVER, 2)]),
        profile(vec![step(0, 7, 0), step(7, NEVER, 1)]),
    ];
    s.merge_consumption_profile(&other);
    assert_eq!(s.profile[0], profile(vec![step(0, 2, 1), step(2, NEVER, 2)]));
    assert_eq!(s.profile[1], profile(vec![step(0, 6, 1), step(6, 7, 0), step(7, NEVER, 1)]));
}

#[test]
fn clone_of_a_state_is_equal_to_it() {
    let mut s = two_resources(3);
    s.done.insert(1);
    s.maybe_done = Some(bits(3, &[2]));
    s.earliest = vec![1, 0, 4];
    s.depth = 2;
    let t = s.clone();
    assert_eq!(s, t);
    assert_eq!(t.done, bits(3, &[1]));
    assert_eq!(t.maybe_done, Some(bits(3, &[2])));
}
