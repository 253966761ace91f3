use rcpsp::profile::{ConsumptionProfile, ConsumptionStep};
use std::collections::VecDeque;

const NEVER: isize = isize::MAX;

fn step(start: isize, end: isize, rem_capacity: isize) -> ConsumptionStep {
    ConsumptionStep { start, end, rem_capacity }
}

fn profile(steps: Vec<ConsumptionStep>) -> ConsumptionProfile {
    ConsumptionProfile { steps: VecDeque::from(steps) }
}

fn three_steps() -> ConsumptionProfile {
    profile(vec![step(0, 10, 5), step(10, 20, 3), step(20, NEVER, 5)])
}

/// The capacity at time `t`, read off the steps.
fn rem(p: &ConsumptionProfile, t: isize) -> isize {
    for s in p.steps.iter() {
        if s.start <= t && (t < s.end || s.end == NEVER) {
            return s.rem_capacity;
        }
    }
    panic!("no step covers {}", t)
}

fn check_partition(p: &ConsumptionProfile) {
    assert!(!p.steps.is_empty());
    assert_eq!(p.steps[0].start, 0);
    assert_eq!(p.steps[p.steps.len() - 1].end, NEVER);
    for k in 0..p.steps.len() {
        assert!(p.steps[k].start < p.steps[k].end);
        if k + 1 < p.steps.len() {
            assert_eq!(p.steps[k].end, p.steps[k + 1].start);
        }
    }
}

#[test]
fn full_consumption_then_forward_gives_two_steps() {
    let mut p = profile(vec![step(0, NEVER, 3)]);
    p.add_consumption(2, 3, 3);
    assert_eq!(p, profile(vec![step(0, 2, 3), step(2, 5, 0), step(5, NEVER, 3)]));
    p.forward_by(2);
    assert_eq!(p, profile(vec![step(0, 3, 0), step(3, NEVER, 3)]));
}

#[test]
fn step_inside_the_window_is_lowered() {
    let mut p = three_steps();
    p.add_consumption(10, 10, 2);
    assert_eq!(p, profile(vec![step(0, 10, 5), step(10, 20, 1), step(20, NEVER, 5)]));
}

#[test]
fn window_inside_a_step_splits_it_in_three() {
    let mut p = profile(vec![step(0, NEVER, 3)]);
    p.add_consumption(2, 3, 1);
    assert_eq!(p, profile(vec![step(0, 2, 3), step(2, 5, 2), step(5, NEVER, 3)]));
}

#[test]
fn window_at_the_beginning_of_a_step_splits_it_in_two() {
    let mut p = profile(vec![step(0, NEVER, 3)]);
    p.add_consumption(0, 4, 2);
    assert_eq!(p, profile(vec![step(0, 4, 1), step(4, NEVER, 3)]));
}

#[test]
fn window_up_to_the_end_of_a_step_splits_it_in_two() {
    let mut p = three_steps();
    p.add_consumption(6, 4, 1);
    assert_eq!(
        p,
        profile(vec![step(0, 6, 5), step(6, 10, 4), step(10, 20, 3), step(20, NEVER, 5)])
    );
}

#[test]
fn step_that_holds_the_start_of_the_window_is_split() {
    let mut p = three_steps();
    p.add_consumption(5, 15, 1);
    assert_eq!(
        p,
        profile(vec![step(0, 5, 5), step(5, 10, 4), step(10, 20, 2), step(20, NEVER, 5)])
    );
}

#[test]
fn step_that_holds_the_end_of_the_window_is_split() {
    let mut p = three_steps();
    p.add_consumption(10, 15, 1);
    assert_eq!(
        p,
        profile(vec![step(0, 10, 5), step(10, 20, 2), step(20, 25, 4), step(25, NEVER, 5)])
    );
}

#[test]
fn window_over_several_steps_cuts_the_first_and_the_last() {
    let mut p = three_steps();
    p.add_consumption(4, 20, 3);
    assert_eq!(
        p,
        profile(vec![
            step(0, 4, 5),
            step(4, 10, 2),
            step(10, 20, 0),
            step(20, 24, 2),
            step(24, NEVER, 5)
        ])
    );
}

#[test]
fn no_duration_or_no_amount_changes_nothing() {
    let mut p = three_steps();
    p.add_consumption(5, 0, 2);
    assert_eq!(p, three_steps());
    p.add_consumption(5, 7, 0);
    assert_eq!(p, three_steps());
}

#[test]
fn equal_neighbours_are_left_apart_by_add_consumption() {
    let mut p = profile(vec![step(0, NEVER, 3)]);
    p.add_consumption(0, 5, 1);
    p.add_consumption(5, 4, 1);
    assert_eq!(p, profile(vec![step(0, 5, 2), step(5, 9, 2), step(9, NEVER, 3)]));
}

#[test]
fn add_consumption_lowers_exactly_inside_the_window() {
    let before = three_steps();
    let mut after = three_steps();
    after.add_consumption(7, 16, 2);
    check_partition(&after);
    for t in 0..40 {
        let taken = if 7 <= t && t < 23 { 2 } else { 0 };
        assert_eq!(rem(&after, t), rem(&before, t) - taken, "at {}", t);
    }
}

#[test]
fn jobs_within_the_capacity_never_overdraw() {
    // capacity 4; the jobs that run together never take more than 4
    let mut p = profile(vec![step(0, NEVER, 4)]);
    let jobs: [(isize, isize, isize); 5] = [(0, 5, 2), (3, 4, 2), (5, 3, 2), (8, 2, 4), (10, 6, 1)];
    for (start, duration, amount) in jobs {
        p.add_consumption(start, duration, amount);
        check_partition(&p);
        for s in p.steps.iter() {
            assert!(0 <= s.rem_capacity && s.rem_capacity <= 4);
        }
    }
    for t in 0..20 {
        let mut load = 0;
        for (start, duration, amount) in jobs {
            if start <= t && t < start + duration {
                load += amount;
            }
        }
        assert_eq!(rem(&p, t), 4 - load, "at {}", t);
    }
}

#[test]
fn forward_by_drops_what_is_over_and_moves_the_rest() {
    let start = profile(vec![step(0, 2, 3), step(2, 5, 0), step(5, NEVER, 3)]);
    let mut p = start.clone();
    p.forward_by(0);
    assert_eq!(p, start);
    let mut p = start.clone();
    p.forward_by(1);
    assert_eq!(p, profile(vec![step(0, 1, 3), step(1, 4, 0), step(4, NEVER, 3)]));
    let mut p = start.clone();
    p.forward_by(3);
    assert_eq!(p, profile(vec![step(0, 2, 0), step(2, NEVER, 3)]));
    let mut p = start.clone();
    p.forward_by(5);
    assert_eq!(p, profile(vec![step(0, NEVER, 3)]));
    let mut p = start.clone();
    p.forward_by(100);
    assert_eq!(p, profile(vec![step(0, NEVER, 3)]));
    let mut p = start.clone();
    p.forward_by(NEVER);
    assert_eq!(p, profile(vec![step(0, NEVER, 3)]));
}

#[test]
fn forward_by_reads_what_was_read_later() {
    let before = profile(vec![
        step(0, 4, 5),
        step(4, 10, 2),
        step(10, 20, 0),
        step(20, 24, 2),
        step(24, NEVER, 5),
    ]);
    for delta in 0..30 {
        let mut after = before.clone();
        after.forward_by(delta);
        check_partition(&after);
        for t in 0..40 {
            assert_eq!(rem(&after, t), rem(&before, t + delta), "delta {} at {}", delta, t);
        }
    }
}

#[test]
fn merge_takes_the_larger_capacity_and_joins_equal_neighbours() {
    let p = profile(vec![step(0, 4, 1), step(4, NEVER, 3)]);
    let q = profile(vec![step(0, 2, 2), step(2, 6, 0), step(6, NEVER, 3)]);
    let mut pq = p.clone();
    pq.merge_consumption_profile(&q);
    assert_eq!(pq, profile(vec![step(0, 2, 2), step(2, 4, 1), step(4, NEVER, 3)]));
    for t in 0..12 {
        assert_eq!(rem(&pq, t), rem(&p, t).max(rem(&q, t)));
        assert!(rem(&pq, t) >= rem(&p, t) && rem(&pq, t) >= rem(&q, t));
    }
}

#[test]
fn merge_does_not_depend_on_the_order() {
    let p = profile(vec![step(0, 3, 4), step(3, 7, 1), step(7, 9, 6), step(9, NEVER, 2)]);
    let q = profile(vec![step(0, 5, 2), step(5, 8, 5), step(8, NEVER, 2)]);
    let mut pq = p.clone();
    pq.merge_consumption_profile(&q);
    let mut qp = q.clone();
    qp.merge_consumption_profile(&p);
    assert_eq!(pq, qp);
    assert_eq!(
        pq,
        profile(vec![
            step(0, 3, 4),
            step(3, 5, 2),
            step(5, 7, 5),
            step(7, 9, 6),
            step(9, NEVER, 2)
        ])
    );
}

#[test]
fn merge_does_not_depend_on_the_grouping() {
    let p = profile(vec![step(0, 3, 4), step(3, 7, 1), step(7, NEVER, 2)]);
    let q = profile(vec![step(0, 5, 2), step(5, 8, 5), step(8, NEVER, 2)]);
    let r = profile(vec![step(0, 1, 0), step(1, 6, 3), step(6, NEVER, 1)]);
    let mut left = p.clone();
    left.merge_consumption_profile(&q);
    left.merge_consumption_profile(&r);
    let mut qr = q.clone();
    qr.merge_consumption_profile(&r);
    let mut right = p.clone();
    right.merge_consumption_profile(&qr);
    assert_eq!(left, right);
}

#[test]
fn merge_with_itself_gives_the_profile_back() {
    let p = profile(vec![step(0, 3, 4), step(3, 7, 1), step(7, NEVER, 2)]);
    let mut pp = p.clone();
    pp.merge_consumption_profile(&p);
    assert_eq!(pp, p);
}

#[test]
fn merge_with_itself_joins_equal_neighbours() {
    let p = profile(vec![step(0, 5, 2), step(5, 9, 2), step(9, NEVER, 3)]);
    let mut pp = p.clone();
    pp.merge_consumption_profile(&p);
    assert_eq!(pp, profile(vec![step(0, 9, 2), step(9, NEVER, 3)]));
}

#[test]
fn merge_of_steps_with_equal_ends() {
    let p = profile(vec![step(0, 5, 1), step(5, NEVER, 4)]);
    let q = profile(vec![step(0, 5, 3), step(5, NEVER, 2)]);
    let mut pq = p.clone();
    pq.merge_consumption_profile(&q);
    assert_eq!(pq, profile(vec![step(0, 5, 3), step(5, NEVER, 4)]));
}

#[test]
fn find_window_passes_runs_that_are_too_short() {
    let p = profile(vec![step(0, 4, 0), step(4, 6, 2), step(6, 10, 0), step(10, NEVER, 2)]);
    assert_eq!(p.find_window(0, 0, 3, 1), 3);
    assert_eq!(p.find_window(0, 0, 2, 1), 1);
    assert_eq!(p.find_window(0, 5, 1, 1), 1);
    assert_eq!(p.find_window(0, 5, 2, 1), 3);
    assert_eq!(p.find_window(1, 0, 0, 2), 1);
    assert_eq!(p.find_window(0, 6, 0, 2), 3);
    assert_eq!(p.find_window(0, 12, 1000, 2), 3);
}

#[test]
fn find_window_joins_steps_that_are_high_enough() {
    let p = profile(vec![step(0, 3, 1), step(3, 5, 2), step(5, 6, 0), step(6, NEVER, 3)]);
    // [0, 5) is one run for a job that needs 1
    assert_eq!(p.find_window(0, 0, 5, 1), 0);
    assert_eq!(p.find_window(0, 1, 4, 1), 0);
    assert_eq!(p.find_window(0, 1, 5, 1), 3);
    assert_eq!(p.find_window(0, 0, 2, 2), 1);
    assert_eq!(p.find_window(0, 0, 3, 2), 3);
}

#[test]
fn clone_of_a_profile_is_equal_to_it() {
    let p = three_steps();
    let q = p.clone();
    assert_eq!(p, q);
}
