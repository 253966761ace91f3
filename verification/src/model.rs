//! The scheduling problem as a sequence of decisions: the state to start
//! from, the jobs that may be scheduled next, and what scheduling one does.

use crate::bitset::{bitset_bounded, bitset_len, bitset_ones, count_ones_all, lemma_bounded_finite};
use crate::instance::RcpspInstance;
use crate::profile::{
    fits, lemma_forwarded_fits, lemma_forwarded_within, lemma_lowered_within,
    lemma_untouched, tail_capacity, untouched, well_formed, within, ConsumptionProfile,
    ConsumptionStep,
};
use crate::state::{
    all_well_formed, can_lower_all, fits_all, is_topological, lemma_propagated,
    lemma_shift_of, lowered_profiles, occurs, open_jobs_fit, propagated, shift_of, shifted,
    tail_suffices, State, StateView,
};
use fixedbitset::FixedBitSet;
use std::collections::VecDeque;
use vstd::prelude::*;
use vstd::set_lib::{lemma_int_range, lemma_len_subset, lemma_subset_equality, set_int_range};

verus! {

/// The problem: a project, the state in which nothing is scheduled, and an
/// order in which the estimates are propagated.
#[derive(Debug)]
pub struct Rcpsp {
    pub instance: RcpspInstance,
    pub initial: State,
    pub topo_order: Vec<usize>,
}

/// The set in which the predecessors of a job must lie for the job to be
/// the next decision: the scheduled jobs where as many are scheduled as
/// decisions were taken; else, in a merged state, those and the possibly
/// scheduled ones.
pub open spec fn allowed(v: StateView) -> Option<Set<int>> {
    if v.done.len() == v.depth {
        Some(v.done)
    } else {
        match v.maybe_done {
            Some(m) => Some(v.done.union(m)),
            None => None,
        }
    }
}

/// Each entry is less than the next.
pub open spec fn ascending(out: Seq<usize>) -> bool {
    forall|a: int, b: int| 0 <= a < b < out.len() ==> #[trigger] out[a] < #[trigger] out[b]
}

/// As many jobs are scheduled as decisions were taken, and none is only
/// possibly scheduled: the state was reached by decisions alone.
pub open spec fn is_exact(v: StateView) -> bool {
    &&& v.maybe_done is None
    &&& v.done.finite()
    &&& v.done.len() == v.depth
}

/// Job `x` stands in `order` before position `q`.
pub open spec fn placed_before(order: Seq<usize>, q: int, x: int) -> bool {
    exists|p: int| 0 <= p < q && #[trigger] order[p] == x
}

/// `order` begins with job 0, holds no job twice, and every job after the
/// first stands behind all its predecessors.
pub open spec fn follows_precedence(order: Seq<usize>, instance: &RcpspInstance) -> bool {
    &&& order.len() >= 1
    &&& order[0] == 0
    &&& forall|p: int| 0 <= p < order.len() ==> (#[trigger] order[p]) < instance.n_jobs
    &&& forall|p: int, q: int| 0 <= p < q < order.len() ==> #[trigger] order[p] != #[trigger] order[q]
    &&& forall|q: int, x: int|
        1 <= q < order.len() && instance.preds(order[q] as int).contains(x) ==> #[trigger] placed_before(
            order,
            q,
            x,
        )
}

/// Every job that has predecessors, all of which are in `order`, is in
/// `order` too.
pub open spec fn closed_under_release(order: Seq<usize>, instance: &RcpspInstance) -> bool {
    forall|j: int|
        0 <= j < instance.n_jobs && instance.preds(j).len() > 0 && (forall|x: int|
            instance.preds(j).contains(x) ==> occurs(order, x)) ==> #[trigger] occurs(order, j)
}

/// In a state reached by as many decisions as there are jobs, every job is
/// scheduled.
pub proof fn lemma_exact_terminal_full(v: StateView, n: int)
    requires
        is_exact(v),
        v.depth == n,
        forall|j: int| v.done.contains(j) ==> 0 <= j < n,
        0 <= n,
    ensures
        forall|j: int| 0 <= j < n ==> v.done.contains(j),
        v.done == set_int_range(0, n),
{
    lemma_int_range(0, n);
    assert(v.done.subset_of(set_int_range(0, n)));
    lemma_subset_equality(v.done, set_int_range(0, n));
}

/// An order that follows the precedence and holds every job, for a project
/// whose job 0 has no predecessor, is topological.
pub proof fn lemma_full_order_is_topological(order: Seq<usize>, instance: &RcpspInstance)
    requires
        instance.wf(),
        follows_precedence(order, instance),
        order.len() == instance.n_jobs,
        instance.preds(0).len() == 0,
    ensures
        is_topological(order, instance.successors@),
{
    let n = instance.n_jobs as int;
    let held = Set::new(|j: int| occurs(order, j));
    let range = set_int_range(0, n);
    lemma_int_range(0, n);
    lemma_distinct_count(order, order.len() as int);
    let firsts = Set::new(|j: int| placed_before(order, order.len() as int, j));
    assert(firsts =~= held) by {
        assert forall|j: int| firsts.contains(j) == held.contains(j) by {
            if placed_before(order, order.len() as int, j) {
                let p = choose|p: int| 0 <= p < order.len() && #[trigger] order[p] == j;
                assert(occurs(order, j));
            }
            if occurs(order, j) {
                let p = choose|p: int| 0 <= p < order.len() && #[trigger] order[p] == j;
                assert(placed_before(order, order.len() as int, j));
            }
        }
    }
    assert(held.subset_of(range)) by {
        assert forall|j: int| held.contains(j) implies range.contains(j) by {
            let p = choose|p: int| 0 <= p < order.len() && #[trigger] order[p] == j;
        }
    }
    lemma_subset_equality(held, range);
    assert forall|j: int| 0 <= j < instance.successors@.len() implies #[trigger] occurs(
        order,
        j,
    ) by {
        assert(range.contains(j));
        assert(held.contains(j));
    }
    lemma_bounded_finite(instance.predecessors@[0]);
    assert forall|p: int, q: int| 0 <= p <= q < order.len() implies !bitset_ones(
        instance.successors@[#[trigger] order[q] as int],
    ).contains(#[trigger] order[p] as int) by {
        let a = order[p] as int;
        let b = order[q] as int;
        if instance.succs(b).contains(a) {
            assert(instance.preds(a).contains(b));
            if p == 0 {
                assert(instance.preds(0).contains(b));
                assert(false);
            } else {
                assert(placed_before(order, p, b));
                let x = choose|x: int| 0 <= x < p && #[trigger] order[x] == b;
                assert(order[x] != order[q]);
            }
        }
    }
}

/// The first `k` entries of a list without repetition are `k` different jobs.
proof fn lemma_distinct_count(order: Seq<usize>, k: int)
    requires
        0 <= k <= order.len(),
        forall|p: int, q: int| 0 <= p < q < order.len() ==> #[trigger] order[p] != #[trigger] order[q],
    ensures
        Set::new(|j: int| placed_before(order, k, j)).finite(),
        Set::new(|j: int| placed_before(order, k, j)).len() == k,
    decreases k,
{
    let now = Set::new(|j: int| placed_before(order, k, j));
    if k == 0 {
        assert(now =~= Set::empty());
    } else {
        lemma_distinct_count(order, k - 1);
        let prev = Set::new(|j: int| placed_before(order, k - 1, j));
        let x = order[k - 1] as int;
        assert(!prev.contains(x)) by {
            if placed_before(order, k - 1, x) {
                let p = choose|p: int| 0 <= p < k - 1 && #[trigger] order[p] == x;
                assert(order[p] != order[k - 1]);
            }
        }
        assert(now =~= prev.insert(x)) by {
            assert forall|j: int| now.contains(j) == prev.insert(x).contains(j) by {
                if placed_before(order, k, j) {
                    let p = choose|p: int| 0 <= p < k && #[trigger] order[p] == j;
                    if p < k - 1 {
                        assert(placed_before(order, k - 1, j));
                    }
                }
                if prev.insert(x).contains(j) {
                    if j == x {
                        assert(order[k - 1] == x);
                        assert(placed_before(order, k, j));
                    } else {
                        let p = choose|p: int| 0 <= p < k - 1 && #[trigger] order[p] == j;
                        assert(placed_before(order, k, j));
                    }
                }
            }
        }
    }
}

impl Clone for Rcpsp {
    fn clone(&self) -> (r: Self)
        ensures
            r.instance.same_as(&self.instance),
            r.initial@ == self.initial@,
            r.topo_order@ == self.topo_order@,
    {
        let topo_order = self.topo_order.clone();
        assert(topo_order@ =~= self.topo_order@);
        Rcpsp { instance: self.instance.clone(), initial: self.initial.clone(), topo_order }
    }
}

impl Rcpsp {
    /// Orders the jobs for propagation. Job 0 comes first; a job is released
    /// once all its predecessors are placed, and the job released last is
    /// placed next.
    pub fn toposort(instance: &RcpspInstance) -> (order: Vec<usize>)
        requires
            instance.wf(),
        ensures
            follows_precedence(order@, instance),
            closed_under_release(order@, instance),
            order@.len() == instance.n_jobs && instance.preds(0).len() == 0 ==> is_topological(
                order@,
                instance.successors@,
            ),
    {
        let n = instance.n_jobs;
        let mut placed = FixedBitSet::with_capacity(n);
        let mut seen = FixedBitSet::with_capacity(n);
        let mut order: Vec<usize> = Vec::new();
        let mut open: Vec<usize> = Vec::new();
        open.push(0);
        seen.insert(0);
        proof {
            lemma_distinct_count(order@, 0);
            assert(bitset_ones(placed) =~= Set::new(|j: int| placed_before(order@, 0, j)));
            assert(open@[0] == 0);
            assert(occurs(open@, 0));
            assert forall|j: int|
                0 <= j < n && instance.preds(j).len() > 0 && instance.preds(j).subset_of(
                    bitset_ones(placed),
                ) implies #[trigger] bitset_ones(seen).contains(j) by {
                assert(instance.preds(j) =~= Set::empty());
            }
        }
        while open.len() > 0
            invariant
                instance.wf(),
                n == instance.n_jobs,
                bitset_len(placed) == n,
                bitset_len(seen) == n,
                forall|p: int| 0 <= p < order@.len() ==> (#[trigger] order@[p]) < n,
                forall|a: int| 0 <= a < open@.len() ==> (#[trigger] open@[a]) < n,
                bitset_ones(placed) == Set::new(|j: int| placed_before(order@, order@.len() as int, j)),
                forall|p: int, q: int|
                    0 <= p < q < order@.len() ==> #[trigger] order@[p] != #[trigger] order@[q],
                forall|a: int, b: int|
                    0 <= a < b < open@.len() ==> #[trigger] open@[a] != #[trigger] open@[b],
                forall|a: int|
                    0 <= a < open@.len() ==> bitset_ones(seen).contains(#[trigger] open@[a] as int)
                        && !bitset_ones(placed).contains(open@[a] as int),
                forall|j: int|
                    bitset_ones(placed).contains(j) ==> #[trigger] bitset_ones(seen).contains(j),
                forall|j: int| #[trigger]
                    bitset_ones(seen).contains(j) ==> bitset_ones(placed).contains(j) || occurs(
                        open@,
                        j,
                    ),
                forall|q: int, x: int|
                    1 <= q < order@.len() && instance.preds(order@[q] as int).contains(x)
                        ==> #[trigger] placed_before(order@, q, x),
                order@.len() > 0 ==> forall|a: int, x: int|
                    0 <= a < open@.len() && #[trigger] instance.preds(open@[a] as int).contains(x)
                        ==> bitset_ones(placed).contains(x),
                order@.len() == 0 ==> open@.len() == 1 && open@[0] == 0,
                order@.len() > 0 ==> order@[0] == 0,
                forall|j: int|
                    0 <= j < n && instance.preds(j).len() > 0 && instance.preds(j).subset_of(
                        bitset_ones(placed),
                    ) ==> #[trigger] bitset_ones(seen).contains(j),
            decreases n - order@.len(),
        {
            let ghost order0 = order@;
            let ghost open0 = open@;
            let ghost placed0 = bitset_ones(placed);
            let i = open.pop().unwrap();
            proof {
                assert(i == open0[open0.len() - 1]);
                assert(!placed0.contains(i as int));
                lemma_distinct_count(order0, order0.len() as int);
                lemma_int_range(0, n as int);
                assert(placed0.insert(i as int).subset_of(set_int_range(0, n as int))) by {
                    assert forall|j: int| placed0.insert(i as int).contains(j) implies set_int_range(
                        0,
                        n as int,
                    ).contains(j) by {
                        if j != i {
                            let p = choose|p: int| 0 <= p < order0.len() && #[trigger] order0[p] == j;
                        }
                    }
                }
                lemma_len_subset(placed0.insert(i as int), set_int_range(0, n as int));
            }
            order.push(i);
            placed.insert(i);
            proof {
                assert(bitset_ones(placed) =~= Set::new(
                    |j: int| placed_before(order@, order@.len() as int, j),
                )) by {
                    assert forall|j: int|
                        bitset_ones(placed).contains(j) == placed_before(
                            order@,
                            order@.len() as int,
                            j,
                        ) by {
                        if placed_before(order@, order@.len() as int, j) {
                            let p = choose|p: int|
                                0 <= p < order@.len() && #[trigger] order@[p] == j;
                            if p < order0.len() {
                                assert(order0[p] == j);
                                assert(placed_before(order0, order0.len() as int, j));
                            }
                        }
                        if bitset_ones(placed).contains(j) {
                            if j == i {
                                assert(order@[order0.len() as int] == j);
                            } else {
                                let p = choose|p: int|
                                    0 <= p < order0.len() && #[trigger] order0[p] == j;
                                assert(order@[p] == j);
                            }
                        }
                    }
                }
                assert forall|p: int, q: int| 0 <= p < q < order@.len() implies #[trigger] order@[p]
                    != #[trigger] order@[q] by {
                    if q == order0.len() {
                        if order@[p] == i {
                            assert(order0[p] == i);
                            assert(placed_before(order0, order0.len() as int, i as int));
                        }
                    } else {
                        assert(order0[p] != order0[q]);
                    }
                }
                assert forall|q: int, x: int|
                    1 <= q < order@.len() && instance.preds(order@[q] as int).contains(
                        x,
                    ) implies #[trigger] placed_before(order@, q, x) by {
                    if q == order0.len() {
                        assert(instance.preds(open0[open0.len() - 1] as int).contains(x));
                        assert(placed0.contains(x));
                        let p = choose|p: int| 0 <= p < order0.len() && #[trigger] order0[p] == x;
                        assert(order@[p] == x);
                    } else {
                        assert(placed_before(order0, q, x));
                        let p = choose|p: int| 0 <= p < q && #[trigger] order0[p] == x;
                        assert(order@[p] == x);
                    }
                }
                assert forall|j: int| #[trigger]
                    bitset_ones(seen).contains(j) implies bitset_ones(placed).contains(j) || occurs(
                    open@,
                    j,
                ) by {
                    if !placed0.contains(j) && j != i {
                        assert(occurs(open0, j));
                        let a = choose|a: int| 0 <= a < open0.len() && #[trigger] open0[a] == j;
                        assert(open@[a] == j);
                    }
                }
                assert(order@.len() > 0 ==> forall|a: int, x: int|
                    0 <= a < open@.len() && #[trigger] instance.preds(open@[a] as int).contains(x)
                        ==> bitset_ones(placed).contains(x)) by {
                    assert forall|a: int, x: int|
                        0 <= a < open@.len() && #[trigger] instance.preds(open@[a] as int).contains(
                            x,
                        ) implies bitset_ones(placed).contains(x) by {
                        assert(open@[a] == open0[a]);
                        assert(order0.len() > 0);
                        assert(instance.preds(open0[a] as int).contains(x));
                    }
                }
                assert forall|a: int|
                    0 <= a < open@.len() implies bitset_ones(seen).contains(
                    #[trigger] open@[a] as int,
                ) && !bitset_ones(placed).contains(open@[a] as int) by {
                    assert(open@[a] == open0[a]);
                    assert(open0[a] != open0[open0.len() - 1]);
                }
            }
            let mut j: usize = 0;
            while j < n
                invariant
                    j <= n,
                    i < n,
                    instance.wf(),
                    n == instance.n_jobs,
                    bitset_len(placed) == n,
                    bitset_len(seen) == n,
                    order@.len() > 0,
                    bitset_ones(placed).contains(i as int),
                    forall|a: int| 0 <= a < open@.len() ==> (#[trigger] open@[a]) < n,
                    forall|a: int, b: int|
                        0 <= a < b < open@.len() ==> #[trigger] open@[a] != #[trigger] open@[b],
                    forall|a: int|
                        0 <= a < open@.len() ==> bitset_ones(seen).contains(
                            #[trigger] open@[a] as int,
                        ) && !bitset_ones(placed).contains(open@[a] as int),
                    forall|x: int|
                        bitset_ones(placed).contains(x) ==> #[trigger] bitset_ones(seen).contains(x),
                    forall|x: int| #[trigger]
                        bitset_ones(seen).contains(x) ==> bitset_ones(placed).contains(x) || occurs(
                            open@,
                            x,
                        ),
                    forall|a: int, x: int|
                        0 <= a < open@.len() && #[trigger] instance.preds(open@[a] as int).contains(
                            x,
                        ) ==> bitset_ones(placed).contains(x),
                    forall|x: int|
                        0 <= x < n && instance.preds(x).len() > 0 && instance.preds(x).subset_of(
                            bitset_ones(placed),
                        ) ==> #[trigger] bitset_ones(seen).contains(x) || (j <= x
                            && instance.preds(x).contains(i as int)),
                decreases n - j,
            {
                let ghost open1 = open@;
                if instance.successors[i].contains(j) && !seen.contains(j)
                    && instance.predecessors[j].is_subset(&placed) {
                    open.push(j);
                    seen.insert(j);
                    proof {
                        assert forall|x: int| #[trigger]
                            bitset_ones(seen).contains(x) implies bitset_ones(placed).contains(x)
                            || occurs(open@, x) by {
                            if x == j {
                                assert(open@[open1.len() as int] == j);
                            } else if !bitset_ones(placed).contains(x) {
                                assert(occurs(open1, x));
                                let a = choose|a: int|
                                    0 <= a < open1.len() && #[trigger] open1[a] == x;
                                assert(open@[a] == x);
                            }
                        }
                        assert forall|a: int, b: int| 0 <= a < b < open@.len() implies #[trigger] open@[a]
                            != #[trigger] open@[b] by {
                            if b == open1.len() {
                                assert(open@[a] == open1[a]);
                            } else {
                                assert(open1[a] != open1[b]);
                            }
                        }
                        assert forall|a: int, x: int|
                            0 <= a < open@.len() && #[trigger] instance.preds(
                                open@[a] as int,
                            ).contains(x) implies bitset_ones(placed).contains(x) by {
                            if a < open1.len() {
                                assert(open@[a] == open1[a]);
                                assert(instance.preds(open1[a] as int).contains(x));
                            }
                        }
                        assert forall|a: int|
                            0 <= a < open@.len() implies bitset_ones(seen).contains(
                            #[trigger] open@[a] as int,
                        ) && !bitset_ones(placed).contains(open@[a] as int) by {
                            if a < open1.len() {
                                assert(open@[a] == open1[a]);
                            }
                        }
                    }
                } else {
                    proof {
                        assert(instance.succs(i as int).contains(j as int) == instance.preds(
                            j as int,
                        ).contains(i as int));
                    }
                }
                j += 1;
            }
        }
        proof {
            assert(order@.len() > 0);
            assert forall|j: int|
                0 <= j < instance.n_jobs && instance.preds(j).len() > 0 && (forall|x: int|
                    instance.preds(j).contains(x) ==> occurs(order@, x)) implies #[trigger] occurs(
                order@,
                j,
            ) by {
                assert(instance.preds(j).subset_of(bitset_ones(placed))) by {
                    assert forall|x: int| instance.preds(j).contains(x) implies bitset_ones(
                        placed,
                    ).contains(x) by {
                        assert(occurs(order@, x));
                        let p = choose|p: int| 0 <= p < order@.len() && #[trigger] order@[p] == x;
                        assert(placed_before(order@, order@.len() as int, x));
                    }
                }
                assert(bitset_ones(seen).contains(j));
                if occurs(open@, j) {
                    let a = choose|a: int| 0 <= a < open@.len() && #[trigger] open@[a] == j;
                }
                assert(bitset_ones(placed).contains(j));
                assert(placed_before(order@, order@.len() as int, j));
                let p = choose|p: int| 0 <= p < order@.len() && #[trigger] order@[p] == j;
            }
            if order@.len() == instance.n_jobs && instance.preds(0).len() == 0 {
                lemma_full_order_is_topological(order@, instance);
            }
        }
        order
    }

    /// The resources have their profiles, well-formed, between 0 and the
    /// capacity, and at the capacity in the end.
    pub open spec fn profiles_ok(&self, profiles: Seq<Seq<ConsumptionStep>>) -> bool {
        &&& profiles.len() == self.instance.n_resources
        &&& forall|r: int|
            0 <= r < profiles.len() ==> {
                &&& well_formed(#[trigger] profiles[r])
                &&& within(profiles[r], self.instance.capacity@[r] as int)
                &&& tail_capacity(profiles[r]) == self.instance.capacity@[r]
            }
    }

    /// What holds of every state of this problem, as far as its view goes:
    /// it speaks of this project's jobs and resources, no estimate is
    /// negative, no resource is overdrawn, the estimate of a scheduled job is
    /// 0, and every unscheduled job can start at its estimate.
    pub open spec fn admits(&self, v: StateView) -> bool {
        &&& v.earliest.len() == self.instance.n_jobs
        &&& forall|j: int| 0 <= j < self.instance.n_jobs ==> 0 <= #[trigger] v.earliest[j]
        &&& forall|j: int| v.done.contains(j) ==> 0 <= j < self.instance.n_jobs
        &&& self.profiles_ok(v.profile)
        &&& forall|j: int|
            0 <= j < self.instance.n_jobs && v.done.contains(j) ==> #[trigger] v.earliest[j] == 0
        &&& open_jobs_fit(v, self.instance.duration@, self.instance.consumption@)
    }

    /// What holds of every state of this problem: it is well-formed and the
    /// problem admits its view.
    pub open spec fn inv(&self, s: &State) -> bool {
        &&& s.wf()
        &&& self.admits(s@)
    }

    /// The project is well-formed, the propagation order names jobs only, and
    /// the initial state is a state of this problem.
    pub open spec fn wf(&self) -> bool {
        &&& self.instance.wf()
        &&& forall|p: int|
            0 <= p < self.topo_order@.len() ==> (#[trigger] self.topo_order@[p]) < self.instance.n_jobs
        &&& self.inv(&self.initial)
    }

    /// The propagation order is topological and holds every job.
    pub open spec fn ordered(&self) -> bool {
        is_topological(self.topo_order@, self.instance.successors@)
    }

    /// The state in which nothing is scheduled, before any propagation.
    pub open spec fn blank(&self) -> StateView {
        StateView {
            done: Set::empty(),
            maybe_done: None,
            profile: Seq::new(
                self.instance.n_resources as nat,
                |r: int| untouched(self.instance.capacity@[r]),
            ),
            earliest: Seq::new(self.instance.n_jobs as nat, |j: int| 0isize),
            depth: 0,
        }
    }

    /// The estimates of state `v` after propagation through the whole order.
    pub open spec fn settled(&self, v: StateView) -> Seq<isize> {
        propagated(
            v,
            self.topo_order@,
            self.instance.successors@,
            self.instance.duration@,
            self.instance.consumption@,
            self.topo_order@.len(),
        )
    }

    /// The state in which nothing is scheduled.
    pub open spec fn initial_view(&self) -> StateView {
        StateView { earliest: self.settled(self.blank()), ..self.blank() }
    }

    /// Job `i` may be the next decision in state `v`: it is not scheduled and
    /// its predecessors lie in `allowed(v)`.
    pub open spec fn feasible(&self, v: StateView, i: int) -> bool {
        &&& 0 <= i < self.instance.n_jobs
        &&& !v.done.contains(i)
        &&& allowed(v) is Some
        &&& self.instance.preds(i).subset_of(allowed(v).unwrap())
    }

    /// State `v` with job `d` entered at its estimate: one decision more, the
    /// job scheduled, its consumption taken from the profiles.
    pub open spec fn scheduled(&self, v: StateView, d: int) -> StateView {
        StateView {
            done: v.done.insert(d),
            maybe_done: match v.maybe_done {
                Some(m) => Some(m.insert(d)),
                None => None,
            },
            profile: lowered_profiles(
                v.profile,
                v.earliest[d] as int,
                self.instance.duration@[d] as int,
                self.instance.consumption@[d]@,
            ),
            earliest: v.earliest,
            depth: v.depth + 1,
        }
    }

    /// The cost of scheduling job `d` in state `v`: by how much the sink's
    /// estimate rises, negated.
    pub open spec fn edge_cost(&self, v: StateView, d: int) -> int {
        let sink = self.instance.n_jobs - 1;
        -(self.settled(self.scheduled(v, d))[sink] - v.earliest[sink])
    }

    /// State `v` after job `d` is entered, the estimates are propagated and
    /// the job's own estimate is cleared.
    pub open spec fn cleared(&self, v: StateView, d: int) -> StateView {
        let entered = self.scheduled(v, d);
        StateView { earliest: self.settled(entered).update(d, 0), ..entered }
    }

    /// The state that scheduling job `d` in state `v` leads to: the job is
    /// entered, the estimates are propagated, the job's own estimate is
    /// cleared, and the origin is moved to the smallest remaining estimate.
    pub open spec fn successor(&self, v: StateView, d: int) -> StateView {
        shifted(self.cleared(v, d))
    }

    /// By how much the origin moves when job `d` is scheduled in state `v`.
    pub open spec fn origin_shift(&self, v: StateView, d: int) -> int {
        shift_of(self.cleared(v, d))
    }

    /// Entering a job at a time at which it fits overdraws no resource.
    pub proof fn lemma_scheduled_profiles(&self, profiles: Seq<Seq<ConsumptionStep>>, a: int, i: int)
        requires
            self.instance.wf(),
            self.profiles_ok(profiles),
            0 <= i < self.instance.n_jobs,
            0 <= a,
            a + self.instance.duration@[i] < isize::MAX,
            fits_all(
                profiles,
                a,
                self.instance.duration@[i] as int,
                self.instance.consumption@[i]@,
            ),
        ensures
            can_lower_all(
                profiles,
                a,
                self.instance.duration@[i] as int,
                self.instance.consumption@[i]@,
            ),
            self.profiles_ok(
                lowered_profiles(
                    profiles,
                    a,
                    self.instance.duration@[i] as int,
                    self.instance.consumption@[i]@,
                ),
            ),
    {
        let d = self.instance.duration@[i] as int;
        let w = self.instance.consumption@[i]@;
        let after = lowered_profiles(profiles, a, d, w);
        assert forall|r: int| 0 <= r < profiles.len() implies {
            &&& w[r] > 0 ==> crate::profile::can_lower(#[trigger] profiles[r], a, a + d, w[r] as int)
            &&& well_formed(after[r])
            &&& within(after[r], self.instance.capacity@[r] as int)
            &&& tail_capacity(after[r]) == self.instance.capacity@[r]
        } by {
            let cap = self.instance.capacity@[r] as int;
            assert(0 <= self.instance.consumption@[i]@[r] <= cap);
            assert(well_formed(profiles[r]));
            if w[r] > 0 {
                assert(fits(profiles[r], a, d, w[r] as int));
                assert forall|t: int| 0 <= t && a <= t < a + d implies #[trigger] crate::profile::rem_at(
                    profiles[r],
                    t,
                ) >= w[r] by {}
                lemma_lowered_within(profiles[r], a, a + d, w[r] as int, cap);
            }
        }
        assert forall|r: int| 0 <= r < after.len() implies {
            &&& well_formed(#[trigger] after[r])
            &&& within(after[r], self.instance.capacity@[r] as int)
            &&& tail_capacity(after[r]) == self.instance.capacity@[r]
        } by {
            assert(well_formed(profiles[r]));
        }
    }

    /// Moving the origin to the smallest estimate keeps what holds of every
    /// state.
    pub proof fn lemma_shift_keeps(&self, v: StateView)
        requires
            self.instance.wf(),
            self.profiles_ok(v.profile),
            v.earliest.len() == self.instance.n_jobs,
            open_jobs_fit(v, self.instance.duration@, self.instance.consumption@),
        ensures
            self.profiles_ok(shifted(v).profile),
            open_jobs_fit(shifted(v), self.instance.duration@, self.instance.consumption@),
            shifted(v).done == v.done,
            shifted(v).earliest.len() == v.earliest.len(),
            forall|j: int|
                0 <= j < v.earliest.len() && v.done.contains(j) ==> shifted(v).earliest[j]
                    == v.earliest[j],
    {
        let m = shift_of(v);
        let after = shifted(v);
        lemma_shift_of(v);
        if m > 0 {
            assert forall|r: int| 0 <= r < after.profile.len() implies {
                &&& well_formed(#[trigger] after.profile[r])
                &&& within(after.profile[r], self.instance.capacity@[r] as int)
                &&& tail_capacity(after.profile[r]) == self.instance.capacity@[r]
            } by {
                assert(well_formed(v.profile[r]));
                lemma_forwarded_within(v.profile[r], m, self.instance.capacity@[r] as int);
            }
            assert forall|j: int|
                0 <= j < after.earliest.len() && !after.done.contains(j) implies #[trigger] fits_all(
                after.profile,
                after.earliest[j] as int,
                self.instance.duration@[j] as int,
                self.instance.consumption@[j]@,
            ) by {
                let d = self.instance.duration@[j] as int;
                let w = self.instance.consumption@[j]@;
                assert(fits_all(v.profile, v.earliest[j] as int, d, w));
                assert(m <= v.earliest[j]);
                assert(after.earliest[j] == v.earliest[j] - m);
                assert forall|r: int| 0 <= r < after.profile.len() && w[r] > 0 implies fits(
                    #[trigger] after.profile[r],
                    after.earliest[j] as int,
                    d,
                    w[r] as int,
                ) by {
                    assert(well_formed(v.profile[r]));
                    assert(fits(v.profile[r], v.earliest[j] as int, d, w[r] as int));
                    lemma_forwarded_fits(v.profile[r], m, v.earliest[j] as int, d, w[r] as int);
                }
            }
        }
    }

    /// Job `d` can be scheduled in state `v`: it is a job, it is not
    /// scheduled, and it ends before the end of time.
    pub open spec fn can_take(&self, v: StateView, d: int) -> bool {
        &&& 0 <= d < self.instance.n_jobs
        &&& !v.done.contains(d)
        &&& v.earliest[d] + self.instance.duration@[d] < isize::MAX
    }

    /// What scheduling a job does to a state that the problem admits: the
    /// successor is admitted too, one job more is scheduled in it, the step
    /// costs nothing or less, nothing where the sink is scheduled, and else
    /// what the sink's estimate loses, less the move of the origin.
    pub proof fn lemma_successor(&self, v: StateView, d: int)
        requires
            self.instance.wf(),
            self.ordered(),
            forall|p: int|
                0 <= p < self.topo_order@.len() ==> (#[trigger] self.topo_order@[p])
                    < self.instance.n_jobs,
            self.admits(v),
            self.can_take(v, d),
        ensures
            self.admits(self.successor(v, d)),
            self.successor(v, d).done == v.done.insert(d),
            self.successor(v, d).depth == v.depth + 1,
            is_exact(v) ==> is_exact(self.successor(v, d)),
            self.edge_cost(v, d) <= 0,
            0 <= self.origin_shift(v, d),
            self.successor(v, d).done.contains(self.instance.n_jobs - 1) ==> self.edge_cost(v, d)
                == 0,
            !self.successor(v, d).done.contains(self.instance.n_jobs - 1) ==> self.edge_cost(v, d)
                == v.earliest[self.instance.n_jobs - 1] - self.successor(
                v,
                d,
            ).earliest[self.instance.n_jobs - 1] - self.origin_shift(v, d),
    {
        let n = self.instance.n_jobs as int;
        let dur = self.instance.duration@;
        let cons = self.instance.consumption@;
        let entered = self.scheduled(v, d);
        let settled = self.settled(entered);
        let cleared = self.cleared(v, d);
        let next = self.successor(v, d);
        assert(fits_all(v.profile, v.earliest[d] as int, dur[d] as int, cons[d]@));
        self.lemma_scheduled_profiles(v.profile, v.earliest[d] as int, d);
        assert(all_well_formed(entered.profile)) by {
            assert forall|r: int| 0 <= r < entered.profile.len() implies well_formed(
                #[trigger] entered.profile[r],
            ) by {}
        }
        assert forall|i: int| 0 <= i < entered.earliest.len() implies tail_suffices(
            entered.profile,
            (#[trigger] cons[i])@,
        ) by {
            assert forall|r: int| 0 <= r < entered.profile.len() && cons[i]@[r] > 0 implies (
            #[trigger] entered.profile[r])[entered.profile[r].len() - 1].rem_capacity
                >= cons[i]@[r] by {
                assert(tail_capacity(entered.profile[r]) == self.instance.capacity@[r]);
                assert(0 <= self.instance.consumption@[i]@[r] <= self.instance.capacity@[r]);
            }
        }
        lemma_propagated(
            entered,
            self.topo_order@,
            self.instance.successors@,
            dur,
            cons,
            self.topo_order@.len(),
        );
        assert forall|j: int|
            0 <= j < cleared.earliest.len() && !cleared.done.contains(j) implies #[trigger] fits_all(
            cleared.profile,
            cleared.earliest[j] as int,
            dur[j] as int,
            cons[j]@,
        ) by {
            assert(occurs(self.topo_order@, j));
            let p = choose|p: int| 0 <= p < self.topo_order@.len() && #[trigger] self.topo_order@[p] == j;
            assert(!entered.done.contains(self.topo_order@[p] as int));
            assert(fits_all(
                entered.profile,
                settled[self.topo_order@[p] as int] as int,
                dur[self.topo_order@[p] as int] as int,
                cons[self.topo_order@[p] as int]@,
            ));
            assert(cleared.earliest[j] == settled[j]);
        }
        assert forall|j: int| 0 <= j < n implies 0 <= #[trigger] cleared.earliest[j] by {
            assert(settled[j] >= entered.earliest[j]);
        }
        assert forall|j: int| 0 <= j < n && cleared.done.contains(j) implies #[trigger] cleared.earliest[j]
            == 0 by {
            if j != d {
                assert(settled[j] == entered.earliest[j]);
            }
        }
        lemma_shift_of(cleared);
        self.lemma_shift_keeps(cleared);
        let m = shift_of(cleared);
        assert forall|j: int| 0 <= j < n implies 0 <= #[trigger] next.earliest[j] by {
            assert(0 <= cleared.earliest[j]);
        }
        assert forall|j: int| 0 <= j < n && next.done.contains(j) implies #[trigger] next.earliest[j]
            == 0 by {
            assert(cleared.earliest[j] == 0);
        }
        assert(settled[n - 1] >= entered.earliest[n - 1]);
        if entered.done.contains(n - 1) {
            assert(settled[n - 1] == entered.earliest[n - 1]);
        } else {
            assert(cleared.earliest[n - 1] == settled[n - 1]);
            if m > 0 {
                assert(m <= cleared.earliest[n - 1]);
            }
        }
    }

    /// The state after the decisions `ds` are taken from state `v` on.
    pub open spec fn run(&self, v: StateView, ds: Seq<int>) -> StateView
        decreases ds.len(),
    {
        if ds.len() == 0 {
            v
        } else {
            self.successor(self.run(v, ds.drop_last()), ds.last())
        }
    }

    /// Each of the decisions `ds` can be taken in its turn from state `v`
    /// on.
    pub open spec fn can_run(&self, v: StateView, ds: Seq<int>) -> bool
        decreases ds.len(),
    {
        ds.len() == 0 || (self.can_run(v, ds.drop_last()) && self.can_take(
            self.run(v, ds.drop_last()),
            ds.last(),
        ))
    }

    /// The sum of the costs of the decisions `ds` taken from state `v` on.
    pub open spec fn run_cost(&self, v: StateView, ds: Seq<int>) -> int
        decreases ds.len(),
    {
        if ds.len() == 0 {
            0
        } else {
            self.run_cost(v, ds.drop_last()) + self.edge_cost(
                self.run(v, ds.drop_last()),
                ds.last(),
            )
        }
    }

    /// By how much the origin moves in all while the decisions `ds` are taken
    /// from state `v` on.
    pub open spec fn run_shift(&self, v: StateView, ds: Seq<int>) -> int
        decreases ds.len(),
    {
        if ds.len() == 0 {
            0
        } else {
            self.run_shift(v, ds.drop_last()) + self.origin_shift(
                self.run(v, ds.drop_last()),
                ds.last(),
            )
        }
    }

    /// Along any decisions taken from a state that the problem admits: every
    /// state is admitted; a state reached by decisions alone leads to such
    /// states only; the costs never add up to more than nothing; and while
    /// the sink is not scheduled, they add up to what its estimate has lost,
    /// less the moves of the origin. So the sink's estimate, taken from the
    /// first state's origin, never falls: whatever is decided from a state
    /// on, the sink does not start before the state's estimate.
    pub proof fn lemma_run(&self, v: StateView, ds: Seq<int>)
        requires
            self.instance.wf(),
            self.ordered(),
            forall|p: int|
                0 <= p < self.topo_order@.len() ==> (#[trigger] self.topo_order@[p])
                    < self.instance.n_jobs,
            self.admits(v),
            self.can_run(v, ds),
        ensures
            self.admits(self.run(v, ds)),
            v.done.subset_of(self.run(v, ds).done),
            self.run(v, ds).depth == v.depth + ds.len(),
            is_exact(v) ==> is_exact(self.run(v, ds)),
            self.run_cost(v, ds) <= 0,
            0 <= self.run_shift(v, ds),
            !self.run(v, ds).done.contains(self.instance.n_jobs - 1) ==> self.run_cost(v, ds)
                == v.earliest[self.instance.n_jobs - 1] - self.run(
                v,
                ds,
            ).earliest[self.instance.n_jobs - 1] - self.run_shift(v, ds),
            !self.run(v, ds).done.contains(self.instance.n_jobs - 1) ==> v.earliest[self.instance.n_jobs
                - 1] <= self.run(v, ds).earliest[self.instance.n_jobs - 1] + self.run_shift(v, ds),
        decreases ds.len(),
    {
        if ds.len() > 0 {
            self.lemma_run(v, ds.drop_last());
            self.lemma_successor(self.run(v, ds.drop_last()), ds.last());
        }
    }

    /// After as many decisions as there are jobs, taken from a state in which
    /// nothing is scheduled, every job is scheduled.
    pub proof fn lemma_full_run(&self, v: StateView, ds: Seq<int>)
        requires
            self.instance.wf(),
            self.ordered(),
            forall|p: int|
                0 <= p < self.topo_order@.len() ==> (#[trigger] self.topo_order@[p])
                    < self.instance.n_jobs,
            self.admits(v),
            is_exact(v),
            v.depth == 0,
            self.can_run(v, ds),
            ds.len() == self.instance.n_jobs,
        ensures
            forall|j: int| 0 <= j < self.instance.n_jobs ==> self.run(v, ds).done.contains(j),
    {
        self.lemma_run(v, ds);
        lemma_exact_terminal_full(self.run(v, ds), self.instance.n_jobs as int);
    }

    /// Sets the problem up: one untouched profile per resource, no job
    /// scheduled, every estimate at 0 and then propagated in the order that
    /// `toposort` gives.
    pub fn new(inst: RcpspInstance) -> (pb: Self)
        requires
            inst.wf(),
        ensures
            pb.instance == inst,
            pb.wf(),
            pb.initial@ == pb.initial_view(),
            is_exact(pb.initial@),
            follows_precedence(pb.topo_order@, &pb.instance),
            closed_under_release(pb.topo_order@, &pb.instance),
            pb.topo_order@.len() == inst.n_jobs && inst.preds(0).len() == 0 ==> pb.ordered(),
    {
        let mut profile: Vec<ConsumptionProfile> = Vec::new();
        let mut i: usize = 0;
        while i < inst.n_resources
            invariant
                inst.wf(),
                i <= inst.n_resources,
                profile@.len() == i,
                forall|r: int| 0 <= r < i ==> (#[trigger] profile@[r])@ == untouched(inst.capacity@[r]),
            decreases inst.n_resources - i,
        {
            let mut steps: VecDeque<ConsumptionStep> = VecDeque::new();
            steps.push_back(
                ConsumptionStep { start: 0, end: isize::MAX, rem_capacity: inst.capacity[i] },
            );
            assert(steps@ =~= untouched(inst.capacity@[i as int]));
            profile.push(ConsumptionProfile { steps });
            i += 1;
        }
        let mut earliest: Vec<isize> = Vec::new();
        while earliest.len() < inst.n_jobs
            invariant
                earliest@.len() <= inst.n_jobs,
                forall|j: int| 0 <= j < earliest@.len() ==> earliest@[j] == 0,
            decreases inst.n_jobs - earliest@.len(),
        {
            earliest.push(0);
        }
        let mut state = State {
            done: FixedBitSet::with_capacity(inst.n_jobs),
            maybe_done: None,
            profile,
            earliest,
            depth: 0,
        };
        let order = Self::toposort(&inst);
        let ghost blank = state@;
        proof {
            assert forall|r: int| 0 <= r < inst.n_resources implies {
                &&& well_formed(#[trigger] blank.profile[r])
                &&& within(blank.profile[r], inst.capacity@[r] as int)
                &&& tail_capacity(blank.profile[r]) == inst.capacity@[r]
            } by {
                lemma_untouched(inst.capacity@[r]);
            }
            assert forall|j: int| 0 <= j < inst.n_jobs implies tail_suffices(
                blank.profile,
                (#[trigger] inst.consumption@[j])@,
            ) by {
                assert forall|r: int|
                    0 <= r < blank.profile.len() && inst.consumption@[j]@[r] > 0 implies (
                #[trigger] blank.profile[r])[blank.profile[r].len() - 1].rem_capacity
                    >= inst.consumption@[j]@[r] by {
                    assert(tail_capacity(blank.profile[r]) == inst.capacity@[r]);
                    assert(0 <= inst.consumption@[j]@[r] <= inst.capacity@[r]);
                }
            }
        }
        state.propagate(&order, &inst.successors, &inst.duration, &inst.consumption);
        let pb = Rcpsp { instance: inst, initial: state, topo_order: order };
        proof {
            assert(blank.profile =~= pb.blank().profile);
            assert(blank.earliest =~= pb.blank().earliest);
            assert(blank == pb.blank());
            assert(pb.initial@.profile =~= blank.profile);
            assert(pb.initial@ == pb.initial_view());
            assert forall|j: int|
                0 <= j < pb.initial@.earliest.len() && !pb.initial@.done.contains(
                    j,
                ) implies #[trigger] fits_all(
                pb.initial@.profile,
                pb.initial@.earliest[j] as int,
                inst.duration@[j] as int,
                inst.consumption@[j]@,
            ) by {
                assert forall|r: int|
                    0 <= r < pb.initial@.profile.len() && inst.consumption@[j]@[r] > 0 implies fits(
                    #[trigger] pb.initial@.profile[r],
                    pb.initial@.earliest[j] as int,
                    inst.duration@[j] as int,
                    inst.consumption@[j]@[r] as int,
                ) by {
                    lemma_untouched(inst.capacity@[r]);
                    assert(0 <= inst.consumption@[j]@[r] <= inst.capacity@[r]);
                    assert(0 <= pb.initial.earliest@[j]);
                }
            }
        }
        pb
    }

    /// Whether the propagation order holds as many entries as there are jobs
    /// and job 0 has no predecessor. An order that `toposort` gave is then
    /// topological.
    pub fn is_ordered(&self) -> (b: bool)
        requires
            self.instance.wf(),
        ensures
            b == (self.topo_order@.len() == self.instance.n_jobs && self.instance.preds(0).len()
                == 0),
            b && follows_precedence(self.topo_order@, &self.instance) ==> self.ordered(),
    {
        proof {
            lemma_bounded_finite(self.instance.predecessors@[0]);
        }
        let b = self.topo_order.len() == self.instance.n_jobs && count_ones_all(
            &self.instance.predecessors[0],
        ) == 0;
        proof {
            if b && follows_precedence(self.topo_order@, &self.instance) {
                lemma_full_order_is_topological(self.topo_order@, &self.instance);
            }
        }
        b
    }

    /// The number of decisions to take: one per job.
    pub fn nb_variables(&self) -> (n: usize)
        ensures
            n == self.instance.n_jobs,
    {
        self.instance.n_jobs
    }

    /// The state in which nothing is scheduled.
    pub fn initial_state(&self) -> (s: State)
        ensures
            s@ == self.initial@,
            self.inv(&self.initial) ==> self.inv(&s),
    {
        let s = self.initial.clone();
        proof {
            assert(bitset_bounded(self.initial.done) ==> bitset_bounded(s.done));
        }
        s
    }

    /// The value to start from: the sink's estimate in the initial state,
    /// negated.
    pub fn initial_value(&self) -> (value: isize)
        requires
            self.wf(),
        ensures
            value == -self.initial@.earliest[self.instance.n_jobs - 1],
    {
        -self.initial.earliest[self.instance.n_jobs - 1]
    }

    /// The decision to take at the given depth: the depth itself, as long as
    /// jobs are left.
    pub fn next_variable(&self, depth: usize) -> (variable: Option<usize>)
        ensures
            variable == if depth < self.instance.n_jobs {
                Some(depth)
            } else {
                None::<usize>
            },
    {
        if depth < self.nb_variables() {
            Some(depth)
        } else {
            None
        }
    }

    /// The unscheduled jobs whose predecessors all lie in `within_set`, in
    /// rising order.
    fn released_by(&self, state: &State, within_set: &FixedBitSet) -> (out: Vec<usize>)
        requires
            self.instance.wf(),
        ensures
            ascending(out@),
            forall|a: int|
                0 <= a < out@.len() ==> (#[trigger] out@[a]) < self.instance.n_jobs
                    && !state@.done.contains(out@[a] as int) && self.instance.preds(
                    out@[a] as int,
                ).subset_of(bitset_ones(*within_set)),
            forall|i: int|
                0 <= i < self.instance.n_jobs && !state@.done.contains(i) && self.instance.preds(
                    i,
                ).subset_of(bitset_ones(*within_set)) ==> #[trigger] occurs(out@, i),
    {
        let mut out: Vec<usize> = Vec::new();
        let n = self.instance.n_jobs;
        let mut i: usize = 0;
        while i < n
            invariant
                self.instance.wf(),
                n == self.instance.n_jobs,
                i <= n,
                ascending(out@),
                forall|a: int|
                    0 <= a < out@.len() ==> (#[trigger] out@[a]) < i && !state@.done.contains(
                        out@[a] as int,
                    ) && self.instance.preds(out@[a] as int).subset_of(bitset_ones(*within_set)),
                forall|x: int|
                    0 <= x < i && !state@.done.contains(x) && self.instance.preds(x).subset_of(
                        bitset_ones(*within_set),
                    ) ==> #[trigger] occurs(out@, x),
            decreases n - i,
        {
            let ghost before = out@;
            if !state.done.contains(i) && self.instance.predecessors[i].is_subset(within_set) {
                out.push(i);
                proof {
                    assert(out@[before.len() as int] == i);
                    assert(occurs(out@, i as int));
                }
            }
            proof {
                assert forall|x: int|
                    0 <= x < i && !state@.done.contains(x) && self.instance.preds(x).subset_of(
                        bitset_ones(*within_set),
                    ) implies #[trigger] occurs(out@, x) by {
                    assert(occurs(before, x));
                    let a = choose|a: int| 0 <= a < before.len() && #[trigger] before[a] == x;
                    assert(out@[a] == x);
                }
            }
            i += 1;
        }
        out
    }

    /// The jobs that may be scheduled next in `state`, in rising order: the
    /// unscheduled jobs whose predecessors are all scheduled or, in a merged
    /// state, all scheduled or possibly scheduled.
    pub fn for_each_in_domain(&self, state: &State) -> (out: Vec<usize>)
        requires
            self.instance.wf(),
            bitset_bounded(state.done),
        ensures
            ascending(out@),
            forall|a: int| 0 <= a < out@.len() ==> self.feasible(state@, #[trigger] out@[a] as int),
            forall|i: int| self.feasible(state@, i) ==> #[trigger] occurs(out@, i),
    {
        proof {
            lemma_bounded_finite(state.done);
        }
        if count_ones_all(&state.done) == state.depth {
            self.released_by(state, &state.done)
        } else {
            match &state.maybe_done {
                Some(maybe) => {
                    let mut both = state.done.clone();
                    both.union_with(maybe);
                    self.released_by(state, &both)
                },
                None => Vec::new(),
            }
        }
    }

    /// Schedules job `d` at its estimate and returns the state that this
    /// leads to, with the cost of the step.
    pub fn combined_transition(&self, state: &State, d: usize) -> (next: (State, isize))
        requires
            self.wf(),
            self.ordered(),
            self.inv(state),
            self.can_take(state@, d as int),
            state.depth < usize::MAX,
        ensures
            next.0@ == self.successor(state@, d as int),
            next.1 == self.edge_cost(state@, d as int),
            self.inv(&next.0),
    {
        let n = self.instance.n_jobs;
        let ghost v = state@;
        let ghost dur = self.instance.duration@;
        let ghost cons = self.instance.consumption@;
        let mut successor = state.clone();
        successor.depth = state.depth + 1;
        successor.done.insert(d);
        match &mut successor.maybe_done {
            Some(maybe) => {
                maybe.insert(d);
            },
            None => {},
        }
        proof {
            assert(successor@.profile =~= v.profile);
            assert(fits_all(v.profile, v.earliest[d as int] as int, dur[d as int] as int, cons[d as int]@));
            self.lemma_scheduled_profiles(v.profile, v.earliest[d as int] as int, d as int);
        }
        successor.add_consumption(
            state.earliest[d],
            self.instance.duration[d],
            &self.instance.consumption[d],
        );
        let ghost entered = successor@;
        proof {
            assert(entered.done =~= v.done.insert(d as int));
            assert(entered == self.scheduled(v, d as int));
            assert forall|i: int| 0 <= i < n implies (#[trigger] cons[i])@.len()
                == successor.profile@.len() && tail_suffices(entered.profile, cons[i]@) by {
                assert forall|r: int|
                    0 <= r < entered.profile.len() && cons[i]@[r] > 0 implies (
                #[trigger] entered.profile[r])[entered.profile[r].len() - 1].rem_capacity
                    >= cons[i]@[r] by {
                    assert(tail_capacity(entered.profile[r]) == self.instance.capacity@[r]);
                    assert(0 <= self.instance.consumption@[i]@[r] <= self.instance.capacity@[r]);
                }
            }
        }
        successor.propagate(
            &self.topo_order,
            &self.instance.successors,
            &self.instance.duration,
            &self.instance.consumption,
        );
        proof {
            assert(successor.earliest@ == self.settled(entered));
        }
        let delta = successor.earliest[n - 1] - state.earliest[n - 1];
        successor.earliest.set(d, 0);
        proof {
            assert(successor@.profile =~= entered.profile);
            assert(successor@ == self.cleared(v, d as int));
        }
        successor.forward_to_earliest();
        proof {
            self.lemma_successor(v, d as int);
        }
        (successor, -delta)
    }

    /// The state that scheduling job `d` in `state` leads to.
    pub fn transition(&self, state: &State, d: usize) -> (next: State)
        requires
            self.wf(),
            self.ordered(),
            self.inv(state),
            self.can_take(state@, d as int),
            state.depth < usize::MAX,
        ensures
            next@ == self.successor(state@, d as int),
            self.inv(&next),
    {
        self.combined_transition(state, d).0
    }

    /// The cost of scheduling job `d` in `state`.
    pub fn transition_cost(&self, state: &State, d: usize) -> (cost: isize)
        requires
            self.wf(),
            self.ordered(),
            self.inv(state),
            self.can_take(state@, d as int),
            state.depth < usize::MAX,
        ensures
            cost == self.edge_cost(state@, d as int),
    {
        self.combined_transition(state, d).1
    }
}

} // verus!
