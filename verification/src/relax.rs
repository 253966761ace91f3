//! The merge of several states into one that bounds each of them.

use crate::bitset::{bitset_bounded, bitset_len, bitset_ones, toggle_all};
use crate::model::Rcpsp;
use crate::profile::{
    canonical, fits, lemma_canonical_unique, lemma_readings_from_within,
    lemma_tail_reading, lemma_untouched, lemma_within_from_readings, rem_at, tail_capacity,
    untouched, well_formed, within, ConsumptionProfile, ConsumptionStep,
};
use crate::state::{fits_all, State, StateView};
use fixedbitset::FixedBitSet;
use std::collections::VecDeque;
use vstd::prelude::*;

verus! {

/// The relaxation of a problem.
#[derive(Clone, Copy)]
pub struct RcpspRelax<'a> {
    pub pb: &'a Rcpsp,
}

/// What the states hold, one view per state.
pub open spec fn views_of(states: Seq<&State>) -> Seq<StateView> {
    Seq::new(states.len(), |k: int| states[k]@)
}

/// The profiles that the states have for resource `r`.
pub open spec fn column(views: Seq<StateView>, r: int) -> Seq<Seq<ConsumptionStep>> {
    Seq::new(views.len(), |k: int| views[k].profile[r])
}

/// The largest capacity that any of the profiles reads at time `t`, and 0 at
/// least.
pub open spec fn peak(inputs: Seq<Seq<ConsumptionStep>>, t: int) -> int
    decreases inputs.len(),
{
    if inputs.len() == 0 {
        0
    } else {
        let rest = peak(inputs.drop_last(), t);
        let x = rem_at(inputs.last(), t);
        if rest >= x {
            rest
        } else {
            x
        }
    }
}

/// The smallest estimate that job `j` has in a state in which it is not
/// scheduled; `isize::MAX` where there is no such state.
pub open spec fn least_open(views: Seq<StateView>, j: int) -> int
    decreases views.len(),
{
    if views.len() == 0 {
        isize::MAX as int
    } else {
        let rest = least_open(views.drop_last(), j);
        let v = views.last();
        if !v.done.contains(j) && v.earliest[j] < rest {
            v.earliest[j] as int
        } else {
            rest
        }
    }
}

/// The largest depth among the states.
pub open spec fn deepest(views: Seq<StateView>) -> nat
    decreases views.len(),
{
    if views.len() == 0 {
        0
    } else {
        let rest = deepest(views.drop_last());
        if views.last().depth > rest {
            views.last().depth
        } else {
            rest
        }
    }
}

/// Job `j` is scheduled in every state.
pub open spec fn done_in_all(views: Seq<StateView>, j: int) -> bool {
    forall|k: int| 0 <= k < views.len() ==> (#[trigger] views[k]).done.contains(j)
}

/// Job `j` is scheduled, or may be, in state `v`.
pub open spec fn touched(v: StateView, j: int) -> bool {
    v.done.contains(j) || (v.maybe_done is Some && v.maybe_done.unwrap().contains(j))
}

/// Job `j` is scheduled, or may be, in some state.
pub open spec fn touched_in_some(views: Seq<StateView>, j: int) -> bool {
    exists|k: int| 0 <= k < views.len() && touched(#[trigger] views[k], j)
}

/// `r` is the merge of the states `views` over `n` jobs and `n_res`
/// resources: scheduled is what is scheduled in all, possibly scheduled what
/// is scheduled or possibly so in some but not scheduled in all; each profile
/// reads the largest of the states' readings and has no equal neighbours;
/// each job not scheduled in all has the smallest estimate of the states in
/// which it is not scheduled, the others 0; the depth is the largest.
pub open spec fn is_relaxation(views: Seq<StateView>, n: nat, n_res: nat, r: StateView) -> bool {
    &&& r.done == Set::new(|j: int| 0 <= j < n && done_in_all(views, j))
    &&& r.maybe_done == Some(
        Set::new(|j: int| touched_in_some(views, j) && !(0 <= j < n && done_in_all(views, j))),
    )
    &&& r.profile.len() == n_res
    &&& forall|res: int|
        0 <= res < n_res ==> well_formed(#[trigger] r.profile[res]) && canonical(r.profile[res])
    &&& forall|res: int, t: int|
        0 <= res < n_res && 0 <= t ==> #[trigger] rem_at(r.profile[res], t) == peak(
            column(views, res),
            t,
        )
    &&& r.earliest.len() == n
    &&& forall|j: int|
        0 <= j < n ==> #[trigger] r.earliest[j] == if done_in_all(views, j) {
            0
        } else {
            least_open(views, j)
        }
    &&& r.depth == deepest(views)
}

/// The peak is at least what each profile reads.
pub proof fn lemma_peak_dominates(inputs: Seq<Seq<ConsumptionStep>>, k: int, t: int)
    requires
        0 <= k < inputs.len(),
    ensures
        peak(inputs, t) >= rem_at(inputs[k], t),
        peak(inputs, t) >= 0,
    decreases inputs.len(),
{
    if k < inputs.len() - 1 {
        lemma_peak_dominates(inputs.drop_last(), k, t);
    } else if inputs.len() > 1 {
        lemma_peak_dominates(inputs.drop_last(), 0, t);
    }
}

/// A job that is not scheduled in every state has its least estimate from a
/// state in which it is not scheduled, and no such state has a smaller one.
pub proof fn lemma_least_open(views: Seq<StateView>, j: int) -> (k: int)
    requires
        !done_in_all(views, j),
    ensures
        0 <= k < views.len(),
        !views[k].done.contains(j),
        least_open(views, j) == views[k].earliest[j],
        forall|i: int|
            0 <= i < views.len() && !(#[trigger] views[i]).done.contains(j) ==> least_open(views, j)
                <= views[i].earliest[j],
    decreases views.len(),
{
    let front = views.drop_last();
    let v = views.last();
    assert(views.len() > 0);
    assert forall|i: int| 0 <= i < front.len() implies (#[trigger] front[i]) == views[i] by {}
    if done_in_all(front, j) {
        lemma_least_open_none(front, j);
        assert(!v.done.contains(j)) by {
            if v.done.contains(j) {
                assert forall|i: int| 0 <= i < views.len() implies (#[trigger] views[i]).done.contains(
                    j,
                ) by {
                    if i < front.len() {
                        assert(front[i].done.contains(j));
                    }
                }
            }
        }
        assert forall|i: int|
            0 <= i < views.len() && !(#[trigger] views[i]).done.contains(j) implies least_open(
            views,
            j,
        ) <= views[i].earliest[j] by {
            if i < front.len() {
                assert(front[i].done.contains(j));
            }
        }
        views.len() - 1
    } else {
        let k = lemma_least_open(front, j);
        assert forall|i: int|
            0 <= i < views.len() && !(#[trigger] views[i]).done.contains(j) implies least_open(
            views,
            j,
        ) <= views[i].earliest[j] by {
            if i < front.len() {
                assert(!front[i].done.contains(j));
            }
        }
        if !v.done.contains(j) && v.earliest[j] < least_open(front, j) {
            views.len() - 1
        } else {
            assert(views[k] == front[k]);
            k
        }
    }
}

proof fn lemma_least_open_none(views: Seq<StateView>, j: int)
    requires
        done_in_all(views, j),
    ensures
        least_open(views, j) == isize::MAX,
    decreases views.len(),
{
    if views.len() > 0 {
        let front = views.drop_last();
        assert forall|i: int| 0 <= i < front.len() implies (#[trigger] front[i]).done.contains(j) by {
            assert(front[i] == views[i]);
        }
        assert(views.last() == views[views.len() - 1]);
        lemma_least_open_none(front, j);
    }
}

/// The deepest depth is that of one of the states and no state is deeper.
pub proof fn lemma_deepest(views: Seq<StateView>, k: int)
    requires
        0 <= k < views.len(),
    ensures
        deepest(views) >= views[k].depth,
    decreases views.len(),
{
    if k < views.len() - 1 {
        lemma_deepest(views.drop_last(), k);
    }
}

/// The merge bounds each of the merged states: what is scheduled in it is
/// scheduled in the state; what is scheduled in the state, or may be, is
/// scheduled or may be in the merge; it is no less deep; each of its profiles
/// reads no less at any time; and no job that is not scheduled in the state
/// has a later estimate in the merge.
pub proof fn lemma_relaxation_bounds(
    views: Seq<StateView>,
    n: nat,
    n_res: nat,
    r: StateView,
    k: int,
)
    requires
        is_relaxation(views, n, n_res, r),
        0 <= k < views.len(),
        forall|j: int| touched(views[k], j) ==> 0 <= j < n,
    ensures
        r.done.subset_of(views[k].done),
        forall|j: int| touched(views[k], j) ==> touched(r, j),
        r.depth >= views[k].depth,
        forall|res: int, t: int|
            0 <= res < n_res && 0 <= t ==> #[trigger] rem_at(r.profile[res], t) >= rem_at(
                views[k].profile[res],
                t,
            ),
        forall|j: int|
            0 <= j < n && !views[k].done.contains(j) ==> #[trigger] r.earliest[j]
                <= views[k].earliest[j],
{
    lemma_deepest(views, k);
    assert forall|j: int| touched(views[k], j) implies touched(r, j) by {
        assert(touched_in_some(views, j));
    }
    assert forall|res: int, t: int| 0 <= res < n_res && 0 <= t implies #[trigger] rem_at(
        r.profile[res],
        t,
    ) >= rem_at(views[k].profile[res], t) by {
        lemma_peak_dominates(column(views, res), k, t);
        assert(column(views, res)[k] == views[k].profile[res]);
    }
    assert forall|j: int| 0 <= j < n && !views[k].done.contains(j) implies #[trigger] r.earliest[j]
        <= views[k].earliest[j] by {
        assert(!done_in_all(views, j));
        let i = lemma_least_open(views, j);
    }
}

/// Where no profile reads more than `c` at time `t`, neither does the peak.
pub proof fn lemma_peak_below(inputs: Seq<Seq<ConsumptionStep>>, c: int, t: int)
    requires
        0 <= c,
        forall|k: int| 0 <= k < inputs.len() ==> rem_at(#[trigger] inputs[k], t) <= c,
    ensures
        peak(inputs, t) <= c,
    decreases inputs.len(),
{
    if inputs.len() > 0 {
        let front = inputs.drop_last();
        assert forall|k: int| 0 <= k < front.len() implies rem_at(#[trigger] front[k], t) <= c by {
            assert(front[k] == inputs[k]);
        }
        lemma_peak_below(front, c, t);
        assert(inputs.last() == inputs[inputs.len() - 1]);
    }
}

/// The merge of states that a problem admits is admitted by it.
pub proof fn lemma_relaxation_admits(pb: &Rcpsp, views: Seq<StateView>, r: StateView)
    requires
        pb.instance.wf(),
        views.len() >= 1,
        forall|k: int| 0 <= k < views.len() ==> pb.admits(#[trigger] views[k]),
        is_relaxation(views, pb.instance.n_jobs as nat, pb.instance.n_resources as nat, r),
    ensures
        pb.admits(r),
{
    let n = pb.instance.n_jobs as int;
    let n_res = pb.instance.n_resources as int;
    assert(pb.admits(views[0]));
    assert forall|j: int| 0 <= j < n implies 0 <= #[trigger] r.earliest[j] by {
        if !done_in_all(views, j) {
            let i = lemma_least_open(views, j);
            assert(pb.admits(views[i]));
        }
    }
    assert forall|res: int| 0 <= res < r.profile.len() implies {
        &&& well_formed(#[trigger] r.profile[res])
        &&& within(r.profile[res], pb.instance.capacity@[res] as int)
        &&& tail_capacity(r.profile[res]) == pb.instance.capacity@[res]
    } by {
        let cap = pb.instance.capacity@[res] as int;
        let inputs = column(views, res);
        assert forall|t: int| 0 <= t implies 0 <= #[trigger] rem_at(r.profile[res], t) <= cap by {
            assert(rem_at(r.profile[res], t) == peak(inputs, t));
            lemma_peak_dominates(inputs, 0, t);
            assert forall|k: int| 0 <= k < inputs.len() implies rem_at(#[trigger] inputs[k], t)
                <= cap by {
                assert(pb.admits(views[k]));
                assert(well_formed(views[k].profile[res]));
                lemma_readings_from_within(views[k].profile[res], cap, t);
            }
            lemma_peak_below(inputs, cap, t);
        }
        lemma_within_from_readings(r.profile[res], cap);
        let end = isize::MAX as int;
        assert(rem_at(r.profile[res], end) == peak(inputs, end));
        assert forall|k: int| 0 <= k < inputs.len() implies rem_at(#[trigger] inputs[k], end)
            <= cap by {
            assert(pb.admits(views[k]));
            assert(well_formed(views[k].profile[res]));
            lemma_tail_reading(views[k].profile[res], end);
        }
        lemma_peak_below(inputs, cap, end);
        lemma_peak_dominates(inputs, 0, end);
        assert(well_formed(views[0].profile[res]));
        lemma_tail_reading(views[0].profile[res], end);
        lemma_tail_reading(r.profile[res], end);
    }
    assert forall|x: int|
        0 <= x < r.earliest.len() && !r.done.contains(x) implies #[trigger] fits_all(
        r.profile,
        r.earliest[x] as int,
        pb.instance.duration@[x] as int,
        pb.instance.consumption@[x]@,
    ) by {
        let d = pb.instance.duration@[x] as int;
        let w = pb.instance.consumption@[x]@;
        let i = lemma_least_open(views, x);
        assert(pb.admits(views[i]));
        assert(fits_all(views[i].profile, views[i].earliest[x] as int, d, w));
        assert forall|res: int| 0 <= res < r.profile.len() && w[res] > 0 implies fits(
            #[trigger] r.profile[res],
            r.earliest[x] as int,
            d,
            w[res] as int,
        ) by {
            assert(fits(views[i].profile[res], views[i].earliest[x] as int, d, w[res] as int));
            assert forall|t: int| r.earliest[x] <= t < r.earliest[x] + (if d > 0 {
                d
            } else {
                1
            }) implies #[trigger] rem_at(r.profile[res], t) >= w[res] by {
                assert(0 <= views[i].earliest[x]);
                assert(rem_at(r.profile[res], t) == peak(column(views, res), t));
                lemma_peak_dominates(column(views, res), i, t);
                assert(column(views, res)[i] == views[i].profile[res]);
                assert(rem_at(views[i].profile[res], t) >= w[res]);
            }
        }
    }
}

/// Given states have one merge only.
pub proof fn lemma_relaxation_unique(
    views: Seq<StateView>,
    n: nat,
    n_res: nat,
    r1: StateView,
    r2: StateView,
)
    requires
        is_relaxation(views, n, n_res, r1),
        is_relaxation(views, n, n_res, r2),
    ensures
        r1 == r2,
{
    assert forall|res: int| 0 <= res < n_res implies r1.profile[res] == r2.profile[res] by {
        assert forall|t: int| 0 <= t implies rem_at(r1.profile[res], t) == rem_at(
            r2.profile[res],
            t,
        ) by {
            assert(rem_at(r1.profile[res], t) == peak(column(views, res), t));
            assert(rem_at(r2.profile[res], t) == peak(column(views, res), t));
        }
        lemma_canonical_unique(r1.profile[res], r2.profile[res]);
    }
    assert(r1.profile =~= r2.profile);
    assert(r1.earliest =~= r2.earliest);
}

/// One state more: what is scheduled in all.
proof fn lemma_done_in_all_next(views: Seq<StateView>, k: int, j: int)
    requires
        0 <= k < views.len(),
    ensures
        done_in_all(views.take(k + 1), j) == (done_in_all(views.take(k), j) && views[k].done.contains(
            j,
        )),
{
    let a = views.take(k);
    let b = views.take(k + 1);
    assert(b[k] == views[k]);
    if done_in_all(b, j) {
        assert forall|i: int| 0 <= i < a.len() implies (#[trigger] a[i]).done.contains(j) by {
            assert(a[i] == b[i]);
        }
    }
    if done_in_all(a, j) && views[k].done.contains(j) {
        assert forall|i: int| 0 <= i < b.len() implies (#[trigger] b[i]).done.contains(j) by {
            if i < k {
                assert(b[i] == a[i]);
            }
        }
    }
}

/// One state more: what is scheduled, or may be, in some.
proof fn lemma_touched_next(views: Seq<StateView>, k: int, j: int)
    requires
        0 <= k < views.len(),
    ensures
        touched_in_some(views.take(k + 1), j) == (touched_in_some(views.take(k), j) || touched(
            views[k],
            j,
        )),
{
    let a = views.take(k);
    let b = views.take(k + 1);
    assert(b[k] == views[k]);
    if touched_in_some(b, j) {
        let i = choose|i: int| 0 <= i < b.len() && touched(#[trigger] b[i], j);
        if i < k {
            assert(a[i] == b[i]);
        }
    }
    if touched_in_some(a, j) {
        let i = choose|i: int| 0 <= i < a.len() && touched(#[trigger] a[i], j);
        assert(b[i] == a[i]);
    }
}

/// One state more: the folds take the new state in.
proof fn lemma_folds_next(views: Seq<StateView>, k: int)
    requires
        0 <= k < views.len(),
    ensures
        views.take(k + 1).drop_last() == views.take(k),
        views.take(k + 1).last() == views[k],
        forall|r: int| #[trigger]
            column(views.take(k + 1), r).drop_last() == column(views.take(k), r),
        forall|r: int| #[trigger] column(views.take(k + 1), r).last() == views[k].profile[r],
{
    assert(views.take(k + 1).drop_last() =~= views.take(k));
    assert forall|r: int| #[trigger]
        column(views.take(k + 1), r).drop_last() == column(views.take(k), r) by {
        assert(column(views.take(k + 1), r).drop_last() =~= column(views.take(k), r));
    }
}

/// Lowers each estimate to that of `state`, where the job is not scheduled
/// in `state` and `state` has the smaller one.
fn take_smaller(
    earliest: &mut Vec<isize>,
    state: &State,
    Ghost(seen): Ghost<Seq<StateView>>,
    Ghost(next): Ghost<Seq<StateView>>,
)
    requires
        old(earliest)@.len() == state.earliest@.len(),
        next.len() > 0,
        next.drop_last() == seen,
        next.last() == state@,
        forall|j: int| 0 <= j < state.earliest@.len() ==> 0 <= #[trigger] state.earliest@[j],
        forall|j: int|
            0 <= j < old(earliest)@.len() ==> 0 <= #[trigger] old(earliest)@[j] == least_open(seen, j),
    ensures
        final(earliest)@.len() == old(earliest)@.len(),
        forall|j: int|
            0 <= j < final(earliest)@.len() ==> 0 <= #[trigger] final(earliest)@[j] == least_open(
                next,
                j,
            ),
{
    let n = earliest.len();
    let mut i: usize = 0;
    while i < n
        invariant
            i <= n,
            n == state.earliest@.len(),
            earliest@.len() == n,
            next.len() > 0,
            next.drop_last() == seen,
            next.last() == state@,
            forall|j: int| 0 <= j < n ==> 0 <= #[trigger] state.earliest@[j],
            forall|j: int|
                0 <= j < n ==> 0 <= #[trigger] earliest@[j] == if j < i {
                    least_open(next, j)
                } else {
                    least_open(seen, j)
                },
        decreases n - i,
    {
        if !state.done.contains(i) {
            let e = state.earliest[i];
            if e < earliest[i] {
                earliest.set(i, e);
            }
        }
        i += 1;
    }
}

/// Sets to 0 the estimate of every job in `done`.
fn clear_where(earliest: &mut Vec<isize>, done: &FixedBitSet)
    ensures
        final(earliest)@.len() == old(earliest)@.len(),
        forall|j: int|
            0 <= j < final(earliest)@.len() ==> #[trigger] final(earliest)@[j] == if bitset_ones(
                *done,
            ).contains(j) {
                0
            } else {
                old(earliest)@[j]
            },
{
    let n = earliest.len();
    let mut j: usize = 0;
    while j < n
        invariant
            j <= n,
            earliest@.len() == n,
            n == old(earliest)@.len(),
            forall|x: int|
                0 <= x < n ==> #[trigger] earliest@[x] == if x < j && bitset_ones(*done).contains(x) {
                    0
                } else {
                    old(earliest)@[x]
                },
        decreases n - j,
    {
        if done.contains(j) {
            earliest.set(j, 0);
        }
        j += 1;
    }
}

impl<'a> RcpspRelax<'a> {
    /// Merges the states into one. A job is scheduled in the merge if it is
    /// in all of them, and possibly scheduled if it is scheduled or possibly
    /// so in some but not scheduled in all. Each resource has, at each time,
    /// the most that any state has. Each job that is not scheduled in all has
    /// the smallest estimate of the states in which it is not scheduled.
    pub fn merge(&self, states: &Vec<&State>) -> (merged: State)
        requires
            self.pb.wf(),
            states@.len() >= 1,
            forall|k: int| 0 <= k < states@.len() ==> self.pb.inv(#[trigger] states@[k]),
        ensures
            is_relaxation(
                views_of(states@),
                self.pb.instance.n_jobs as nat,
                self.pb.instance.n_resources as nat,
                merged@,
            ),
            self.pb.inv(&merged),
    {
        let n = self.pb.instance.n_jobs;
        let n_res = self.pb.instance.n_resources;
        let ghost views = views_of(states@);
        let mut done = FixedBitSet::with_capacity(n);
        toggle_all(&mut done);
        let mut maybe_done = FixedBitSet::with_capacity(n);
        let mut profile: Vec<ConsumptionProfile> = Vec::new();
        while profile.len() < n_res
            invariant
                self.pb.wf(),
                n_res == self.pb.instance.n_resources,
                profile@.len() <= n_res,
                forall|r: int| 0 <= r < profile@.len() ==> (#[trigger] profile@[r])@ == untouched(0),
            decreases n_res - profile@.len(),
        {
            let mut steps: VecDeque<ConsumptionStep> = VecDeque::new();
            steps.push_back(ConsumptionStep { start: 0, end: isize::MAX, rem_capacity: 0 });
            assert(steps@ =~= untouched(0));
            profile.push(ConsumptionProfile { steps });
        }
        let mut earliest: Vec<isize> = Vec::new();
        while earliest.len() < n
            invariant
                earliest@.len() <= n,
                forall|j: int| 0 <= j < earliest@.len() ==> earliest@[j] == isize::MAX,
            decreases n - earliest@.len(),
        {
            earliest.push(isize::MAX);
        }
        let mut merged = State { done, maybe_done: None, profile, earliest, depth: 0 };
        proof {
            lemma_untouched(0);
            assert(views.take(0) =~= Seq::empty());
            assert(bitset_ones(merged.done) =~= Set::new(
                |j: int| 0 <= j < n && done_in_all(views.take(0), j),
            ));
            assert(bitset_ones(maybe_done) =~= Set::new(
                |j: int| touched_in_some(views.take(0), j),
            ));
            assert forall|r: int, t: int| 0 <= r < n_res && 0 <= t implies #[trigger] rem_at(
                merged@.profile[r],
                t,
            ) == peak(column(views.take(0), r), t) by {
                assert(column(views.take(0), r) =~= Seq::empty());
            }
        }
        let mut k: usize = 0;
        while k < states.len()
            invariant
                self.pb.wf(),
                n == self.pb.instance.n_jobs,
                n_res == self.pb.instance.n_resources,
                views == views_of(states@),
                forall|i: int| 0 <= i < states@.len() ==> self.pb.inv(#[trigger] states@[i]),
                k <= states@.len(),
                merged.maybe_done is None,
                bitset_len(merged.done) == n,
                bitset_len(maybe_done) == n,
                bitset_ones(merged.done) == Set::new(
                    |j: int| 0 <= j < n && done_in_all(views.take(k as int), j),
                ),
                bitset_ones(maybe_done) == Set::new(
                    |j: int| touched_in_some(views.take(k as int), j),
                ),
                merged.profile@.len() == n_res,
                forall|r: int|
                    0 <= r < n_res ==> well_formed(#[trigger] merged@.profile[r]) && (k > 0
                        ==> canonical(merged@.profile[r])),
                forall|r: int, t: int|
                    0 <= r < n_res && 0 <= t ==> #[trigger] rem_at(merged@.profile[r], t) == peak(
                        column(views.take(k as int), r),
                        t,
                    ),
                merged.earliest@.len() == n,
                forall|j: int|
                    0 <= j < n ==> #[trigger] merged.earliest@[j] == least_open(
                        views.take(k as int),
                        j,
                    ),
                forall|j: int| 0 <= j < n ==> 0 <= #[trigger] merged.earliest@[j],
                merged.depth == deepest(views.take(k as int)),
            decreases states@.len() - k,
        {
            let state: &State = states[k];
            let ghost before = merged@;
            proof {
                assert(self.pb.inv(states@[k as int]));
                assert(views[k as int] == state@);
                lemma_folds_next(views, k as int);
            }
            merged.done.intersect_with(&state.done);
            maybe_done.union_with(&state.done);
            match &state.maybe_done {
                Some(maybe) => {
                    maybe_done.union_with(maybe);
                },
                None => {},
            }
            proof {
                assert(bitset_ones(merged.done) =~= Set::new(
                    |j: int| 0 <= j < n && done_in_all(views.take(k + 1), j),
                )) by {
                    assert forall|j: int|
                        bitset_ones(merged.done).contains(j) == (0 <= j < n && done_in_all(
                            views.take(k + 1),
                            j,
                        )) by {
                        lemma_done_in_all_next(views, k as int, j);
                    }
                }
                assert(bitset_ones(maybe_done) =~= Set::new(
                    |j: int| touched_in_some(views.take(k + 1), j),
                )) by {
                    assert forall|j: int|
                        bitset_ones(maybe_done).contains(j) == touched_in_some(
                            views.take(k + 1),
                            j,
                        ) by {
                        lemma_touched_next(views, k as int, j);
                    }
                }
                assert forall|r: int| 0 <= r < state.profile@.len() implies (
                #[trigger] state.profile@[r]).wf() by {
                    assert(well_formed(state@.profile[r]));
                }
                assert(merged@.profile =~= before.profile);
            }
            merged.merge_consumption_profile(&state.profile);
            proof {
                assert forall|r: int| 0 <= r < n_res implies well_formed(
                    #[trigger] merged@.profile[r],
                ) && canonical(merged@.profile[r]) by {
                    assert(state@.profile[r] == state.profile@[r]@);
                }
                assert forall|r: int, t: int| 0 <= r < n_res && 0 <= t implies #[trigger] rem_at(
                    merged@.profile[r],
                    t,
                ) == peak(column(views.take(k + 1), r), t) by {
                    assert(state@.profile[r] == state.profile@[r]@);
                    assert(rem_at(before.profile[r], t) == peak(column(views.take(k as int), r), t));
                    assert(column(views.take(k + 1), r).drop_last() == column(
                        views.take(k as int),
                        r,
                    ));
                    assert(column(views.take(k + 1), r).last() == views[k as int].profile[r]);
                }
            }
            take_smaller(&mut merged.earliest, state, Ghost(views.take(k as int)), Ghost(views.take(k + 1)));
            if state.depth > merged.depth {
                merged.depth = state.depth;
            }
            k += 1;
        }
        proof {
            assert(views.take(k as int) =~= views);
        }
        let ghost touched_set = bitset_ones(maybe_done);
        let ghost folded = merged@;
        maybe_done.symmetric_difference_with(&merged.done);
        clear_where(&mut merged.earliest, &merged.done);
        merged.maybe_done = Some(maybe_done);
        proof {
            let r = merged@;
            assert(r.profile =~= folded.profile);
            assert(views.len() >= 1);
            assert(views[0] == states@[0]@);
            assert(self.pb.inv(states@[0]));
            assert(r.maybe_done == Some(bitset_ones(maybe_done)));
            assert(touched_set == Set::new(|x: int| touched_in_some(views, x)));
            assert forall|x: int|
                bitset_ones(maybe_done).contains(x) == (touched_set.contains(x) != bitset_ones(
                    merged.done,
                ).contains(x)) by {}
            assert(r.maybe_done.unwrap() =~= Set::new(
                |x: int| touched_in_some(views, x) && !(0 <= x < n && done_in_all(views, x)),
            )) by {
                assert forall|x: int|
                    r.maybe_done.unwrap().contains(x) == (touched_in_some(views, x) && !(0 <= x < n
                        && done_in_all(views, x))) by {
                    if 0 <= x < n && done_in_all(views, x) {
                        assert(views[0].done.contains(x));
                        assert(touched(views[0], x));
                    }
                    let m = bitset_ones(maybe_done);
                    assert(m.contains(x) == (touched_set.contains(x) != bitset_ones(
                        merged.done,
                    ).contains(x)));
                    assert(touched_set.contains(x) == touched_in_some(views, x));
                    assert(bitset_ones(merged.done).contains(x) == (0 <= x < n && done_in_all(
                        views,
                        x,
                    )));
                    assert(r.maybe_done.unwrap() == m);
                }
            }
            assert(bitset_bounded(maybe_done)) by {
                assert forall|x: int| #[trigger]
                    bitset_ones(maybe_done).contains(x) implies 0 <= x < bitset_len(maybe_done) by {
                    let i = choose|i: int| 0 <= i < views.len() && touched(#[trigger] views[i], x);
                    assert(self.pb.inv(states@[i]));
                    assert(views[i] == states@[i]@);
                }
            }
            assert forall|i: int| 0 <= i < views.len() implies self.pb.admits(
                #[trigger] views[i],
            ) by {
                assert(self.pb.inv(states@[i]));
                assert(views[i] == states@[i]@);
            }
            lemma_relaxation_admits(self.pb, views, r);
        }
        merged
    }

    /// The cost of a step into a merged state: the cost of the step as it
    /// was.
    pub fn relax(
        &self,
        _source: &State,
        _dest: &State,
        _merged: &State,
        _decision: usize,
        cost: isize,
    ) -> (relaxed: isize)
        ensures
            relaxed == cost,
    {
        cost
    }
}

} // verus!
