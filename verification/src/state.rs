//! A partial schedule: which jobs are scheduled, what is left of each
//! resource, and from when on each unscheduled job could start.

use crate::bitset::{bitset_bounded, bitset_len, bitset_ones};
use crate::profile::{
    can_lower, fits, forwarded, is_merge, lemma_forwarded, lemma_lowered, lemma_rem_at, lowered,
    none_fits, rem_at, well_formed, ConsumptionProfile, ConsumptionStep,
};
use fixedbitset::FixedBitSet;
use vstd::prelude::*;

verus! {

/// A partial schedule. Time 0 is the state's own "now", shared by all its
/// profiles.
#[derive(Debug, Hash, PartialEq, Eq)]
pub struct State {
    /// The jobs that are scheduled.
    pub done: FixedBitSet,
    /// In a merged state, the jobs that are scheduled in some of the merged
    /// states but not in all.
    pub maybe_done: Option<FixedBitSet>,
    /// What is left of each resource.
    pub profile: Vec<ConsumptionProfile>,
    /// For each job, the earliest time at which it can start.
    pub earliest: Vec<isize>,
    /// The number of decisions taken to reach this state.
    pub depth: usize,
}

/// What a state holds, as plain mathematical values.
pub struct StateView {
    pub done: Set<int>,
    pub maybe_done: Option<Set<int>>,
    pub profile: Seq<Seq<ConsumptionStep>>,
    pub earliest: Seq<isize>,
    pub depth: nat,
}

impl View for State {
    type V = StateView;

    open spec fn view(&self) -> StateView {
        StateView {
            done: bitset_ones(self.done),
            maybe_done: match self.maybe_done {
                Some(m) => Some(bitset_ones(m)),
                None => None,
            },
            profile: Seq::new(self.profile@.len(), |r: int| self.profile@[r]@),
            earliest: self.earliest@,
            depth: self.depth as nat,
        }
    }
}

/// Every profile partitions the time axis from 0 on.
pub open spec fn all_well_formed(profiles: Seq<Seq<ConsumptionStep>>) -> bool {
    forall|r: int| 0 <= r < profiles.len() ==> well_formed(#[trigger] profiles[r])
}

/// On every resource that the job needs, what is left in the end is enough
/// for it.
pub open spec fn tail_suffices(profiles: Seq<Seq<ConsumptionStep>>, w: Seq<isize>) -> bool {
    forall|r: int|
        0 <= r < profiles.len() && w[r] > 0 ==> (#[trigger] profiles[r])[profiles[r].len()
            - 1].rem_capacity >= w[r]
}

/// A job of duration `d` that needs `w[r]` units of each resource `r` can
/// start at `e`.
pub open spec fn fits_all(
    profiles: Seq<Seq<ConsumptionStep>>,
    e: int,
    d: int,
    w: Seq<isize>,
) -> bool {
    forall|r: int|
        0 <= r < profiles.len() && w[r] > 0 ==> fits(#[trigger] profiles[r], e, d, w[r] as int)
}

/// `e` is the first time from `e0` on at which the job can start.
pub open spec fn is_earliest_fit(
    profiles: Seq<Seq<ConsumptionStep>>,
    e0: int,
    d: int,
    w: Seq<isize>,
    e: int,
) -> bool {
    &&& e0 <= e
    &&& fits_all(profiles, e, d, w)
    &&& forall|x: int| e0 <= x < e ==> !#[trigger] fits_all(profiles, x, d, w)
}

/// The first time from `e0` on at which the job can start.
pub open spec fn earliest_fit(
    profiles: Seq<Seq<ConsumptionStep>>,
    e0: int,
    d: int,
    w: Seq<isize>,
) -> int {
    choose|e: int| is_earliest_fit(profiles, e0, d, w, e)
}

/// The latest of `e0` and the beginnings of the last steps of the first `k`
/// profiles.
pub open spec fn latest_tail(profiles: Seq<Seq<ConsumptionStep>>, e0: int, k: int) -> int
    decreases k,
{
    if k <= 0 {
        e0
    } else {
        let rest = latest_tail(profiles, e0, k - 1);
        let start = profiles[k - 1][profiles[k - 1].len() - 1].start as int;
        if rest >= start {
            rest
        } else {
            start
        }
    }
}

/// The profiles after a job that needs `w[r]` of each resource `r` runs
/// during `[a, a + d)`.
pub open spec fn lowered_profiles(
    profiles: Seq<Seq<ConsumptionStep>>,
    a: int,
    d: int,
    w: Seq<isize>,
) -> Seq<Seq<ConsumptionStep>> {
    Seq::new(
        profiles.len(),
        |r: int|
            if d > 0 && w[r] > 0 {
                lowered(profiles[r], a, a + d, w[r] as int)
            } else {
                profiles[r]
            },
    )
}

/// Taking `w[r]` of each resource `r` during `[a, a + d)` stays within
/// `isize`.
pub open spec fn can_lower_all(
    profiles: Seq<Seq<ConsumptionStep>>,
    a: int,
    d: int,
    w: Seq<isize>,
) -> bool {
    forall|r: int|
        0 <= r < profiles.len() && w[r] > 0 ==> can_lower(
            #[trigger] profiles[r],
            a,
            a + d,
            w[r] as int,
        )
}

/// The sum of two times, held at `isize::MAX`.
pub open spec fn sat_add(a: int, b: int) -> int {
    if a + b > isize::MAX {
        isize::MAX as int
    } else {
        a + b
    }
}

/// The estimates after job `i` is visited: unless it is scheduled, its own
/// estimate moves to the first time at which it fits; unless it is scheduled
/// or may be, each unscheduled successor is moved behind its end.
pub open spec fn visited(
    v: StateView,
    e: Seq<isize>,
    i: int,
    successors: Set<int>,
    d: int,
    w: Seq<isize>,
) -> Seq<isize> {
    if v.done.contains(i) {
        e
    } else {
        let ei = earliest_fit(v.profile, e[i] as int, d, w);
        let e1 = e.update(i, ei as isize);
        if v.maybe_done is Some && v.maybe_done.unwrap().contains(i) {
            e1
        } else {
            Seq::new(
                e1.len(),
                |j: int|
                    if successors.contains(j) && !v.done.contains(j) && e1[j] < sat_add(ei, d) {
                        sat_add(ei, d) as isize
                    } else {
                        e1[j]
                    },
            )
        }
    }
}

/// The estimates after the first `k` jobs of `order` are visited in turn.
pub open spec fn propagated(
    v: StateView,
    order: Seq<usize>,
    successors: Seq<FixedBitSet>,
    duration: Seq<isize>,
    consumption: Seq<Vec<isize>>,
    k: nat,
) -> Seq<isize>
    decreases k,
{
    if k == 0 {
        v.earliest
    } else {
        let i = order[k - 1] as int;
        visited(
            v,
            propagated(v, order, successors, duration, consumption, (k - 1) as nat),
            i,
            bitset_ones(successors[i]),
            duration[i] as int,
            consumption[i]@,
        )
    }
}

/// Job `j` is somewhere in `order`.
pub open spec fn occurs(order: Seq<usize>, j: int) -> bool {
    exists|p: int| 0 <= p < order.len() && #[trigger] order[p] == j
}

/// Every job occurs in `order`, and none of them at or before a position
/// that holds one of its predecessors.
pub open spec fn is_topological(order: Seq<usize>, successors: Seq<FixedBitSet>) -> bool {
    &&& forall|j: int| 0 <= j < successors.len() ==> #[trigger] occurs(order, j)
    &&& forall|p: int, q: int|
        0 <= p <= q < order.len() ==> !bitset_ones(successors[#[trigger] order[q] as int]).contains(
            #[trigger] order[p] as int,
        )
}

/// Every unscheduled job can start at its estimate.
pub open spec fn open_jobs_fit(
    v: StateView,
    duration: Seq<isize>,
    consumption: Seq<Vec<isize>>,
) -> bool {
    forall|j: int|
        0 <= j < v.earliest.len() && !v.done.contains(j) ==> #[trigger] fits_all(
            v.profile,
            v.earliest[j] as int,
            duration[j] as int,
            consumption[j]@,
        )
}

/// Some job is not scheduled.
pub open spec fn has_open(v: StateView) -> bool {
    exists|j: int| 0 <= j < v.earliest.len() && !v.done.contains(j)
}

/// `m` is the smallest estimate among the unscheduled jobs.
pub open spec fn is_min_open(v: StateView, m: int) -> bool {
    &&& exists|j: int| 0 <= j < v.earliest.len() && !v.done.contains(j) && v.earliest[j] == m
    &&& forall|j: int| 0 <= j < v.earliest.len() && !v.done.contains(j) ==> m <= v.earliest[j]
}

/// By how much the origin moves: the smallest estimate among the unscheduled
/// jobs, or 0 when there is none or it is not positive.
pub open spec fn shift_of(v: StateView) -> int {
    let m = choose|m: int| is_min_open(v, m);
    if has_open(v) && m > 0 {
        m
    } else {
        0
    }
}

/// The state seen from `shift_of` time units later.
pub open spec fn shifted(v: StateView) -> StateView {
    let m = shift_of(v);
    if m > 0 {
        StateView {
            profile: Seq::new(v.profile.len(), |r: int| forwarded(v.profile[r], m)),
            earliest: Seq::new(
                v.earliest.len(),
                |j: int|
                    if v.done.contains(j) {
                        v.earliest[j]
                    } else {
                        (v.earliest[j] - m) as isize
                    },
            ),
            ..v
        }
    } else {
        v
    }
}

/// There is only one first time.
pub proof fn lemma_earliest_fit_unique(
    profiles: Seq<Seq<ConsumptionStep>>,
    e0: int,
    d: int,
    w: Seq<isize>,
    e: int,
)
    requires
        is_earliest_fit(profiles, e0, d, w, e),
    ensures
        earliest_fit(profiles, e0, d, w) == e,
{
    let c = earliest_fit(profiles, e0, d, w);
    assert(is_earliest_fit(profiles, e0, d, w, c));
    if c < e {
        assert(!fits_all(profiles, c, d, w));
    } else if e < c {
        assert(!fits_all(profiles, e, d, w));
    }
}

proof fn lemma_latest_tail(profiles: Seq<Seq<ConsumptionStep>>, e0: int, k: int, r: int)
    requires
        0 <= r < k <= profiles.len(),
    ensures
        e0 <= latest_tail(profiles, e0, k),
        profiles[r][profiles[r].len() - 1].start <= latest_tail(profiles, e0, k),
        e0 <= isize::MAX ==> latest_tail(profiles, e0, k) <= isize::MAX,
    decreases k,
{
    if k - 1 > r {
        lemma_latest_tail(profiles, e0, k - 1, r);
    } else if k - 1 > 0 {
        lemma_latest_tail(profiles, e0, k - 1, 0);
    } else {
        assert(latest_tail(profiles, e0, 0) == e0);
    }
}

/// Once every resource has come to its last step, a job for which the last
/// steps leave enough can start.
pub proof fn lemma_fits_in_the_end(
    profiles: Seq<Seq<ConsumptionStep>>,
    e0: int,
    d: int,
    w: Seq<isize>,
)
    requires
        all_well_formed(profiles),
        tail_suffices(profiles, w),
    ensures
        e0 <= latest_tail(profiles, e0, profiles.len() as int),
        e0 <= isize::MAX ==> latest_tail(profiles, e0, profiles.len() as int) <= isize::MAX,
        fits_all(profiles, latest_tail(profiles, e0, profiles.len() as int), d, w),
{
    let e = latest_tail(profiles, e0, profiles.len() as int);
    if profiles.len() > 0 {
        lemma_latest_tail(profiles, e0, profiles.len() as int, 0);
    }
    assert forall|r: int| 0 <= r < profiles.len() && w[r] > 0 implies fits(
        #[trigger] profiles[r],
        e,
        d,
        w[r] as int,
    ) by {
        let s = profiles[r];
        lemma_latest_tail(profiles, e0, profiles.len() as int, r);
        assert(well_formed(s));
        assert forall|t: int| e <= t < e + (if d > 0 {
            d
        } else {
            1
        }) implies #[trigger] rem_at(s, t) >= w[r] by {
            lemma_rem_at(s, s.len() - 1, t);
        }
    }
}

proof fn lemma_first_fit(
    profiles: Seq<Seq<ConsumptionStep>>,
    e0: int,
    d: int,
    w: Seq<isize>,
    lo: int,
    hi: int,
) -> (e: int)
    requires
        e0 <= lo <= hi,
        fits_all(profiles, hi, d, w),
        forall|x: int| e0 <= x < lo ==> !#[trigger] fits_all(profiles, x, d, w),
    ensures
        lo <= e <= hi,
        is_earliest_fit(profiles, e0, d, w, e),
    decreases hi - lo,
{
    if fits_all(profiles, lo, d, w) {
        lo
    } else {
        lemma_first_fit(profiles, e0, d, w, lo + 1, hi)
    }
}

/// Where the last steps leave enough for the job, there is a first time from
/// `e0` on at which it can start, and it is no later than the latest of `e0`
/// and the beginnings of the last steps.
pub proof fn lemma_earliest_fit_exists(
    profiles: Seq<Seq<ConsumptionStep>>,
    e0: int,
    d: int,
    w: Seq<isize>,
)
    requires
        all_well_formed(profiles),
        tail_suffices(profiles, w),
    ensures
        is_earliest_fit(profiles, e0, d, w, earliest_fit(profiles, e0, d, w)),
        earliest_fit(profiles, e0, d, w) <= latest_tail(profiles, e0, profiles.len() as int),
        e0 <= isize::MAX ==> earliest_fit(profiles, e0, d, w) <= isize::MAX,
{
    lemma_fits_in_the_end(profiles, e0, d, w);
    let hi = latest_tail(profiles, e0, profiles.len() as int);
    let e = lemma_first_fit(profiles, e0, d, w, e0, hi);
    lemma_earliest_fit_unique(profiles, e0, d, w, e);
}

/// There is only one smallest estimate.
pub proof fn lemma_min_open_unique(v: StateView, m: int)
    requires
        is_min_open(v, m),
    ensures
        has_open(v),
        (choose|x: int| is_min_open(v, x)) == m,
        shift_of(v) == if m > 0 {
            m
        } else {
            0
        },
{
    let c = choose|x: int| is_min_open(v, x);
    assert(is_min_open(v, c));
}

/// What a visit does to the estimates: none falls, that of a scheduled job
/// stays, only the visited job and its successors are touched, and the
/// visited job, unless it is scheduled, can start at its new estimate.
pub proof fn lemma_visited(
    v: StateView,
    e: Seq<isize>,
    i: int,
    successors: Set<int>,
    d: int,
    w: Seq<isize>,
)
    requires
        0 <= i < e.len(),
        forall|j: int| 0 <= j < e.len() ==> 0 <= #[trigger] e[j],
        all_well_formed(v.profile),
        tail_suffices(v.profile, w),
    ensures
        visited(v, e, i, successors, d, w).len() == e.len(),
        forall|j: int|
            0 <= j < e.len() ==> #[trigger] visited(v, e, i, successors, d, w)[j] >= e[j],
        forall|j: int|
            0 <= j < e.len() && v.done.contains(j) ==> #[trigger] visited(
                v,
                e,
                i,
                successors,
                d,
                w,
            )[j] == e[j],
        forall|j: int|
            0 <= j < e.len() && j != i && !successors.contains(j) ==> #[trigger] visited(
                v,
                e,
                i,
                successors,
                d,
                w,
            )[j] == e[j],
        !v.done.contains(i) && !successors.contains(i) ==> fits_all(
            v.profile,
            visited(v, e, i, successors, d, w)[i] as int,
            d,
            w,
        ),
{
    if !v.done.contains(i) {
        lemma_earliest_fit_exists(v.profile, e[i] as int, d, w);
    }
}

/// What propagation through the first `k` jobs of the order does to the
/// estimates: none falls, that of a scheduled job stays, and, where the order
/// is topological, every unscheduled job among the first `k` can start at its
/// estimate.
pub proof fn lemma_propagated(
    v: StateView,
    order: Seq<usize>,
    successors: Seq<FixedBitSet>,
    duration: Seq<isize>,
    consumption: Seq<Vec<isize>>,
    k: nat,
)
    requires
        k <= order.len(),
        successors.len() == v.earliest.len(),
        duration.len() == v.earliest.len(),
        consumption.len() == v.earliest.len(),
        forall|p: int| 0 <= p < order.len() ==> (#[trigger] order[p]) < v.earliest.len(),
        forall|j: int| 0 <= j < v.earliest.len() ==> 0 <= #[trigger] v.earliest[j],
        all_well_formed(v.profile),
        forall|i: int|
            0 <= i < v.earliest.len() ==> tail_suffices(v.profile, (#[trigger] consumption[i])@),
    ensures
        propagated(v, order, successors, duration, consumption, k).len() == v.earliest.len(),
        forall|j: int|
            0 <= j < v.earliest.len() ==> #[trigger] propagated(
                v,
                order,
                successors,
                duration,
                consumption,
                k,
            )[j] >= v.earliest[j],
        forall|j: int|
            0 <= j < v.earliest.len() && v.done.contains(j) ==> #[trigger] propagated(
                v,
                order,
                successors,
                duration,
                consumption,
                k,
            )[j] == v.earliest[j],
        is_topological(order, successors) ==> forall|p: int|
            0 <= p < k && !v.done.contains(order[p] as int) ==> #[trigger] fits_all(
                v.profile,
                propagated(v, order, successors, duration, consumption, k)[order[p] as int] as int,
                duration[order[p] as int] as int,
                consumption[order[p] as int]@,
            ),
    decreases k,
{
    if k > 0 {
        let before = propagated(v, order, successors, duration, consumption, (k - 1) as nat);
        let after = propagated(v, order, successors, duration, consumption, k);
        let i = order[k - 1] as int;
        let next = bitset_ones(successors[i]);
        lemma_propagated(v, order, successors, duration, consumption, (k - 1) as nat);
        assert(tail_suffices(v.profile, consumption[i]@));
        lemma_visited(v, before, i, next, duration[i] as int, consumption[i]@);
        assert(after == visited(v, before, i, next, duration[i] as int, consumption[i]@));
        assert forall|j: int| 0 <= j < v.earliest.len() implies #[trigger] after[j]
            >= v.earliest[j] by {
            assert(before[j] >= v.earliest[j]);
        }
        assert forall|j: int| 0 <= j < v.earliest.len() && v.done.contains(j) implies #[trigger] after[j]
            == v.earliest[j] by {
            assert(before[j] == v.earliest[j]);
        }
        if is_topological(order, successors) {
            assert forall|p: int|
                0 <= p < k && !v.done.contains(order[p] as int) implies #[trigger] fits_all(
                v.profile,
                after[order[p] as int] as int,
                duration[order[p] as int] as int,
                consumption[order[p] as int]@,
            ) by {
                let x = order[p] as int;
                assert(!bitset_ones(successors[order[k - 1] as int]).contains(order[p] as int));
                if x != i {
                    assert(after[x] == before[x]);
                    assert(fits_all(
                        v.profile,
                        before[order[p] as int] as int,
                        duration[order[p] as int] as int,
                        consumption[order[p] as int]@,
                    ));
                }
            }
        }
    }
}

proof fn lemma_min_upto(v: StateView, k: int) -> (m: int)
    requires
        0 <= k <= v.earliest.len(),
        exists|j: int| 0 <= j < k && !v.done.contains(j),
    ensures
        exists|j: int| 0 <= j < k && !v.done.contains(j) && v.earliest[j] == m,
        forall|j: int| 0 <= j < k && !v.done.contains(j) ==> m <= v.earliest[j],
    decreases k,
{
    let last = k - 1;
    if exists|j: int| 0 <= j < k - 1 && !v.done.contains(j) {
        let m0 = lemma_min_upto(v, k - 1);
        let at = choose|j: int| 0 <= j < k - 1 && !v.done.contains(j) && v.earliest[j] == m0;
        if !v.done.contains(last) && v.earliest[last] < m0 {
            assert(0 <= last < k && !v.done.contains(last) && v.earliest[last] == v.earliest[last]);
            v.earliest[last] as int
        } else {
            assert(0 <= at < k && !v.done.contains(at) && v.earliest[at] == m0);
            m0
        }
    } else {
        let j = choose|j: int| 0 <= j < k && !v.done.contains(j);
        assert(j == last);
        v.earliest[last] as int
    }
}

/// The origin never moves back, and where it moves, it moves to the smallest
/// estimate among the unscheduled jobs.
pub proof fn lemma_shift_of(v: StateView)
    ensures
        0 <= shift_of(v),
        shift_of(v) > 0 ==> is_min_open(v, shift_of(v)),
{
    if has_open(v) {
        let m = lemma_min_upto(v, v.earliest.len() as int);
        assert(is_min_open(v, m));
        lemma_min_open_unique(v, m);
    }
}

/// The sum of a time and a duration, held at `isize::MAX`.
fn saturating_sum(a: isize, b: isize) -> (r: isize)
    requires
        0 <= a,
    ensures
        r == sat_add(a as int, b as int),
{
    if b > 0 && a > isize::MAX - b {
        isize::MAX
    } else {
        a + b
    }
}

impl Clone for State {
    fn clone(&self) -> (r: Self)
        ensures
            r@ == self@,
            r.same_lengths(self),
    {
        let mut profile: Vec<ConsumptionProfile> = Vec::new();
        let mut i: usize = 0;
        while i < self.profile.len()
            invariant
                i <= self.profile@.len(),
                profile@.len() == i,
                forall|r: int| 0 <= r < i ==> (#[trigger] profile@[r])@ == self.profile@[r]@,
            decreases self.profile@.len() - i,
        {
            profile.push(self.profile[i].clone());
            i += 1;
        }
        let maybe_done = match &self.maybe_done {
            Some(m) => Some(m.clone()),
            None => None,
        };
        let r = State {
            done: self.done.clone(),
            maybe_done,
            profile,
            earliest: self.earliest.clone(),
            depth: self.depth,
        };
        assert(r@.profile =~= self@.profile);
        assert(r@.earliest =~= self@.earliest);
        r
    }
}

impl State {
    /// The bit sets are as long as those of `other`.
    pub open spec fn same_lengths(&self, other: &State) -> bool {
        &&& bitset_len(self.done) == bitset_len(other.done)
        &&& self.maybe_done is Some ==> other.maybe_done is Some && bitset_len(
            self.maybe_done.unwrap(),
        ) == bitset_len(other.maybe_done.unwrap())
    }

    /// The number of jobs the state speaks of.
    pub open spec fn n_jobs(&self) -> nat {
        self.earliest@.len()
    }

    /// The bit sets have one position per job and hold nothing beyond, every
    /// profile partitions the time axis from 0 on, and no estimate is
    /// negative.
    pub open spec fn wf(&self) -> bool {
        &&& bitset_len(self.done) == self.n_jobs()
        &&& bitset_bounded(self.done)
        &&& match self.maybe_done {
            Some(m) => bitset_len(m) == self.n_jobs() && bitset_bounded(m),
            None => true,
        }
        &&& all_well_formed(self@.profile)
        &&& forall|j: int| 0 <= j < self.n_jobs() ==> 0 <= #[trigger] self.earliest@[j]
    }

    /// Takes from every resource `r` with `consumption[r] > 0` that many
    /// units during `[start_time, start_time + duration)`.
    pub fn add_consumption(&mut self, start_time: isize, duration: isize, consumption: &Vec<isize>)
        requires
            all_well_formed(old(self)@.profile),
            consumption@.len() == old(self).profile@.len(),
            isize::MIN <= start_time + duration < isize::MAX,
            can_lower_all(old(self)@.profile, start_time as int, duration as int, consumption@),
        ensures
            final(self)@.profile == lowered_profiles(
                old(self)@.profile,
                start_time as int,
                duration as int,
                consumption@,
            ),
            all_well_formed(final(self)@.profile),
            final(self).done == old(self).done,
            final(self).maybe_done == old(self).maybe_done,
            final(self).earliest == old(self).earliest,
            final(self).depth == old(self).depth,
    {
        let ghost before = self@.profile;
        let ghost a = start_time as int;
        let ghost d = duration as int;
        let ghost w = consumption@;
        if duration > 0 {
            let n = self.profile.len();
            let mut i: usize = 0;
            while i < n
                invariant
                    i <= n,
                    n == self.profile@.len(),
                    n == before.len(),
                    w == consumption@,
                    w.len() == n,
                    d == duration,
                    d > 0,
                    a == start_time,
                    isize::MIN <= a + d < isize::MAX,
                    all_well_formed(before),
                    can_lower_all(before, a, d, w),
                    self.done == old(self).done,
                    self.maybe_done == old(self).maybe_done,
                    self.earliest == old(self).earliest,
                    self.depth == old(self).depth,
                    forall|r: int|
                        0 <= r < i ==> (#[trigger] self.profile@[r])@ == lowered_profiles(
                            before,
                            a,
                            d,
                            w,
                        )[r],
                    forall|r: int| i <= r < n ==> (#[trigger] self.profile@[r])@ == before[r],
                decreases n - i,
            {
                let c = consumption[i];
                proof {
                    assert(well_formed(before[i as int]));
                }
                if c > 0 {
                    assert(can_lower(before[i as int], a, a + d, c as int));
                    self.profile[i].add_consumption(start_time, duration, c);
                }
                i += 1;
            }
        }
        proof {
            assert(self@.profile =~= lowered_profiles(before, a, d, w));
            assert forall|r: int| 0 <= r < self@.profile.len() implies well_formed(
                #[trigger] self@.profile[r],
            ) by {
                assert(well_formed(before[r]));
                if d > 0 && w[r] > 0 {
                    assert(can_lower(before[r], a, a + d, w[r] as int));
                    lemma_lowered(before[r], a, a + d, w[r] as int);
                }
            }
        }
    }

    /// The first time from `earliest` on at which a job of the given duration
    /// and consumption fits on every resource that it needs.
    pub fn get_earliest_start(&self, earliest: isize, duration: isize, consumption: &Vec<isize>) -> (e:
        isize)
        requires
            all_well_formed(self@.profile),
            consumption@.len() == self.profile@.len(),
            0 <= earliest,
            tail_suffices(self@.profile, consumption@),
        ensures
            is_earliest_fit(
                self@.profile,
                earliest as int,
                duration as int,
                consumption@,
                e as int,
            ),
            e == earliest_fit(self@.profile, earliest as int, duration as int, consumption@),
    {
        let n = self.profile.len();
        let ghost profs = self@.profile;
        let ghost d = duration as int;
        let ghost w = consumption@;
        let mut index: Vec<usize> = Vec::new();
        while index.len() < n
            invariant
                index@.len() <= n,
                forall|k: int| 0 <= k < index@.len() ==> index@[k] == 0,
            decreases n - index@.len(),
        {
            index.push(0);
        }
        let mut e = earliest;
        proof {
            assert forall|r: int| 0 <= r < n implies (#[trigger] index@[r]) < profs[r].len() by {
                assert(well_formed(profs[r]));
            }
        }
        loop
            invariant
                n == self.profile@.len(),
                profs == self@.profile,
                w == consumption@,
                w.len() == n,
                d == duration,
                all_well_formed(profs),
                tail_suffices(profs, w),
                index@.len() == n,
                forall|r: int| 0 <= r < n ==> (#[trigger] index@[r]) < profs[r].len(),
                forall|r: int|
                    0 <= r < n && w[r] > 0 ==> none_fits(
                        #[trigger] profs[r],
                        e as int,
                        profs[r][index@[r] as int].start as int,
                        d,
                        w[r] as int,
                    ),
                0 <= earliest <= e,
                forall|x: int| earliest <= x < e ==> !#[trigger] fits_all(profs, x, d, w),
            ensures
                earliest <= e,
                fits_all(profs, e as int, d, w),
                forall|x: int| earliest <= x < e ==> !#[trigger] fits_all(profs, x, d, w),
            decreases isize::MAX - e,
        {
            let mut moved = false;
            let mut r: usize = 0;
            let ghost e_in = e;
            while r < n && !moved
                invariant
                    n == self.profile@.len(),
                    profs == self@.profile,
                    w == consumption@,
                    w.len() == n,
                    d == duration,
                    all_well_formed(profs),
                    tail_suffices(profs, w),
                    index@.len() == n,
                    forall|r: int| 0 <= r < n ==> (#[trigger] index@[r]) < profs[r].len(),
                    forall|r: int|
                        0 <= r < n && w[r] > 0 ==> none_fits(
                            #[trigger] profs[r],
                            e as int,
                            profs[r][index@[r] as int].start as int,
                            d,
                            w[r] as int,
                        ),
                    0 <= earliest <= e,
                    forall|x: int| earliest <= x < e ==> !#[trigger] fits_all(profs, x, d, w),
                    r <= n,
                    e_in <= e,
                    moved ==> e_in < e,
                    !moved ==> forall|k: int|
                        0 <= k < r && w[k] > 0 ==> fits(#[trigger] profs[k], e as int, d, w[k] as int),
                decreases n - r,
            {
                let wr = consumption[r];
                if wr > 0 {
                    let ghost s = profs[r as int];
                    let ghost old_index = index@;
                    let ghost old_e = e;
                    let from = index[r];
                    proof {
                        assert(well_formed(s));
                        assert(s == self.profile@[r as int]@);
                        assert(none_fits(s, e as int, s[from as int].start as int, d, wr as int));
                    }
                    let idx = self.profile[r].find_window(from, e, duration, wr);
                    index.set(r, idx);
                    let begin = self.profile[r].steps[idx].start;
                    if begin > e {
                        e = begin;
                        moved = true;
                    }
                    proof {
                        assert(none_fits(s, old_e as int, e as int, d, wr as int));
                        assert forall|x: int| earliest <= x < e implies !#[trigger] fits_all(
                            profs,
                            x,
                            d,
                            w,
                        ) by {
                            if old_e <= x {
                                assert(!fits(s, x, d, wr as int));
                                assert(profs[r as int] == s);
                            }
                        }
                        assert forall|q: int| 0 <= q < n && w[q] > 0 implies none_fits(
                            #[trigger] profs[q],
                            e as int,
                            profs[q][index@[q] as int].start as int,
                            d,
                            w[q] as int,
                        ) by {
                            if q != r {
                                assert(index@[q] == old_index[q]);
                                assert(none_fits(
                                    profs[q],
                                    old_e as int,
                                    profs[q][old_index[q] as int].start as int,
                                    d,
                                    w[q] as int,
                                ));
                            }
                        }
                        assert forall|q: int| 0 <= q < n implies (#[trigger] index@[q])
                            < profs[q].len() by {
                            if q != r {
                                assert(index@[q] == old_index[q]);
                            }
                        }
                    }
                }
                r += 1;
            }
            if !moved {
                break ;
            }
        }
        proof {
            lemma_earliest_fit_unique(profs, earliest as int, d, w, e as int);
        }
        e
    }

    /// Visits the jobs in the given order. An unscheduled job has its
    /// estimate moved to the first time at which it fits; then, unless it may
    /// be scheduled already, each of its unscheduled successors is moved
    /// behind its end.
    pub fn propagate(
        &mut self,
        topo_order: &Vec<usize>,
        successors: &Vec<FixedBitSet>,
        duration: &Vec<isize>,
        consumption: &Vec<Vec<isize>>,
    )
        requires
            old(self).wf(),
            successors@.len() == old(self).n_jobs(),
            duration@.len() == old(self).n_jobs(),
            consumption@.len() == old(self).n_jobs(),
            forall|p: int| 0 <= p < topo_order@.len() ==> (#[trigger] topo_order@[p]) < old(self).n_jobs(),
            forall|i: int|
                0 <= i < old(self).n_jobs() ==> (#[trigger] consumption@[i])@.len() == old(
                    self,
                ).profile@.len() && tail_suffices(old(self)@.profile, consumption@[i]@),
        ensures
            final(self).earliest@ == propagated(
                old(self)@,
                topo_order@,
                successors@,
                duration@,
                consumption@,
                topo_order@.len(),
            ),
            final(self).done == old(self).done,
            final(self).maybe_done == old(self).maybe_done,
            final(self).profile == old(self).profile,
            final(self).depth == old(self).depth,
            final(self).wf(),
    {
        let ghost v = self@;
        let n = self.earliest.len();
        let mut p: usize = 0;
        while p < topo_order.len()
            invariant
                p <= topo_order@.len(),
                self.wf(),
                n == self.n_jobs(),
                successors@.len() == n,
                duration@.len() == n,
                consumption@.len() == n,
                forall|q: int| 0 <= q < topo_order@.len() ==> (#[trigger] topo_order@[q]) < n,
                forall|i: int|
                    0 <= i < n ==> (#[trigger] consumption@[i])@.len() == self.profile@.len()
                        && tail_suffices(v.profile, consumption@[i]@),
                v == old(self)@,
                self.done == old(self).done,
                self.maybe_done == old(self).maybe_done,
                self.profile == old(self).profile,
                self.depth == old(self).depth,
                self.earliest@ == propagated(
                    v,
                    topo_order@,
                    successors@,
                    duration@,
                    consumption@,
                    p as nat,
                ),
            decreases topo_order@.len() - p,
        {
            let i = topo_order[p];
            let ghost e = self.earliest@;
            let ghost succ = bitset_ones(successors@[i as int]);
            let ghost d = duration@[i as int] as int;
            let ghost w = consumption@[i as int]@;
            proof {
                assert(self@.profile =~= v.profile);
                assert(consumption@[i as int]@.len() == self.profile@.len());
            }
            if !self.done.contains(i) {
                let ei = self.get_earliest_start(self.earliest[i], duration[i], &consumption[i]);
                self.earliest.set(i, ei);
                let ghost e1 = self.earliest@;
                let maybe = match &self.maybe_done {
                    Some(m) => m.contains(i),
                    None => false,
                };
                if !maybe {
                    let reach = saturating_sum(ei, duration[i]);
                    let mut j: usize = 0;
                    while j < n
                        invariant
                            j <= n,
                            n == e1.len(),
                            i < n,
                            successors@.len() == n,
                            self.earliest@.len() == n,
                            succ == bitset_ones(successors@[i as int]),
                            reach == sat_add(ei as int, d),
                            0 <= ei,
                            forall|x: int| 0 <= x < n ==> 0 <= #[trigger] e1[x],
                            self.done == old(self).done,
                            self.maybe_done == old(self).maybe_done,
                            self.profile == old(self).profile,
                            self.depth == old(self).depth,
                            forall|x: int|
                                0 <= x < n ==> #[trigger] self.earliest@[x] == if x < j
                                    && succ.contains(x) && !bitset_ones(self.done).contains(x)
                                    && e1[x] < reach {
                                    reach
                                } else {
                                    e1[x]
                                },
                        decreases n - j,
                    {
                        if successors[i].contains(j) && !self.done.contains(j) && self.earliest[j]
                            < reach {
                            self.earliest.set(j, reach);
                        }
                        j += 1;
                    }
                }
                proof {
                    assert(self.earliest@ =~= visited(v, e, i as int, succ, d, w));
                }
            }
            p += 1;
        }
    }

    /// Moves the time origin to the smallest estimate among the unscheduled
    /// jobs, when that is positive: every profile is moved forward by it and
    /// it is taken off the estimate of every unscheduled job.
    pub fn forward_to_earliest(&mut self)
        requires
            old(self).wf(),
        ensures
            final(self)@ == shifted(old(self)@),
            final(self).done == old(self).done,
            final(self).maybe_done == old(self).maybe_done,
            final(self).wf(),
    {
        let ghost v = self@;
        let n = self.earliest.len();
        let mut found = false;
        let mut m: isize = 0;
        let mut i: usize = 0;
        let ghost mut at: int = 0;
        while i < n
            invariant
                i <= n,
                n == self.earliest@.len(),
                v == self@,
                found ==> 0 <= at < i && !v.done.contains(at) && v.earliest[at] == m,
                found ==> forall|j: int| 0 <= j < i && !v.done.contains(j) ==> m <= v.earliest[j],
                !found ==> forall|j: int| 0 <= j < i ==> v.done.contains(j),
            decreases n - i,
        {
            if !self.done.contains(i) {
                let e = self.earliest[i];
                if !found || e < m {
                    m = e;
                    found = true;
                    proof {
                        at = i as int;
                    }
                }
            }
            i += 1;
        }
        proof {
            if found {
                assert(is_min_open(v, m as int));
                lemma_min_open_unique(v, m as int);
            } else {
                assert(!has_open(v));
            }
        }
        if found && m > 0 {
            let k = self.profile.len();
            let mut r: usize = 0;
            while r < k
                invariant
                    r <= k,
                    k == self.profile@.len(),
                    k == v.profile.len(),
                    0 < m,
                    all_well_formed(v.profile),
                    self.done == old(self).done,
                    self.maybe_done == old(self).maybe_done,
                    self.earliest == old(self).earliest,
                    self.depth == old(self).depth,
                    forall|q: int|
                        0 <= q < r ==> (#[trigger] self.profile@[q])@ == forwarded(
                            v.profile[q],
                            m as int,
                        ),
                    forall|q: int| r <= q < k ==> (#[trigger] self.profile@[q])@ == v.profile[q],
                decreases k - r,
            {
                proof {
                    assert(well_formed(v.profile[r as int]));
                }
                self.profile[r].forward_by(m);
                r += 1;
            }
            let mut j: usize = 0;
            while j < n
                invariant
                    j <= n,
                    n == self.earliest@.len(),
                    n == v.earliest.len(),
                    0 < m,
                    v.done == bitset_ones(self.done),
                    forall|x: int| 0 <= x < n && !v.done.contains(x) ==> m <= v.earliest[x],
                    self.done == old(self).done,
                    self.maybe_done == old(self).maybe_done,
                    self.depth == old(self).depth,
                    forall|q: int|
                        0 <= q < self.profile@.len() ==> (#[trigger] self.profile@[q])@
                            == forwarded(v.profile[q], m as int),
                    self.profile@.len() == v.profile.len(),
                    forall|x: int|
                        0 <= x < n ==> #[trigger] self.earliest@[x] == if x < j
                            && !v.done.contains(x) {
                            (v.earliest[x] - m) as isize
                        } else {
                            v.earliest[x]
                        },
                decreases n - j,
            {
                if !self.done.contains(j) {
                    let e = self.earliest[j];
                    self.earliest.set(j, e - m);
                }
                j += 1;
            }
            proof {
                assert(self@.profile =~= shifted(v).profile);
                assert(self@.earliest =~= shifted(v).earliest);
                assert forall|q: int| 0 <= q < self@.profile.len() implies well_formed(
                    #[trigger] self@.profile[q],
                ) by {
                    assert(well_formed(v.profile[q]));
                    lemma_forwarded(v.profile[q], m as int);
                }
            }
        }
    }

    /// Merges, resource by resource, the given profiles into this state's.
    pub fn merge_consumption_profile(&mut self, profile: &Vec<ConsumptionProfile>)
        requires
            all_well_formed(old(self)@.profile),
            profile@.len() == old(self).profile@.len(),
            forall|r: int| 0 <= r < profile@.len() ==> (#[trigger] profile@[r]).wf(),
        ensures
            final(self).profile@.len() == old(self).profile@.len(),
            forall|r: int|
                0 <= r < profile@.len() ==> is_merge(
                    old(self)@.profile[r],
                    profile@[r]@,
                    #[trigger] final(self)@.profile[r],
                ),
            all_well_formed(final(self)@.profile),
            final(self).done == old(self).done,
            final(self).maybe_done == old(self).maybe_done,
            final(self).earliest == old(self).earliest,
            final(self).depth == old(self).depth,
    {
        let ghost before = self@.profile;
        let n = self.profile.len();
        let mut i: usize = 0;
        while i < n
            invariant
                i <= n,
                n == self.profile@.len(),
                n == before.len(),
                n == profile@.len(),
                all_well_formed(before),
                forall|r: int| 0 <= r < n ==> (#[trigger] profile@[r]).wf(),
                self.done == old(self).done,
                self.maybe_done == old(self).maybe_done,
                self.earliest == old(self).earliest,
                self.depth == old(self).depth,
                forall|r: int|
                    0 <= r < i ==> is_merge(before[r], profile@[r]@, (#[trigger] self.profile@[r])@),
                forall|r: int| i <= r < n ==> (#[trigger] self.profile@[r])@ == before[r],
            decreases n - i,
        {
            proof {
                assert(well_formed(before[i as int]));
                assert(profile@[i as int].wf());
            }
            self.profile[i].merge_consumption_profile(&profile[i]);
            i += 1;
        }
        proof {
            assert forall|r: int| 0 <= r < profile@.len() implies is_merge(
                before[r],
                profile@[r]@,
                #[trigger] self@.profile[r],
            ) by {
                assert(is_merge(before[r], profile@[r]@, self.profile@[r]@));
            }
        }
    }
}

} // verus!
