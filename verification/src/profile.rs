//! Remaining capacity of one resource over time, as a list of steps.
//!
//! A profile is read as a function from time to remaining capacity
//! ([`rem_at`]); the operations are specified by what they do to that
//! function and, where the list itself matters, by the list they leave.

use std::collections::VecDeque;
use vstd::prelude::*;

verus! {

/// The half-open interval `[start, end)` with the capacity left throughout it.
/// An `end` of `isize::MAX` stands for "never".
#[derive(Debug, Clone, Copy, Hash, PartialEq, Eq)]
pub struct ConsumptionStep {
    pub start: isize,
    pub end: isize,
    pub rem_capacity: isize,
}

/// The steps of one resource, in time order.
#[derive(Debug, Hash, PartialEq, Eq)]
pub struct ConsumptionProfile {
    pub steps: VecDeque<ConsumptionStep>,
}

impl View for ConsumptionProfile {
    type V = Seq<ConsumptionStep>;

    open spec fn view(&self) -> Seq<ConsumptionStep> {
        self.steps@
    }
}

/// Whether time `t` falls into step `h`. A step that ends at `isize::MAX`
/// never ends.
pub open spec fn step_covers(h: ConsumptionStep, t: int) -> bool {
    h.start <= t && (t < h.end || h.end == isize::MAX)
}

/// Every step is non-empty and each begins where the one before it ends.
pub open spec fn is_chain(s: Seq<ConsumptionStep>) -> bool {
    &&& forall|k: int| 0 <= k < s.len() ==> (#[trigger] s[k]).start < s[k].end
    &&& forall|k: int|
        #![trigger s[k], s[k + 1]]
        0 <= k < s.len() - 1 ==> s[k].end == s[k + 1].start
}

/// The steps partition the time axis from 0 on.
pub open spec fn well_formed(s: Seq<ConsumptionStep>) -> bool {
    &&& s.len() > 0
    &&& is_chain(s)
    &&& s[0].start == 0
    &&& s[s.len() - 1].end == isize::MAX
}

/// No two neighbouring steps have the same capacity.
pub open spec fn canonical(s: Seq<ConsumptionStep>) -> bool {
    forall|k: int|
        #![trigger s[k], s[k + 1]]
        0 <= k < s.len() - 1 ==> s[k].rem_capacity != s[k + 1].rem_capacity
}

/// The capacity left at time `t`: that of the step into which `t` falls.
pub open spec fn rem_at(s: Seq<ConsumptionStep>, t: int) -> int {
    s[choose|k: int| 0 <= k < s.len() && step_covers(s[k], t)].rem_capacity as int
}

/// Whether step `h` meets the window `[a, b)`.
pub open spec fn meets(h: ConsumptionStep, a: int, b: int) -> bool {
    a < h.end && h.start < b
}

/// Step `h` cut at the bounds of the window `[a, b)`, with the part inside
/// the window lowered by `c`: up to three steps.
pub open spec fn cut_step(h: ConsumptionStep, a: int, b: int, c: int) -> Seq<ConsumptionStep> {
    let lo = if h.start < a { a } else { h.start as int };
    let hi = if b < h.end { b } else { h.end as int };
    if !meets(h, a, b) {
        seq![h]
    } else {
        let left = if h.start < lo {
            seq![ConsumptionStep { start: h.start, end: lo as isize, rem_capacity: h.rem_capacity }]
        } else {
            Seq::empty()
        };
        let mid = seq![
            ConsumptionStep {
                start: lo as isize,
                end: hi as isize,
                rem_capacity: (h.rem_capacity - c) as isize,
            },
        ];
        let right = if hi < h.end {
            seq![ConsumptionStep { start: hi as isize, end: h.end, rem_capacity: h.rem_capacity }]
        } else {
            Seq::empty()
        };
        left + mid + right
    }
}

/// Every step of `s` cut at the window `[a, b)` and lowered inside it.
pub open spec fn cut_all(s: Seq<ConsumptionStep>, a: int, b: int, c: int) -> Seq<ConsumptionStep>
    decreases s.len(),
{
    if s.len() == 0 {
        s
    } else {
        cut_all(s.drop_last(), a, b, c) + cut_step(s.last(), a, b, c)
    }
}

/// The steps after `c` units are taken during `[a, b)`. Nothing changes when
/// the window is empty or `c` is 0.
pub open spec fn lowered(s: Seq<ConsumptionStep>, a: int, b: int, c: int) -> Seq<ConsumptionStep> {
    if b <= a || c == 0 {
        s
    } else {
        cut_all(s, a, b, c)
    }
}

/// Lowering every step that meets `[a, b)` by `c` stays within `isize`.
pub open spec fn can_lower(s: Seq<ConsumptionStep>, a: int, b: int, c: int) -> bool {
    forall|k: int|
        0 <= k < s.len() && meets(#[trigger] s[k], a, b) ==> isize::MIN <= s[k].rem_capacity - c
            <= isize::MAX
}

/// Whether a job that needs `w` units for `d` time units can start at `e`:
/// the capacity is at least `w` at `e` and throughout `[e, e + d)`.
pub open spec fn fits(s: Seq<ConsumptionStep>, e: int, d: int, w: int) -> bool {
    forall|t: int| e <= t < e + (if d > 0 { d } else { 1 }) ==> #[trigger] rem_at(s, t) >= w
}

/// No start time in `[lo, hi)` fits.
pub open spec fn none_fits(s: Seq<ConsumptionStep>, lo: int, hi: int, d: int, w: int) -> bool {
    forall|x: int| lo <= x < hi ==> !#[trigger] fits(s, x, d, w)
}

/// The later of `e` and the beginning of step `k`.
pub open spec fn not_before(s: Seq<ConsumptionStep>, k: int, e: int) -> int {
    if s[k].start > e {
        s[k].start as int
    } else {
        e
    }
}

/// The steps from `i` up to, not including, `j` all leave at least `w`, and
/// none of them reaches `d` time units beyond `c0`.
pub open spec fn run_is_short(
    s: Seq<ConsumptionStep>,
    i: int,
    j: int,
    c0: int,
    d: int,
    w: int,
) -> bool {
    forall|k: int|
        i <= k < j ==> (#[trigger] s[k]).rem_capacity >= w && s[k].end < isize::MAX && s[k].end
            - c0 < d
}

/// The index of the step into which time `t` falls.
pub open spec fn index_at(s: Seq<ConsumptionStep>, t: int) -> int {
    choose|k: int| 0 <= k < s.len() && step_covers(s[k], t)
}

/// The steps as seen from `delta` time units later: those that are over by
/// then are gone, the others are moved back by `delta`, the first one starts
/// at 0 and the last one never ends.
pub open spec fn forwarded(s: Seq<ConsumptionStep>, delta: int) -> Seq<ConsumptionStep> {
    let k = index_at(s, delta);
    Seq::new(
        (s.len() - k) as nat,
        |m: int|
            ConsumptionStep {
                start: if m == 0 {
                    0
                } else {
                    (s[k + m].start - delta) as isize
                },
                end: if k + m == s.len() - 1 {
                    isize::MAX
                } else {
                    (s[k + m].end - delta) as isize
                },
                rem_capacity: s[k + m].rem_capacity,
            },
    )
}

/// `r` is the merge of `p` and `q`: the well-formed list without equal
/// neighbours whose capacity is, at every time, the larger of the two.
pub open spec fn is_merge(
    p: Seq<ConsumptionStep>,
    q: Seq<ConsumptionStep>,
    r: Seq<ConsumptionStep>,
) -> bool {
    &&& well_formed(r)
    &&& canonical(r)
    &&& forall|t: int|
        0 <= t ==> #[trigger] rem_at(r, t) == if rem_at(p, t) >= rem_at(q, t) {
            rem_at(p, t)
        } else {
            rem_at(q, t)
        }
}

/// The list `s` with the steps at `i` and `i + 1` joined into one.
pub open spec fn fused(s: Seq<ConsumptionStep>, i: int) -> Seq<ConsumptionStep> {
    s.take(i).push(
        ConsumptionStep { start: s[i].start, end: s[i + 1].end, rem_capacity: s[i].rem_capacity },
    ) + s.skip(i + 2)
}

/// Every step leaves between 0 and `cap` units.
pub open spec fn within(s: Seq<ConsumptionStep>, cap: int) -> bool {
    forall|k: int| 0 <= k < s.len() ==> 0 <= (#[trigger] s[k]).rem_capacity <= cap
}

/// The capacity of the last step: what is left once everything is over.
pub open spec fn tail_capacity(s: Seq<ConsumptionStep>) -> int {
    s[s.len() - 1].rem_capacity as int
}

/// The profile of a resource of which nothing is taken.
pub open spec fn untouched(cap: isize) -> Seq<ConsumptionStep> {
    seq![ConsumptionStep { start: 0, end: isize::MAX, rem_capacity: cap }]
}

/// What the jobs take together at time `t`. A job is given by its start, its
/// duration and the amount that it takes.
pub open spec fn load(jobs: Seq<(int, int, int)>, t: int) -> int
    decreases jobs.len(),
{
    if jobs.len() == 0 {
        0
    } else {
        let job = jobs.last();
        load(jobs.drop_last(), t) + if job.0 <= t < job.0 + job.1 {
            job.2
        } else {
            0
        }
    }
}

/// The steps after the jobs have been entered one after the other.
pub open spec fn lowered_by_all(
    s: Seq<ConsumptionStep>,
    jobs: Seq<(int, int, int)>,
) -> Seq<ConsumptionStep>
    decreases jobs.len(),
{
    if jobs.len() == 0 {
        s
    } else {
        let job = jobs.last();
        lowered(lowered_by_all(s, jobs.drop_last()), job.0, job.0 + job.1, job.2)
    }
}

/// In a chain, an earlier step ends no later than a later one begins, and it
/// does end.
pub proof fn lemma_chain_order(s: Seq<ConsumptionStep>, i: int, j: int)
    requires
        is_chain(s),
        0 <= i < j < s.len(),
    ensures
        s[i].end <= s[j].start,
        s[i].end < isize::MAX,
    decreases j - i,
{
    if i + 1 < j {
        lemma_chain_order(s, i, j - 1);
        assert(s[j - 1].end == s[j - 1 + 1].start);
        assert(s[j - 1].start < s[j - 1].end);
    } else {
        assert(s[i].end == s[i + 1].start);
    }
    assert(s[j].start < s[j].end);
}

/// In a chain at most one step covers a given time, so any step that does
/// gives the capacity at that time.
pub proof fn lemma_rem_at(s: Seq<ConsumptionStep>, k: int, t: int)
    requires
        is_chain(s),
        0 <= k < s.len(),
        step_covers(s[k], t),
    ensures
        rem_at(s, t) == s[k].rem_capacity,
{
    let c = choose|c: int| 0 <= c < s.len() && step_covers(s[c], t);
    if c < k {
        lemma_chain_order(s, c, k);
    } else if k < c {
        lemma_chain_order(s, k, c);
    }
}

proof fn lemma_cover_from(s: Seq<ConsumptionStep>, t: int, i: int) -> (k: int)
    requires
        is_chain(s),
        0 <= i < s.len(),
        s[s.len() - 1].end == isize::MAX,
        s[i].start <= t,
    ensures
        i <= k < s.len(),
        step_covers(s[k], t),
    decreases s.len() - i,
{
    if t < s[i].end || s[i].end == isize::MAX {
        i
    } else {
        assert(s[i].end == s[i + 1].start);
        lemma_cover_from(s, t, i + 1)
    }
}

/// Every time from 0 on falls into some step of a well-formed profile.
pub proof fn lemma_cover_exists(s: Seq<ConsumptionStep>, t: int) -> (k: int)
    requires
        well_formed(s),
        0 <= t,
    ensures
        0 <= k < s.len(),
        step_covers(s[k], t),
        rem_at(s, t) == s[k].rem_capacity,
{
    let k = lemma_cover_from(s, t, 0);
    lemma_rem_at(s, k, t);
    k
}

/// The pieces of one cut step form a chain over the same interval.
proof fn lemma_cut_step_shape(h: ConsumptionStep, a: int, b: int, c: int)
    requires
        h.start < h.end,
        a < b,
    ensures
        cut_step(h, a, b, c).len() >= 1,
        is_chain(cut_step(h, a, b, c)),
        cut_step(h, a, b, c)[0].start == h.start,
        cut_step(h, a, b, c).last().end == h.end,
{
}

/// Whatever time a step covers, one of its pieces covers it, with the
/// capacity lowered exactly inside the window.
proof fn lemma_cut_step_covers(h: ConsumptionStep, a: int, b: int, c: int, t: int) -> (m: int)
    requires
        h.start < h.end,
        a < b < isize::MAX,
        step_covers(h, t),
        meets(h, a, b) ==> isize::MIN <= h.rem_capacity - c <= isize::MAX,
    ensures
        0 <= m < cut_step(h, a, b, c).len(),
        step_covers(cut_step(h, a, b, c)[m], t),
        cut_step(h, a, b, c)[m].rem_capacity == h.rem_capacity - if a <= t < b {
            c
        } else {
            0
        },
{
    let p = cut_step(h, a, b, c);
    if !meets(h, a, b) {
        0
    } else {
        let lo = if h.start < a { a } else { h.start as int };
        let hi = if b < h.end { b } else { h.end as int };
        let skip: int = if h.start < lo { 1 } else { 0 };
        if t < lo {
            0
        } else if t < hi {
            skip
        } else {
            skip + 1
        }
    }
}

/// Cutting a non-empty chain leaves a chain over the same span.
proof fn lemma_cut_all_shape(s: Seq<ConsumptionStep>, a: int, b: int, c: int)
    requires
        is_chain(s),
        s.len() > 0,
        a < b,
    ensures
        cut_all(s, a, b, c).len() >= s.len(),
        is_chain(cut_all(s, a, b, c)),
        cut_all(s, a, b, c)[0].start == s[0].start,
        cut_all(s, a, b, c).last().end == s.last().end,
    decreases s.len(),
{
    let front = s.drop_last();
    let pieces = cut_step(s.last(), a, b, c);
    assert(s.last() == s[s.len() - 1]);
    lemma_cut_step_shape(s.last(), a, b, c);
    if front.len() == 0 {
        assert(cut_all(front, a, b, c) =~= Seq::empty());
        assert(cut_all(s, a, b, c) =~= pieces);
    } else {
        assert(is_chain(front)) by {
            assert forall|k: int| 0 <= k < front.len() implies (#[trigger] front[k]).start
                < front[k].end by {
                assert(front[k] == s[k]);
            }
            assert forall|k: int|
                #![trigger front[k], front[k + 1]]
                0 <= k < front.len() - 1 implies front[k].end == front[k + 1].start by {
                assert(front[k] == s[k]);
                assert(front[k + 1] == s[k + 1]);
            }
        }
        lemma_cut_all_shape(front, a, b, c);
        let done = cut_all(front, a, b, c);
        let all = done + pieces;
        assert(front.last() == s[s.len() - 2]);
        assert(s[s.len() - 2].end == s[s.len() - 2 + 1].start);
        assert(done.last().end == pieces[0].start);
        assert(is_chain(all)) by {
            assert forall|k: int| 0 <= k < all.len() implies (#[trigger] all[k]).start
                < all[k].end by {
                if k < done.len() {
                    assert(all[k] == done[k]);
                } else {
                    assert(all[k] == pieces[k - done.len()]);
                }
            }
            assert forall|k: int|
                #![trigger all[k], all[k + 1]]
                0 <= k < all.len() - 1 implies all[k].end == all[k + 1].start by {
                if k < done.len() - 1 {
                    assert(all[k] == done[k]);
                    assert(all[k + 1] == done[k + 1]);
                } else if k == done.len() - 1 {
                    assert(all[k] == done[k]);
                    assert(all[k + 1] == pieces[0]);
                } else {
                    assert(all[k] == pieces[k - done.len()]);
                    assert(all[k + 1] == pieces[k - done.len() + 1]);
                }
            }
        }
        assert(all[0] == done[0]);
        assert(all.last() == pieces.last());
    }
}

/// Each piece of each cut step is found in the cut list.
proof fn lemma_cut_all_holds(s: Seq<ConsumptionStep>, a: int, b: int, c: int, k: int, m: int) -> (i:
    int)
    requires
        0 <= k < s.len(),
        0 <= m < cut_step(s[k], a, b, c).len(),
    ensures
        0 <= i < cut_all(s, a, b, c).len(),
        cut_all(s, a, b, c)[i] == cut_step(s[k], a, b, c)[m],
    decreases s.len(),
{
    let front = s.drop_last();
    let done = cut_all(front, a, b, c);
    if k == s.len() - 1 {
        done.len() + m
    } else {
        assert(front[k] == s[k]);
        lemma_cut_all_holds(front, a, b, c, k, m)
    }
}

/// Cutting one step more appends that step's pieces.
proof fn lemma_cut_all_next(s: Seq<ConsumptionStep>, a: int, b: int, c: int, k: int)
    requires
        0 <= k < s.len(),
    ensures
        cut_all(s.take(k + 1), a, b, c) == cut_all(s.take(k), a, b, c) + cut_step(s[k], a, b, c),
{
    assert(s.take(k + 1).drop_last() =~= s.take(k));
    assert(s.take(k + 1).last() == s[k]);
}

/// Steps that begin at or after the window's end are left as they are.
proof fn lemma_cut_all_tail(s: Seq<ConsumptionStep>, a: int, b: int, c: int, k: int)
    requires
        0 <= k <= s.len(),
        forall|j: int| k <= j < s.len() ==> !meets(#[trigger] s[j], a, b),
    ensures
        cut_all(s, a, b, c) == cut_all(s.take(k), a, b, c) + s.skip(k),
    decreases s.len() - k,
{
    if k == s.len() {
        assert(s.take(k) =~= s);
        assert(cut_all(s.take(k), a, b, c) + s.skip(k) =~= cut_all(s, a, b, c));
    } else {
        let front = s.drop_last();
        assert(forall|j: int| k <= j < front.len() ==> front[j] == s[j]);
        lemma_cut_all_tail(front, a, b, c, k);
        assert(front.take(k) =~= s.take(k));
        assert(cut_step(s.last(), a, b, c) =~= seq![s.last()]);
        assert(cut_all(s, a, b, c) =~= cut_all(s.take(k), a, b, c) + s.skip(k));
    }
}

/// What lowering does to a well-formed profile: it stays well-formed, and the
/// capacity drops by `c` exactly at the times inside `[a, b)`.
pub proof fn lemma_lowered(s: Seq<ConsumptionStep>, a: int, b: int, c: int)
    requires
        well_formed(s),
        b < isize::MAX,
        can_lower(s, a, b, c),
    ensures
        well_formed(lowered(s, a, b, c)),
        forall|t: int|
            0 <= t ==> #[trigger] rem_at(lowered(s, a, b, c), t) == rem_at(s, t) - if a <= t < b {
                c
            } else {
                0
            },
{
    if b <= a || c == 0 {
        assert forall|t: int| 0 <= t implies #[trigger] rem_at(lowered(s, a, b, c), t) == rem_at(
            s,
            t,
        ) - if a <= t < b {
            c
        } else {
            0
        } by {}
    } else {
        let r = cut_all(s, a, b, c);
        lemma_cut_all_shape(s, a, b, c);
        assert(s.last() == s[s.len() - 1]);
        assert(r.last() == r[r.len() - 1]);
        assert forall|t: int| 0 <= t implies #[trigger] rem_at(r, t) == rem_at(s, t) - if a <= t
            < b {
            c
        } else {
            0
        } by {
            let k = lemma_cover_exists(s, t);
            let m = lemma_cut_step_covers(s[k], a, b, c, t);
            let i = lemma_cut_all_holds(s, a, b, c, k, m);
            lemma_rem_at(r, i, t);
        }
    }
}

/// Within a chain, a time between the beginning of step `i` and the end of
/// step `j` falls into one of the steps from `i` to `j`.
proof fn lemma_cover_between(s: Seq<ConsumptionStep>, i: int, j: int, t: int) -> (k: int)
    requires
        is_chain(s),
        0 <= i <= j < s.len(),
        s[i].start <= t,
        t < s[j].end || s[j].end == isize::MAX,
    ensures
        i <= k <= j,
        step_covers(s[k], t),
    decreases j - i,
{
    if t < s[i].end || s[i].end == isize::MAX {
        i
    } else {
        assert(s[i].end == s[i + 1].start);
        lemma_cover_between(s, i + 1, j, t)
    }
}

/// A step that is over by `e`, or too low, holds no start time from `lb` on.
proof fn lemma_step_passed(s: Seq<ConsumptionStep>, lb: int, i: int, e: int, d: int, w: int)
    requires
        well_formed(s),
        0 <= i < s.len(),
        e <= lb,
        none_fits(s, lb, s[i].start as int, d, w),
        (s[i].end <= e && s[i].end != isize::MAX) || s[i].rem_capacity < w,
        w <= s[s.len() - 1].rem_capacity,
    ensures
        i + 1 < s.len(),
        none_fits(s, lb, s[i + 1].start as int, d, w),
{
    assert(s[i].end == s[i + 1].start);
    assert forall|x: int| lb <= x < s[i + 1].start implies !#[trigger] fits(s, x, d, w) by {
        if s[i].start <= x {
            lemma_rem_at(s, i, x);
        }
    }
}

/// A run of steps that all leave at least `w` and that lasts long enough
/// from `c0` on lets the job start at `c0`.
proof fn lemma_run_fits(s: Seq<ConsumptionStep>, i: int, j: int, c0: int, d: int, w: int)
    requires
        well_formed(s),
        0 <= i <= j < s.len(),
        run_is_short(s, i, j, c0, d, w),
        s[j].rem_capacity >= w,
        s[j].end == isize::MAX || s[j].end - c0 >= d,
        s[i].start <= c0,
        c0 < s[i].end || s[i].end == isize::MAX,
    ensures
        fits(s, c0, d, w),
{
    assert forall|t: int| c0 <= t < c0 + (if d > 0 {
        d
    } else {
        1
    }) implies #[trigger] rem_at(s, t) >= w by {
        if d <= 0 && i < j {
            assert(s[i].end - c0 < d);
        }
        let k = lemma_cover_between(s, i, j, t);
        lemma_rem_at(s, k, t);
        if k < j {
            assert(s[k].rem_capacity >= w);
        }
    }
}

/// A run that a too low step cuts short holds no start time, and neither
/// does that step.
proof fn lemma_run_blocked(s: Seq<ConsumptionStep>, lb: int, i: int, j: int, e: int, d: int, w: int)
    requires
        well_formed(s),
        0 <= i <= j < s.len(),
        0 <= e <= lb,
        none_fits(s, lb, s[i].start as int, d, w),
        run_is_short(s, i, j, not_before(s, i, e), d, w),
        s[i].rem_capacity >= w,
        s[j].rem_capacity < w,
        w <= s[s.len() - 1].rem_capacity,
    ensures
        j + 1 < s.len(),
        none_fits(s, lb, s[j + 1].start as int, d, w),
{
    let c0 = not_before(s, i, e);
    assert(i < j);
    assert(s[j - 1].end == s[j - 1 + 1].start);
    assert(s[j - 1].end - c0 < d);
    assert(s[j].end == s[j + 1].start);
    lemma_starts_nonnegative(s, j);
    assert forall|x: int| lb <= x < s[j + 1].start implies !#[trigger] fits(s, x, d, w) by {
        if x < s[i].start {
        } else if x < s[j].start {
            assert(x >= c0);
            lemma_rem_at(s, j, s[j].start as int);
            assert(x <= s[j].start < x + d);
        } else {
            lemma_rem_at(s, j, x);
        }
    }
}

/// In a chain the step that covers a time is the only one that does.
pub proof fn lemma_index_at(s: Seq<ConsumptionStep>, k: int, t: int)
    requires
        is_chain(s),
        0 <= k < s.len(),
        step_covers(s[k], t),
    ensures
        index_at(s, t) == k,
{
    let c = index_at(s, t);
    if c < k {
        lemma_chain_order(s, c, k);
    } else if k < c {
        lemma_chain_order(s, k, c);
    }
}

/// No step of a well-formed profile begins before 0.
pub proof fn lemma_starts_nonnegative(s: Seq<ConsumptionStep>, k: int)
    requires
        well_formed(s),
        0 <= k < s.len(),
    ensures
        0 <= s[k].start,
        0 < s[k].end,
        k < s.len() - 1 ==> s[k].end < isize::MAX,
{
    if 0 < k {
        lemma_chain_order(s, 0, k);
        assert(s[0].start < s[0].end);
    }
    assert(s[k].start < s[k].end);
    if k < s.len() - 1 {
        lemma_chain_order(s, k, s.len() - 1);
    }
}

/// What moving the origin does to a well-formed profile: it stays
/// well-formed, reads at `t` what it read at `t + delta` before, and gains no
/// equal neighbours.
pub proof fn lemma_forwarded(s: Seq<ConsumptionStep>, delta: int)
    requires
        well_formed(s),
        0 <= delta <= isize::MAX,
    ensures
        well_formed(forwarded(s, delta)),
        forall|t: int| 0 <= t ==> #[trigger] rem_at(forwarded(s, delta), t) == rem_at(s, t + delta),
        canonical(s) ==> canonical(forwarded(s, delta)),
{
    let k = lemma_cover_exists(s, delta);
    lemma_index_at(s, k, delta);
    let r = forwarded(s, delta);
    assert(r.len() == s.len() - k);
    assert forall|m: int| 0 <= m < r.len() implies (#[trigger] r[m]).start < r[m].end by {
        lemma_starts_nonnegative(s, k + m);
        if m > 0 {
            lemma_chain_order(s, k, k + m);
        }
        assert(s[k + m].start < s[k + m].end);
    }
    assert forall|m: int|
                #![trigger r[m], r[m + 1]]
                0 <= m < r.len() - 1 implies r[m].end == r[m + 1].start by {
        assert(s[k + m].end == s[k + m + 1].start);
        lemma_starts_nonnegative(s, k + m);
    }
    assert forall|t: int| 0 <= t implies #[trigger] rem_at(r, t) == rem_at(s, t + delta) by {
        let j = lemma_cover_exists(s, t + delta);
        if j < k {
            lemma_chain_order(s, j, k);
        }
        lemma_starts_nonnegative(s, j);
        if j > k {
            lemma_chain_order(s, k, j);
        }
        assert(step_covers(r[j - k], t));
        lemma_rem_at(r, j - k, t);
    }
    if canonical(s) {
        assert forall|m: int|
                #![trigger r[m], r[m + 1]]
                0 <= m < r.len() - 1 implies r[m].rem_capacity != r[m + 1].rem_capacity by {
            assert(s[k + m].rem_capacity != s[k + m + 1].rem_capacity);
        }
    }
}

/// Joining two neighbours of equal capacity changes no reading.
pub proof fn lemma_fused(s: Seq<ConsumptionStep>, i: int)
    requires
        well_formed(s),
        0 <= i < s.len() - 1,
        s[i].rem_capacity == s[i + 1].rem_capacity,
    ensures
        well_formed(fused(s, i)),
        fused(s, i).len() == s.len() - 1,
        forall|k: int| 0 <= k < i ==> fused(s, i)[k] == s[k],
        fused(s, i)[i].rem_capacity == s[i].rem_capacity,
        forall|t: int| 0 <= t ==> #[trigger] rem_at(fused(s, i), t) == rem_at(s, t),
{
    let n = fused(s, i);
    let z = ConsumptionStep {
        start: s[i].start,
        end: s[i + 1].end,
        rem_capacity: s[i].rem_capacity,
    };
    assert(n.len() == s.len() - 1);
    assert(forall|k: int| 0 <= k < i ==> n[k] == s[k]);
    assert(n[i] == z);
    assert(forall|k: int| i < k < n.len() ==> n[k] == s[k + 1]);
    assert(s[i].end == s[i + 1].start);
    assert(s[i].start < s[i].end);
    assert(s[i + 1].start < s[i + 1].end);
    assert forall|k: int| 0 <= k < n.len() implies (#[trigger] n[k]).start < n[k].end by {
        if k < i {
            assert(s[k].start < s[k].end);
        } else if k > i {
            assert(s[k + 1].start < s[k + 1].end);
        }
    }
    assert forall|k: int|
                #![trigger n[k], n[k + 1]]
                0 <= k < n.len() - 1 implies n[k].end == n[k + 1].start by {
        if k < i {
            assert(s[k].end == s[k + 1].start);
        } else {
            assert(s[k + 1].end == s[k + 1 + 1].start);
        }
    }
    assert forall|t: int| 0 <= t implies #[trigger] rem_at(n, t) == rem_at(s, t) by {
        let x = lemma_cover_exists(s, t);
        if x < i {
            lemma_rem_at(n, x, t);
        } else if x <= i + 1 {
            lemma_starts_nonnegative(s, i);
            assert(step_covers(n[i], t));
            lemma_rem_at(n, i, t);
        } else {
            lemma_rem_at(n, x - 1, t);
        }
    }
}

proof fn lemma_same_readings_same_prefix(r1: Seq<ConsumptionStep>, r2: Seq<ConsumptionStep>, k: int)
    requires
        well_formed(r1),
        well_formed(r2),
        canonical(r1),
        canonical(r2),
        forall|t: int| 0 <= t ==> rem_at(r1, t) == rem_at(r2, t),
        0 <= k < r1.len(),
    ensures
        k < r2.len(),
        r1[k] == r2[k],
    decreases k,
{
    if k > 0 {
        lemma_same_readings_same_prefix(r1, r2, k - 1);
        assert(r1[k - 1].end == r1[k - 1 + 1].start);
        lemma_starts_nonnegative(r1, k - 1);
        if k >= r2.len() {
            assert(r2[k - 1] == r2[r2.len() - 1]);
            assert(false);
        }
        assert(r2[k - 1].end == r2[k - 1 + 1].start);
    }
    let a = r1[k];
    let b = r2[k];
    assert(a.start == b.start);
    lemma_starts_nonnegative(r1, k);
    lemma_starts_nonnegative(r2, k);
    assert(a.start < a.end && b.start < b.end);
    lemma_rem_at(r1, k, a.start as int);
    lemma_rem_at(r2, k, a.start as int);
    assert(a.rem_capacity == b.rem_capacity);
    if a.end < b.end {
        assert(r1[k].end == r1[k + 1].start);
        assert(r1[k + 1].start < r1[k + 1].end);
        lemma_rem_at(r1, k + 1, a.end as int);
        lemma_rem_at(r2, k, a.end as int);
        assert(r1[k].rem_capacity != r1[k + 1].rem_capacity);
        assert(false);
    } else if b.end < a.end {
        assert(r2[k].end == r2[k + 1].start);
        assert(r2[k + 1].start < r2[k + 1].end);
        lemma_rem_at(r2, k + 1, b.end as int);
        lemma_rem_at(r1, k, b.end as int);
        assert(r2[k].rem_capacity != r2[k + 1].rem_capacity);
        assert(false);
    }
}

/// Two well-formed profiles without equal neighbours that read the same at
/// every time are the same list of steps.
pub proof fn lemma_canonical_unique(r1: Seq<ConsumptionStep>, r2: Seq<ConsumptionStep>)
    requires
        well_formed(r1),
        well_formed(r2),
        canonical(r1),
        canonical(r2),
        forall|t: int| 0 <= t ==> rem_at(r1, t) == rem_at(r2, t),
    ensures
        r1 == r2,
{
    lemma_same_readings_same_prefix(r1, r2, r1.len() - 1);
    lemma_same_readings_same_prefix(r2, r1, r2.len() - 1);
    assert forall|k: int| 0 <= k < r1.len() implies r1[k] == r2[k] by {
        lemma_same_readings_same_prefix(r1, r2, k);
    }
    assert(r1 =~= r2);
}

/// The merge does not depend on the order of its two arguments.
pub proof fn lemma_merge_commutative(
    p: Seq<ConsumptionStep>,
    q: Seq<ConsumptionStep>,
    pq: Seq<ConsumptionStep>,
    qp: Seq<ConsumptionStep>,
)
    requires
        is_merge(p, q, pq),
        is_merge(q, p, qp),
    ensures
        pq == qp,
{
    assert forall|t: int| 0 <= t implies rem_at(pq, t) == rem_at(qp, t) by {
        assert(rem_at(pq, t) >= rem_at(p, t));
        assert(rem_at(qp, t) >= rem_at(p, t));
    }
    lemma_canonical_unique(pq, qp);
}

/// Merging three profiles gives the same list however they are grouped.
pub proof fn lemma_merge_associative(
    p: Seq<ConsumptionStep>,
    q: Seq<ConsumptionStep>,
    s: Seq<ConsumptionStep>,
    pq: Seq<ConsumptionStep>,
    qs: Seq<ConsumptionStep>,
    left: Seq<ConsumptionStep>,
    right: Seq<ConsumptionStep>,
)
    requires
        is_merge(p, q, pq),
        is_merge(pq, s, left),
        is_merge(q, s, qs),
        is_merge(p, qs, right),
    ensures
        left == right,
{
    assert forall|t: int| 0 <= t implies rem_at(left, t) == rem_at(right, t) by {
        assert(rem_at(pq, t) >= rem_at(p, t));
        assert(rem_at(qs, t) >= rem_at(q, t));
        assert(rem_at(left, t) >= rem_at(pq, t));
        assert(rem_at(right, t) >= rem_at(p, t));
    }
    lemma_canonical_unique(left, right);
}

/// Merging a profile without equal neighbours with itself gives it back.
pub proof fn lemma_merge_idempotent(p: Seq<ConsumptionStep>, r: Seq<ConsumptionStep>)
    requires
        well_formed(p),
        canonical(p),
        is_merge(p, p, r),
    ensures
        r == p,
{
    assert forall|t: int| 0 <= t implies rem_at(r, t) == rem_at(p, t) by {
        assert(rem_at(r, t) >= rem_at(p, t));
    }
    lemma_canonical_unique(r, p);
}

/// Merging a profile with itself only joins its equal neighbours: the result
/// reads as the profile does.
pub proof fn lemma_merge_self_reads_same(p: Seq<ConsumptionStep>, r: Seq<ConsumptionStep>, t: int)
    requires
        is_merge(p, p, r),
        0 <= t,
    ensures
        rem_at(r, t) == rem_at(p, t),
{
    assert(rem_at(r, t) >= rem_at(p, t));
}

/// A well-formed profile that reads between 0 and `cap` at every time has
/// every step between 0 and `cap`.
pub proof fn lemma_within_from_readings(s: Seq<ConsumptionStep>, cap: int)
    requires
        well_formed(s),
        forall|t: int| 0 <= t ==> 0 <= #[trigger] rem_at(s, t) <= cap,
    ensures
        within(s, cap),
{
    assert forall|k: int| 0 <= k < s.len() implies 0 <= (#[trigger] s[k]).rem_capacity <= cap by {
        lemma_starts_nonnegative(s, k);
        assert(s[k].start < s[k].end);
        lemma_rem_at(s, k, s[k].start as int);
        assert(0 <= rem_at(s, s[k].start as int) <= cap);
    }
}

/// A well-formed profile whose steps are between 0 and `cap` reads between 0
/// and `cap` at every time.
pub proof fn lemma_readings_from_within(s: Seq<ConsumptionStep>, cap: int, t: int)
    requires
        well_formed(s),
        within(s, cap),
        0 <= t,
    ensures
        0 <= rem_at(s, t) <= cap,
{
    let k = lemma_cover_exists(s, t);
}

/// What a well-formed profile reads at `isize::MAX` is its last capacity.
pub proof fn lemma_tail_reading(s: Seq<ConsumptionStep>, t: int)
    requires
        well_formed(s),
        isize::MAX <= t,
    ensures
        rem_at(s, t) == tail_capacity(s),
{
    lemma_starts_nonnegative(s, s.len() - 1);
    lemma_rem_at(s, s.len() - 1, t);
}

/// Taking `c` units where at least `c` are left keeps every step between 0
/// and `cap`, and leaves the last capacity as it is.
pub proof fn lemma_lowered_within(s: Seq<ConsumptionStep>, a: int, b: int, c: int, cap: int)
    requires
        well_formed(s),
        within(s, cap),
        0 <= c <= cap,
        cap <= isize::MAX,
        b < isize::MAX,
        forall|t: int| 0 <= t && a <= t < b ==> #[trigger] rem_at(s, t) >= c,
    ensures
        can_lower(s, a, b, c),
        well_formed(lowered(s, a, b, c)),
        within(lowered(s, a, b, c), cap),
        tail_capacity(lowered(s, a, b, c)) == tail_capacity(s),
{
    lemma_lowered(s, a, b, c);
    let r = lowered(s, a, b, c);
    assert forall|t: int| 0 <= t implies 0 <= #[trigger] rem_at(r, t) <= cap by {
        lemma_readings_from_within(s, cap, t);
        if a <= t < b {
            assert(rem_at(s, t) >= c);
        }
    }
    lemma_within_from_readings(r, cap);
    lemma_tail_reading(s, isize::MAX as int);
    lemma_tail_reading(r, isize::MAX as int);
}

/// Moving the origin keeps every step between 0 and `cap` and leaves the last
/// capacity as it is.
pub proof fn lemma_forwarded_within(s: Seq<ConsumptionStep>, delta: int, cap: int)
    requires
        well_formed(s),
        within(s, cap),
        0 <= delta <= isize::MAX,
    ensures
        well_formed(forwarded(s, delta)),
        within(forwarded(s, delta), cap),
        tail_capacity(forwarded(s, delta)) == tail_capacity(s),
{
    lemma_forwarded(s, delta);
    let r = forwarded(s, delta);
    assert forall|t: int| 0 <= t implies 0 <= #[trigger] rem_at(r, t) <= cap by {
        lemma_readings_from_within(s, cap, t + delta);
    }
    lemma_within_from_readings(r, cap);
    lemma_tail_reading(s, isize::MAX + delta);
    lemma_tail_reading(r, isize::MAX as int);
}

/// A job that could start at `e` can, once the origin has moved by `delta`,
/// start at `e - delta`.
pub proof fn lemma_forwarded_fits(s: Seq<ConsumptionStep>, delta: int, e: int, d: int, w: int)
    requires
        well_formed(s),
        0 <= delta <= isize::MAX,
        delta <= e,
        fits(s, e, d, w),
    ensures
        fits(forwarded(s, delta), e - delta, d, w),
{
    lemma_forwarded(s, delta);
    let r = forwarded(s, delta);
    assert forall|t: int| e - delta <= t < e - delta + (if d > 0 {
        d
    } else {
        1
    }) implies #[trigger] rem_at(r, t) >= w by {
        assert(rem_at(r, t) == rem_at(s, t + delta));
        assert(rem_at(s, t + delta) >= w);
    }
}

/// An untouched resource reads its capacity at every time, and any job that
/// takes no more than that can start at any time.
pub proof fn lemma_untouched(cap: isize)
    requires
        0 <= cap,
    ensures
        well_formed(untouched(cap)),
        canonical(untouched(cap)),
        within(untouched(cap), cap as int),
        tail_capacity(untouched(cap)) == cap,
        forall|t: int| 0 <= t ==> #[trigger] rem_at(untouched(cap), t) == cap,
        forall|e: int, d: int, w: int|
            0 <= e && w <= cap ==> #[trigger] fits(untouched(cap), e, d, w),
{
    let s = untouched(cap);
    assert(s[0].start == 0 && s[0].end == isize::MAX);
    assert forall|t: int| 0 <= t implies #[trigger] rem_at(s, t) == cap by {
        lemma_rem_at(s, 0, t);
    }
}

/// Jobs that never take more than the capacity, neither one alone nor those
/// that run at the same time together, can be entered one after the other
/// into an untouched profile: each entry stays within `isize`, and afterwards
/// the profile reads the capacity less the load and no step is below 0.
pub proof fn lemma_never_overdrawn(cap: isize, jobs: Seq<(int, int, int)>)
    requires
        0 <= cap,
        forall|i: int|
            0 <= i < jobs.len() ==> 0 <= (#[trigger] jobs[i]).2 <= cap && jobs[i].0 + jobs[i].1
                < isize::MAX,
        forall|t: int| 0 <= t ==> #[trigger] load(jobs, t) <= cap,
    ensures
        well_formed(lowered_by_all(untouched(cap), jobs)),
        within(lowered_by_all(untouched(cap), jobs), cap as int),
        forall|t: int|
            0 <= t ==> #[trigger] rem_at(lowered_by_all(untouched(cap), jobs), t) == cap - load(
                jobs,
                t,
            ),
        jobs.len() > 0 ==> can_lower(
            lowered_by_all(untouched(cap), jobs.drop_last()),
            jobs.last().0,
            jobs.last().0 + jobs.last().1,
            jobs.last().2,
        ),
    decreases jobs.len(),
{
    lemma_untouched(cap);
    if jobs.len() > 0 {
        let front = jobs.drop_last();
        let job = jobs.last();
        assert(job == jobs[jobs.len() - 1]);
        assert forall|i: int| 0 <= i < front.len() implies 0 <= (#[trigger] front[i]).2 <= cap
            && front[i].0 + front[i].1 < isize::MAX by {
            assert(front[i] == jobs[i]);
        }
        assert forall|t: int| 0 <= t implies #[trigger] load(front, t) <= cap by {
            assert(load(jobs, t) <= cap);
        }
        lemma_never_overdrawn(cap, front);
        let before = lowered_by_all(untouched(cap), front);
        assert forall|t: int| 0 <= t && job.0 <= t < job.0 + job.1 implies #[trigger] rem_at(
            before,
            t,
        ) >= job.2 by {
            assert(load(jobs, t) <= cap);
        }
        lemma_lowered_within(before, job.0, job.0 + job.1, job.2, cap as int);
        lemma_lowered(before, job.0, job.0 + job.1, job.2);
        assert forall|t: int| 0 <= t implies #[trigger] rem_at(
            lowered_by_all(untouched(cap), jobs),
            t,
        ) == cap - load(jobs, t) by {
            assert(rem_at(before, t) == cap - load(front, t));
        }
    }
}

/// Joins the steps at `i` and `i + 1` into one that has the capacity of the
/// first.
fn fuse_at(steps: &mut VecDeque<ConsumptionStep>, i: usize)
    requires
        i + 1 < old(steps)@.len(),
    ensures
        final(steps)@ == fused(old(steps)@, i as int),
{
    let ghost before = steps@;
    assert(i + 1 < steps.len());
    let cur = steps[i];
    let next = steps[i + 1];
    let _ = steps.remove(i + 1);
    let _ = steps.remove(i);
    steps.insert(
        i,
        ConsumptionStep { start: cur.start, end: next.end, rem_capacity: cur.rem_capacity },
    );
    assert(steps@ =~= fused(before, i as int));
}

impl Clone for ConsumptionProfile {
    fn clone(&self) -> (r: Self)
        ensures
            r@ == self@,
    {
        let r = ConsumptionProfile { steps: self.steps.clone() };
        assert(r.steps@ =~= self.steps@);
        r
    }
}

impl ConsumptionProfile {
    /// The steps partition the time axis from 0 on.
    pub open spec fn wf(&self) -> bool {
        well_formed(self@)
    }

    /// The capacity left at time `t`.
    pub open spec fn rem(&self, t: int) -> int {
        rem_at(self@, t)
    }

    /// Replaces the step at `i`, which the window `[start_time, end_time)`
    /// meets, by its pieces, and returns how many they are.
    fn cut_in_place(&mut self, i: usize, start_time: isize, end_time: isize, consumption: isize) -> (n:
        usize)
        requires
            i < old(self)@.len(),
            old(self)@[i as int].start < old(self)@[i as int].end,
            start_time < end_time,
            meets(old(self)@[i as int], start_time as int, end_time as int),
            isize::MIN <= old(self)@[i as int].rem_capacity - consumption <= isize::MAX,
        ensures
            final(self)@ == old(self)@.take(i as int) + cut_step(
                old(self)@[i as int],
                start_time as int,
                end_time as int,
                consumption as int,
            ) + old(self)@.skip(i + 1),
            n == cut_step(
                old(self)@[i as int],
                start_time as int,
                end_time as int,
                consumption as int,
            ).len(),
            1 <= n <= 3,
            i + n <= final(self)@.len(),
    {
        let ghost init = self.steps@;
        let s = self.steps[i];
        let lo = if s.start < start_time { start_time } else { s.start };
        let hi = if end_time < s.end { end_time } else { s.end };
        let mut at: usize = i;
        let mut n: usize = 1;
        if s.start < lo {
            self.steps.insert(
                at,
                ConsumptionStep { start: s.start, end: lo, rem_capacity: s.rem_capacity },
            );
            assert(at < self.steps.len());
            at += 1;
            n += 1;
        }
        let ghost before = self.steps@;
        assert(at < self.steps.len());
        let _ = self.steps.remove(at);
        self.steps.insert(
            at,
            ConsumptionStep { start: lo, end: hi, rem_capacity: s.rem_capacity - consumption },
        );
        assert(self.steps@ =~= before.update(
            at as int,
            ConsumptionStep { start: lo, end: hi, rem_capacity: (s.rem_capacity - consumption) as isize },
        ));
        if hi < s.end {
            assert(at < self.steps.len());
            self.steps.insert(
                at + 1,
                ConsumptionStep { start: hi, end: s.end, rem_capacity: s.rem_capacity },
            );
            n += 1;
        }
        assert(self.steps@ =~= init.take(i as int) + cut_step(
            s,
            start_time as int,
            end_time as int,
            consumption as int,
        ) + init.skip(i + 1));
        n
    }

    /// Takes `consumption` units during `[start_time, start_time + duration)`:
    /// the steps that the window meets are split at its bounds and the parts
    /// inside it lowered. Neighbouring steps of equal capacity are left apart.
    pub fn add_consumption(&mut self, start_time: isize, duration: isize, consumption: isize)
        requires
            old(self).wf(),
            isize::MIN <= start_time + duration < isize::MAX,
            can_lower(
                old(self)@,
                start_time as int,
                start_time + duration,
                consumption as int,
            ),
        ensures
            final(self)@ == lowered(
                old(self)@,
                start_time as int,
                start_time + duration,
                consumption as int,
            ),
            final(self).wf(),
            forall|t: int|
                0 <= t ==> #[trigger] final(self).rem(t) == old(self).rem(t) - if start_time <= t
                    < start_time + duration {
                    consumption as int
                } else {
                    0
                },
    {
        let ghost init = self.steps@;
        let ghost a = start_time as int;
        let ghost b = start_time + duration;
        let ghost c = consumption as int;
        proof {
            lemma_lowered(init, a, b, c);
        }
        if duration <= 0 || consumption == 0 {
            return ;
        }
        let end_time = start_time + duration;
        let mut i: usize = 0;
        let ghost mut k: int = 0;
        proof {
            assert(init.take(0) =~= Seq::empty());
            assert(cut_all(init.take(0), a, b, c) + init.skip(0) =~= init);
        }
        while i < self.steps.len() && self.steps[i].start < end_time
            invariant
                well_formed(init),
                can_lower(init, a, b, c),
                a == start_time,
                b == end_time,
                c == consumption,
                a < b < isize::MAX,
                0 <= k <= init.len(),
                i == cut_all(init.take(k), a, b, c).len(),
                self.steps@ == cut_all(init.take(k), a, b, c) + init.skip(k),
            decreases init.len() - k,
        {
            let ghost head = cut_all(init.take(k), a, b, c);
            let ghost prev = self.steps@;
            let s = self.steps[i];
            proof {
                assert(prev[i as int] == init.skip(k)[0]);
                lemma_cut_all_next(init, a, b, c, k);
                assert(prev.take(i as int) =~= head);
                assert(prev.skip(i + 1) =~= init.skip(k + 1));
                assert(s.start < s.end);
            }
            if start_time < s.end && s.start < end_time {
                let n = self.cut_in_place(i, start_time, end_time, consumption);
                assert(i + n <= self.steps.len());
                i += n;
            } else {
                assert(cut_step(s, a, b, c) =~= seq![s]);
                assert(prev =~= prev.take(i as int) + seq![s] + prev.skip(i + 1));
                i += 1;
            }
            proof {
                k = k + 1;
            }
        }
        proof {
            if k < init.len() {
                assert(self.steps@[i as int] == init.skip(k)[0]);
                assert forall|j: int| k <= j < init.len() implies !meets(
                    #[trigger] init[j],
                    a,
                    b,
                ) by {
                    if k < j {
                        lemma_chain_order(init, k, j);
                        assert(init[k].start < init[k].end);
                    }
                }
            }
            lemma_cut_all_tail(init, a, b, c, k);
        }
    }

    /// Moves the time origin forward by `delta`: steps that are over by then
    /// are dropped, the others move back by `delta`, the first one is made to
    /// start at 0 and the last one to never end.
    pub fn forward_by(&mut self, delta: isize)
        requires
            old(self).wf(),
            0 <= delta,
        ensures
            final(self)@ == forwarded(old(self)@, delta as int),
            final(self).wf(),
            forall|t: int| 0 <= t ==> #[trigger] final(self).rem(t) == old(self).rem(t + delta),
            canonical(old(self)@) ==> canonical(final(self)@),
    {
        let ghost init = self.steps@;
        proof {
            lemma_forwarded(init, delta as int);
        }
        let ghost mut k: int = 0;
        while self.steps.len() > 0 && self.steps[0].end <= delta && self.steps[0].end != isize::MAX
            invariant
                well_formed(init),
                0 <= delta,
                0 <= k < init.len(),
                self.steps@ == init.skip(k),
                init[k].start <= delta,
            decreases init.len() - k,
        {
            proof {
                assert(self.steps@[0] == init[k]);
                assert(init[k].end == init[k + 1].start);
                assert(init.skip(k).subrange(1, init.skip(k).len() as int) =~= init.skip(k + 1));
            }
            let _ = self.steps.pop_front();
            proof {
                k = k + 1;
            }
        }
        proof {
            assert(self.steps@[0] == init[k]);
            lemma_index_at(init, k, delta as int);
        }
        let n = self.steps.len();
        let mut out: VecDeque<ConsumptionStep> = VecDeque::new();
        let mut m: usize = 0;
        while m < n
            invariant
                well_formed(init),
                0 <= delta,
                0 <= k < init.len(),
                k == index_at(init, delta as int),
                self.steps@ == init.skip(k),
                n == self.steps.len(),
                m <= n,
                out@ == forwarded(init, delta as int).take(m as int),
            decreases n - m,
        {
            let s = self.steps[m];
            proof {
                assert(s == init[k + m]);
                lemma_starts_nonnegative(init, k + m);
                if m > 0 {
                    lemma_chain_order(init, k, k + m);
                }
            }
            let start = if m == 0 { 0 } else { s.start - delta };
            let end = if m + 1 == n { isize::MAX } else { s.end - delta };
            out.push_back(ConsumptionStep { start, end, rem_capacity: s.rem_capacity });
            m += 1;
            proof {
                assert(out@ =~= forwarded(init, delta as int).take(m as int));
            }
        }
        proof {
            assert(out@ =~= forwarded(init, delta as int));
        }
        self.steps = out;
    }

    /// Replaces this profile by its merge with `other`: at every time the
    /// larger of the two capacities, with equal neighbours joined.
    pub fn merge_consumption_profile(&mut self, other: &ConsumptionProfile)
        requires
            old(self).wf(),
            other.wf(),
        ensures
            is_merge(old(self)@, other@, final(self)@),
            forall|t: int|
                0 <= t ==> #[trigger] final(self).rem(t) >= old(self).rem(t) && final(self).rem(t)
                    >= other.rem(t),
    {
        let ghost p = self.steps@;
        let ghost q = other.steps@;
        let mut result: VecDeque<ConsumptionStep> = VecDeque::new();
        let mut i: usize = 0;
        let mut j: usize = 0;
        while i < self.steps.len() && j < other.steps.len()
            invariant
                well_formed(p),
                well_formed(q),
                self.steps@ == p,
                other.steps@ == q,
                0 <= i < p.len(),
                0 <= j <= q.len(),
                is_chain(result@),
                result@.len() > 0 ==> result@[0].start == 0,
                j < q.len() ==> ({
                    let f = if p[i as int].start >= q[j as int].start {
                        p[i as int].start
                    } else {
                        q[j as int].start
                    };
                    &&& f <= p[i as int].end
                    &&& f < q[j as int].end
                    &&& result@.len() == 0 ==> f == 0
                    &&& result@.len() > 0 ==> result@[result@.len() - 1].end == f
                }),
                j == q.len() ==> result@.len() > 0 && result@[result@.len() - 1].end == isize::MAX,
                forall|m: int, t: int|
                    0 <= m < result@.len() && #[trigger] step_covers(result@[m], t) ==> result@[m].rem_capacity
                        == if rem_at(p, t) >= rem_at(q, t) {
                        rem_at(p, t)
                    } else {
                        rem_at(q, t)
                    },
            decreases (p.len() - i) + (q.len() - j),
        {
            let a = self.steps[i];
            let b = other.steps[j];
            let ghost before = result@;
            proof {
                assert(a == p[i as int] && b == q[j as int]);
                lemma_starts_nonnegative(p, i as int);
                lemma_starts_nonnegative(q, j as int);
                if i < p.len() - 1 {
                    assert(p[i as int].end == p[i + 1].start);
                }
                if j < q.len() - 1 {
                    assert(q[j as int].end == q[j + 1].start);
                    assert(q[j + 1].start < q[j + 1].end);
                }
            }
            let start = if a.start >= b.start { a.start } else { b.start };
            let end = if a.end <= b.end { a.end } else { b.end };
            if end > start {
                let rem_capacity = if a.rem_capacity >= b.rem_capacity {
                    a.rem_capacity
                } else {
                    b.rem_capacity
                };
                let x = ConsumptionStep { start, end, rem_capacity };
                result.push_back(x);
                proof {
                    assert(is_chain(result@)) by {
                        assert forall|k: int| 0 <= k < result@.len() implies (
                        #[trigger] result@[k]).start < result@[k].end by {
                            if k < before.len() {
                                assert(result@[k] == before[k]);
                            }
                        }
                        assert forall|k: int|
                #![trigger result@[k], result@[k + 1]]
                0 <= k < result@.len() - 1 implies result@[k].end == result@[k + 1].start by {
                            assert(result@[k] == before[k]);
                            if k + 1 < before.len() {
                                assert(result@[k + 1] == before[k + 1]);
                            }
                        }
                    }
                    assert forall|m: int, t: int|
                        0 <= m < result@.len() && #[trigger] step_covers(
                            result@[m],
                            t,
                        ) implies result@[m].rem_capacity == if rem_at(p, t) >= rem_at(q, t) {
                        rem_at(p, t)
                    } else {
                        rem_at(q, t)
                    } by {
                        if m < before.len() {
                            assert(result@[m] == before[m]);
                        } else {
                            lemma_rem_at(p, i as int, t);
                            lemma_rem_at(q, j as int, t);
                        }
                    }
                }
            }
            if a.end < b.end {
                i += 1;
            } else {
                j += 1;
            }
        }
        let ghost swept = result@;
        proof {
            assert(well_formed(swept));
            assert forall|t: int| 0 <= t implies #[trigger] rem_at(swept, t) == if rem_at(p, t)
                >= rem_at(q, t) {
                rem_at(p, t)
            } else {
                rem_at(q, t)
            } by {
                let m = lemma_cover_exists(swept, t);
            }
        }
        let mut i: usize = 0;
        while i + 1 < result.len()
            invariant
                well_formed(result@),
                forall|t: int| 0 <= t ==> #[trigger] rem_at(result@, t) == rem_at(swept, t),
                i < result.len(),
                forall|k: int|
                #![trigger result@[k], result@[k + 1]]
                0 <= k < i ==> result@[k].rem_capacity != result@[k + 1].rem_capacity,
            decreases 2 * result@.len() - i,
        {
            let cur = result[i];
            let next = result[i + 1];
            if cur.rem_capacity == next.rem_capacity {
                let ghost before = result@;
                proof {
                    lemma_fused(before, i as int);
                }
                fuse_at(&mut result, i);
                proof {
                    assert forall|k: int|
                #![trigger result@[k], result@[k + 1]]
                0 <= k < i implies result@[k].rem_capacity != result@[k + 1].rem_capacity by {
                        assert(before[k].rem_capacity != before[k + 1].rem_capacity);
                    }
                }
            } else {
                i += 1;
            }
        }
        proof {
            assert forall|k: int|
                #![trigger result@[k], result@[k + 1]]
                0 <= k < result@.len() - 1 implies result@[k].rem_capacity != result@[k + 1].rem_capacity by {}
        }
        self.steps = result;
    }

    /// Looks, from step `from` on, for the first step at which a job that
    /// needs `consumption` units for `duration` can start no earlier than
    /// `earliest`: steps that are over or too low are passed, and so is every
    /// run of steps that a too low step cuts short.
    pub fn find_window(&self, from: usize, earliest: isize, duration: isize, consumption: isize) -> (idx:
        usize)
        requires
            self.wf(),
            from < self@.len(),
            0 <= earliest,
            consumption <= self@[self@.len() - 1].rem_capacity,
        ensures
            from <= idx < self@.len(),
            step_covers(self@[idx as int], not_before(self@, idx as int, earliest as int)),
            fits(
                self@,
                not_before(self@, idx as int, earliest as int),
                duration as int,
                consumption as int,
            ),
            none_fits(
                self@,
                not_before(self@, from as int, earliest as int),
                not_before(self@, idx as int, earliest as int),
                duration as int,
                consumption as int,
            ),
    {
        let ghost s = self.steps@;
        let ghost lb = not_before(s, from as int, earliest as int);
        let ghost d = duration as int;
        let ghost w = consumption as int;
        let n = self.steps.len();
        let mut idx = from;
        loop
            invariant_except_break
                none_fits(s, lb, s[idx as int].start as int, d, w),
            invariant
                s == self.steps@,
                well_formed(s),
                n == s.len(),
                from <= idx < n,
                0 <= earliest <= lb,
                w <= s[n - 1].rem_capacity,
                d == duration,
                w == consumption,
            ensures
                from <= idx < n,
                step_covers(s[idx as int], not_before(s, idx as int, earliest as int)),
                fits(s, not_before(s, idx as int, earliest as int), d, w),
                none_fits(s, lb, not_before(s, idx as int, earliest as int), d, w),
            decreases n - idx,
        {
            let ghost entered = idx;
            while (self.steps[idx].end <= earliest && self.steps[idx].end != isize::MAX)
                || self.steps[idx].rem_capacity < consumption
                invariant
                    entered <= idx,
                    s == self.steps@,
                    well_formed(s),
                    n == s.len(),
                    from <= idx < n,
                    0 <= earliest <= lb,
                    w <= s[n - 1].rem_capacity,
                    w == consumption,
                    none_fits(s, lb, s[idx as int].start as int, d, w),
                decreases n - idx,
            {
                proof {
                    lemma_step_passed(s, lb, idx as int, earliest as int, d, w);
                }
                idx += 1;
            }
            let here = self.steps[idx];
            let c0 = if here.start > earliest { here.start } else { earliest };
            let mut j = idx;
            let mut found = false;
            loop
                invariant_except_break
                    !found,
                invariant
                    s == self.steps@,
                    well_formed(s),
                    n == s.len(),
                    idx <= j < n,
                    w <= s[n - 1].rem_capacity,
                    w == consumption,
                    d == duration,
                    0 <= c0,
                    run_is_short(s, idx as int, j as int, c0 as int, d, w),
                ensures
                    idx <= j < n,
                    run_is_short(s, idx as int, j as int, c0 as int, d, w),
                    found ==> s[j as int].rem_capacity >= w && (s[j as int].end == isize::MAX
                        || s[j as int].end - c0 >= d),
                    !found ==> s[j as int].rem_capacity < w,
                decreases n - j,
            {
                let step = self.steps[j];
                if step.rem_capacity >= consumption {
                    proof {
                        lemma_starts_nonnegative(s, j as int);
                    }
                    if step.end == isize::MAX || step.end - c0 >= duration {
                        found = true;
                        break ;
                    }
                } else {
                    break ;
                }
                j += 1;
            }
            if found {
                proof {
                    lemma_run_fits(s, idx as int, j as int, c0 as int, d, w);
                }
                break ;
            }
            proof {
                lemma_run_blocked(s, lb, idx as int, j as int, earliest as int, d, w);
            }
            idx = j + 1;
        }
        idx
    }
}

} // verus!
