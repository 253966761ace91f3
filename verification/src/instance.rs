//! The project to schedule: jobs, their precedence, and the resources.

use crate::bitset::{bitset_bounded, bitset_len, bitset_ones};
use fixedbitset::FixedBitSet;
use vstd::prelude::*;

verus! {

/// A project. Job 0 is the source and job `n_jobs - 1` the sink.
#[derive(Debug)]
pub struct RcpspInstance {
    /// Number of jobs.
    pub n_jobs: usize,
    /// Number of resources.
    pub n_resources: usize,
    /// For each job, the jobs that must end before it starts.
    pub predecessors: Vec<FixedBitSet>,
    /// For each job, the jobs that cannot start before it ends.
    pub successors: Vec<FixedBitSet>,
    /// Duration of each job.
    pub duration: Vec<isize>,
    /// What each job takes of each resource while it runs.
    pub consumption: Vec<Vec<isize>>,
    /// Capacity of each resource.
    pub capacity: Vec<isize>,
}

impl RcpspInstance {
    /// The two projects hold the same numbers and the same precedence.
    pub open spec fn same_as(&self, other: &RcpspInstance) -> bool {
        &&& self.n_jobs == other.n_jobs
        &&& self.n_resources == other.n_resources
        &&& self.duration@ == other.duration@
        &&& self.capacity@ == other.capacity@
        &&& self.consumption@.len() == other.consumption@.len()
        &&& forall|i: int|
            0 <= i < self.consumption@.len() ==> (#[trigger] self.consumption@[i])@
                == other.consumption@[i]@
        &&& same_sets(self.predecessors@, other.predecessors@)
        &&& same_sets(self.successors@, other.successors@)
    }

    /// The predecessors of job `j`.
    pub open spec fn preds(&self, j: int) -> Set<int> {
        bitset_ones(self.predecessors@[j])
    }

    /// The successors of job `i`.
    pub open spec fn succs(&self, i: int) -> Set<int> {
        bitset_ones(self.successors@[i])
    }

    /// The tables have one entry per job and per resource, the two precedence
    /// tables say the same, no duration is negative and no job takes more of
    /// a resource than there is.
    pub open spec fn wf(&self) -> bool {
        &&& self.n_jobs >= 2
        &&& self.predecessors@.len() == self.n_jobs
        &&& self.successors@.len() == self.n_jobs
        &&& self.duration@.len() == self.n_jobs
        &&& self.consumption@.len() == self.n_jobs
        &&& self.capacity@.len() == self.n_resources
        &&& forall|j: int|
            0 <= j < self.n_jobs ==> bitset_len(#[trigger] self.predecessors@[j]) == self.n_jobs
                && bitset_bounded(self.predecessors@[j])
        &&& forall|i: int|
            0 <= i < self.n_jobs ==> bitset_len(#[trigger] self.successors@[i]) == self.n_jobs
                && bitset_bounded(self.successors@[i])
        &&& forall|i: int, j: int|
            #![trigger self.succs(i).contains(j)]
            #![trigger self.preds(j).contains(i)]
            0 <= i < self.n_jobs && 0 <= j < self.n_jobs ==> self.succs(i).contains(j)
                == self.preds(j).contains(i)
        &&& forall|i: int| 0 <= i < self.n_jobs ==> 0 <= #[trigger] self.duration@[i]
        &&& forall|i: int|
            0 <= i < self.n_jobs ==> (#[trigger] self.consumption@[i])@.len() == self.n_resources
        &&& forall|i: int, r: int|
            0 <= i < self.n_jobs && 0 <= r < self.n_resources ==> 0
                <= #[trigger] self.consumption@[i]@[r] <= self.capacity@[r]
        &&& forall|r: int| 0 <= r < self.n_resources ==> 0 <= #[trigger] self.capacity@[r]
    }
}

/// The bit sets of the two lists are as long and hold the same, one by one.
pub open spec fn same_sets(a: Seq<FixedBitSet>, b: Seq<FixedBitSet>) -> bool {
    &&& a.len() == b.len()
    &&& forall|i: int|
        0 <= i < a.len() ==> bitset_ones(#[trigger] a[i]) == bitset_ones(b[i]) && bitset_len(a[i])
            == bitset_len(b[i])
}

/// A blank, a tab, a line feed, a vertical tab, a form feed or a carriage
/// return.
pub open spec fn is_space(b: u8) -> bool {
    b == 32 || (9 <= b && b <= 13)
}

/// One of the digits `0` to `9`.
pub open spec fn is_digit(b: u8) -> bool {
    48 <= b && b <= 57
}

/// The words of a line: its longest stretches without a space, from left to
/// right.
pub open spec fn words(line: Seq<u8>) -> Seq<Seq<u8>>
    decreases line.len(),
{
    if line.len() == 0 {
        Seq::empty()
    } else {
        let front = words(line.drop_last());
        let b = line.last();
        if is_space(b) {
            front
        } else if line.len() >= 2 && !is_space(line[line.len() - 2]) {
            front.drop_last().push(front.last().push(b))
        } else {
            front.push(seq![b])
        }
    }
}

/// The word is made of digits, one at least.
pub open spec fn is_number(word: Seq<u8>) -> bool {
    word.len() > 0 && forall|i: int| 0 <= i < word.len() ==> is_digit(#[trigger] word[i])
}

/// The number that the digits write in base ten.
pub open spec fn decimal(word: Seq<u8>) -> nat
    decreases word.len(),
{
    if word.len() == 0 {
        0
    } else {
        decimal(word.drop_last()) * 10 + (word.last() - 48) as nat
    }
}

/// The number that word `i` of the line writes, if the line has that many
/// words and the word is a number no larger than `isize::MAX`.
pub open spec fn number_at(line: Seq<u8>, i: int) -> Option<int> {
    let w = words(line);
    if 0 <= i < w.len() && is_number(w[i]) && decimal(w[i]) <= isize::MAX {
        Some(decimal(w[i]) as int)
    } else {
        None
    }
}

/// The jobs that the line of a job lists as its successors, for a project of
/// `m` resources: the line gives, behind the duration and the `m`
/// consumptions, how many successors follow, and then each as its number,
/// counted from 1.
pub open spec fn listed(row: Seq<u8>, m: int) -> Set<int> {
    Set::new(
        |j: int|
            exists|t: int|
                0 <= t < number_at(row, 1 + m).unwrap() && #[trigger] number_at(row, 2 + m + t)
                    == Some(j + 1),
    )
}

/// The line of a job can be read for a project of `n` jobs and `m`
/// resources with the given capacities.
pub open spec fn row_readable(row: Seq<u8>, n: int, m: int, capacity: Seq<isize>) -> bool {
    &&& number_at(row, 0) is Some
    &&& forall|r: int|
        0 <= r < m ==> (#[trigger] number_at(row, 1 + r)) is Some && number_at(row, 1 + r).unwrap()
            <= capacity[r]
    &&& number_at(row, 1 + m) is Some
    &&& forall|t: int|
        0 <= t < number_at(row, 1 + m).unwrap() ==> (#[trigger] number_at(row, 2 + m + t)) is Some
            && 1 <= number_at(row, 2 + m + t).unwrap() <= n
}

/// The lines can be read as a project: the first gives the numbers of jobs,
/// two at least, and of resources; the second the capacities; the following
/// ones the jobs, one per line.
pub open spec fn readable(lines: Seq<Vec<u8>>) -> bool {
    &&& lines.len() >= 2
    &&& number_at(lines[0]@, 0) is Some
    &&& number_at(lines[0]@, 1) is Some
    &&& number_at(lines[0]@, 0).unwrap() >= 2
    &&& lines.len() >= 2 + number_at(lines[0]@, 0).unwrap()
    &&& forall|r: int|
        0 <= r < number_at(lines[0]@, 1).unwrap() ==> (#[trigger] number_at(lines[1]@, r)) is Some
    &&& forall|i: int|
        0 <= i < number_at(lines[0]@, 0).unwrap() ==> row_readable(
            (#[trigger] lines[2 + i])@,
            number_at(lines[0]@, 0).unwrap(),
            number_at(lines[0]@, 1).unwrap(),
            Seq::new(
                number_at(lines[0]@, 1).unwrap() as nat,
                |r: int| number_at(lines[1]@, r).unwrap() as isize,
            ),
        )
}

/// The project is the one that the lines describe.
pub open spec fn describes(lines: Seq<Vec<u8>>, inst: RcpspInstance) -> bool {
    &&& number_at(lines[0]@, 0) == Some(inst.n_jobs as int)
    &&& number_at(lines[0]@, 1) == Some(inst.n_resources as int)
    &&& forall|r: int|
        0 <= r < inst.n_resources ==> #[trigger] number_at(lines[1]@, r) == Some(
            inst.capacity@[r] as int,
        )
    &&& forall|i: int|
        0 <= i < inst.n_jobs ==> number_at((#[trigger] lines[2 + i])@, 0) == Some(
            inst.duration@[i] as int,
        )
    &&& forall|i: int, r: int|
        0 <= i < inst.n_jobs && 0 <= r < inst.n_resources ==> number_at(lines[2 + i]@, 1 + r)
            == Some(#[trigger] inst.consumption@[i]@[r] as int)
    &&& forall|i: int|
        0 <= i < inst.n_jobs ==> #[trigger] inst.succs(i) == listed(
            lines[2 + i]@,
            inst.n_resources as int,
        )
}

/// The two precedence tables say the same, every bit set has `n` positions
/// and holds nothing beyond.
pub open spec fn tables_agree(
    predecessors: Seq<FixedBitSet>,
    successors: Seq<FixedBitSet>,
    n: int,
) -> bool {
    &&& predecessors.len() == n
    &&& successors.len() == n
    &&& forall|a: int|
        0 <= a < n ==> bitset_len(#[trigger] predecessors[a]) == n && bitset_bounded(predecessors[a])
    &&& forall|a: int|
        0 <= a < n ==> bitset_len(#[trigger] successors[a]) == n && bitset_bounded(successors[a])
    &&& forall|a: int, b: int|
        #![trigger bitset_ones(successors[a]).contains(b)]
        #![trigger bitset_ones(predecessors[b]).contains(a)]
        0 <= a < n && 0 <= b < n ==> bitset_ones(successors[a]).contains(b) == bitset_ones(
            predecessors[b],
        ).contains(a)
}

/// A number is at least what any of its beginnings writes.
proof fn lemma_decimal_grows(word: Seq<u8>, k: int)
    requires
        0 <= k <= word.len(),
        forall|i: int| k <= i < word.len() ==> is_digit(#[trigger] word[i]),
    ensures
        decimal(word.take(k)) <= decimal(word),
    decreases word.len() - k,
{
    if k == word.len() {
        assert(word.take(k) =~= word);
    } else {
        let front = word.drop_last();
        assert(forall|i: int| k <= i < front.len() ==> front[i] == word[i]);
        lemma_decimal_grows(front, k);
        assert(front.take(k) =~= word.take(k));
        assert(is_digit(word[word.len() - 1]));
    }
}

/// Whether the byte is a space.
fn space(b: u8) -> (r: bool)
    ensures
        r == is_space(b),
{
    b == 32 || (9 <= b && b <= 13)
}

/// Where the words of the line begin and end.
fn split(line: &Vec<u8>) -> (out: Vec<(usize, usize)>)
    ensures
        out@.len() == words(line@).len(),
        forall|k: int|
            0 <= k < out@.len() ==> (#[trigger] out@[k]).0 < out@[k].1 <= line@.len()
                && words(line@)[k] == line@.subrange(out@[k].0 as int, out@[k].1 as int),
{
    let n = line.len();
    let mut out: Vec<(usize, usize)> = Vec::new();
    let mut i: usize = 0;
    let mut in_word = false;
    let mut start: usize = 0;
    proof {
        assert(line@.take(0) =~= Seq::empty());
    }
    while i < n
        invariant
            n == line@.len(),
            i <= n,
            in_word ==> start < i && !is_space(line@[i - 1]) && words(line@.take(i as int)).len()
                == out@.len() + 1 && words(line@.take(i as int)).last() == line@.subrange(
                start as int,
                i as int,
            ),
            !in_word ==> (i == 0 || is_space(line@[i - 1])) && words(line@.take(i as int)).len()
                == out@.len(),
            forall|k: int|
                0 <= k < out@.len() ==> (#[trigger] out@[k]).0 < out@[k].1 <= i && words(
                    line@.take(i as int),
                )[k] == line@.subrange(out@[k].0 as int, out@[k].1 as int),
        decreases n - i,
    {
        let b = line[i];
        let ghost seen = words(line@.take(i as int));
        let ghost before = out@;
        proof {
            assert(line@.take(i + 1).drop_last() =~= line@.take(i as int));
            assert(line@.take(i + 1).last() == b);
            if i >= 1 {
                assert(line@.take(i + 1)[i - 1] == line@[i - 1]);
            }
        }
        if space(b) {
            if in_word {
                out.push((start, i));
                in_word = false;
            }
        } else {
            if !in_word {
                start = i;
                in_word = true;
                proof {
                    assert(seq![b] =~= line@.subrange(i as int, i + 1));
                }
            } else {
                proof {
                    assert(line@.subrange(start as int, i as int).push(b) =~= line@.subrange(
                        start as int,
                        i + 1,
                    ));
                }
            }
        }
        i += 1;
        proof {
            let now = words(line@.take(i as int));
            assert forall|k: int| 0 <= k < out@.len() implies (#[trigger] out@[k]).0 < out@[k].1
                <= i && now[k] == line@.subrange(out@[k].0 as int, out@[k].1 as int) by {
                if k < before.len() {
                    assert(out@[k] == before[k]);
                    assert(now[k] == seen[k]);
                }
            }
        }
    }
    proof {
        assert(line@.take(n as int) =~= line@);
    }
    if in_word {
        out.push((start, n));
    }
    out
}

/// The number that the bytes from `a` to `b` write, if they are digits and
/// the number is no larger than `isize::MAX`.
fn parse_number(line: &Vec<u8>, a: usize, b: usize) -> (r: Option<isize>)
    requires
        a < b <= line@.len(),
    ensures
        r is Some <==> is_number(line@.subrange(a as int, b as int)) && decimal(
            line@.subrange(a as int, b as int),
        ) <= isize::MAX,
        r is Some ==> r.unwrap() == decimal(line@.subrange(a as int, b as int)),
{
    let ghost word = line@.subrange(a as int, b as int);
    let mut acc: isize = 0;
    let mut i: usize = a;
    proof {
        assert(word.take(0) =~= Seq::empty());
    }
    while i < b
        invariant
            a <= i <= b,
            b <= line@.len(),
            word == line@.subrange(a as int, b as int),
            0 <= acc,
            acc == decimal(word.take(i - a)),
            forall|k: int| 0 <= k < i - a ==> is_digit(#[trigger] word[k]),
        decreases b - i,
    {
        let c = line[i];
        proof {
            assert(word[i - a] == c);
            assert(word.take(i - a + 1).drop_last() =~= word.take(i - a));
            assert(word.take(i - a + 1).last() == c);
        }
        if c < 48 || c > 57 {
            return None;
        }
        let digit = (c - 48) as isize;
        if acc > (isize::MAX - digit) / 10 {
            proof {
                if is_number(word) {
                    lemma_decimal_grows(word, i - a + 1);
                }
            }
            return None;
        }
        acc = acc * 10 + digit;
        i += 1;
    }
    proof {
        assert(word.take(b - a) =~= word);
    }
    Some(acc)
}

/// The number that word `i` of the line writes, the words being given by
/// where they begin and end.
fn number_of(line: &Vec<u8>, fields: &Vec<(usize, usize)>, i: usize) -> (r: Option<isize>)
    requires
        fields@.len() == words(line@).len(),
        forall|k: int|
            0 <= k < fields@.len() ==> (#[trigger] fields@[k]).0 < fields@[k].1 <= line@.len()
                && words(line@)[k] == line@.subrange(fields@[k].0 as int, fields@[k].1 as int),
    ensures
        r is Some <==> number_at(line@, i as int) is Some,
        r is Some ==> number_at(line@, i as int) == Some(r.unwrap() as int) && 0 <= r.unwrap(),
{
    if i < fields.len() {
        let (a, b) = fields[i];
        parse_number(line, a, b)
    } else {
        None
    }
}

/// The first `m` numbers of the line.
fn read_capacities(line: &Vec<u8>, m: usize) -> (r: Option<Vec<isize>>)
    ensures
        r is Some <==> forall|x: int| 0 <= x < m ==> (#[trigger] number_at(line@, x)) is Some,
        r is Some ==> r.unwrap()@.len() == m && forall|x: int|
            0 <= x < m ==> #[trigger] number_at(line@, x) == Some(r.unwrap()@[x] as int),
{
    let fields = split(line);
    let mut out: Vec<isize> = Vec::new();
    let mut x: usize = 0;
    while x < m
        invariant
            x <= m,
            out@.len() == x,
            fields@.len() == words(line@).len(),
            forall|k: int|
                0 <= k < fields@.len() ==> (#[trigger] fields@[k]).0 < fields@[k].1 <= line@.len()
                    && words(line@)[k] == line@.subrange(fields@[k].0 as int, fields@[k].1 as int),
            forall|y: int| 0 <= y < x ==> #[trigger] number_at(line@, y) == Some(out@[y] as int),
        decreases m - x,
    {
        match number_of(line, &fields, x) {
            Some(c) => {
                out.push(c);
            },
            None => {
                assert(number_at(line@, x as int) is None);
                return None;
            },
        }
        x += 1;
    }
    Some(out)
}

/// The consumptions on the line of a job: the `m` numbers behind the first,
/// none of them above the capacity of its resource.
fn read_consumption(line: &Vec<u8>, fields: &Vec<(usize, usize)>, capacity: &Vec<isize>) -> (r:
    Option<Vec<isize>>)
    requires
        fields@.len() == words(line@).len(),
        forall|k: int|
            0 <= k < fields@.len() ==> (#[trigger] fields@[k]).0 < fields@[k].1 <= line@.len()
                && words(line@)[k] == line@.subrange(fields@[k].0 as int, fields@[k].1 as int),
    ensures
        r is Some <==> forall|x: int|
            0 <= x < capacity@.len() ==> (#[trigger] number_at(line@, 1 + x)) is Some && number_at(
                line@,
                1 + x,
            ).unwrap() <= capacity@[x],
        r is Some ==> r.unwrap()@.len() == capacity@.len() && forall|x: int|
            0 <= x < capacity@.len() ==> #[trigger] number_at(line@, 1 + x) == Some(
                r.unwrap()@[x] as int,
            ) && 0 <= r.unwrap()@[x] <= capacity@[x],
{
    let m = capacity.len();
    let mut out: Vec<isize> = Vec::new();
    let mut x: usize = 0;
    while x < m
        invariant
            x <= m,
            m == capacity@.len(),
            out@.len() == x,
            fields@.len() == words(line@).len(),
            forall|k: int|
                0 <= k < fields@.len() ==> (#[trigger] fields@[k]).0 < fields@[k].1 <= line@.len()
                    && words(line@)[k] == line@.subrange(fields@[k].0 as int, fields@[k].1 as int),
            forall|y: int|
                0 <= y < x ==> #[trigger] number_at(line@, 1 + y) == Some(out@[y] as int) && 0
                    <= out@[y] <= capacity@[y],
        decreases m - x,
    {
        match number_of(line, fields, 1 + x) {
            Some(c) => {
                if c > capacity[x] {
                    assert(number_at(line@, 1 + x as int).unwrap() > capacity@[x as int]);
                    return None;
                }
                out.push(c);
            },
            None => {
                assert(number_at(line@, 1 + x as int) is None);
                return None;
            },
        }
        x += 1;
    }
    Some(out)
}

/// The successors on the line of a job, counted from 0: behind the duration
/// and the `m` consumptions stands their number, and then each of them,
/// counted from 1 and no larger than `n`.
fn read_successors(line: &Vec<u8>, fields: &Vec<(usize, usize)>, n: usize, m: usize) -> (r: Option<
    Vec<usize>,
>)
    requires
        fields@.len() == words(line@).len(),
        forall|k: int|
            0 <= k < fields@.len() ==> (#[trigger] fields@[k]).0 < fields@[k].1 <= line@.len()
                && words(line@)[k] == line@.subrange(fields@[k].0 as int, fields@[k].1 as int),
    ensures
        r is Some <==> number_at(line@, 1 + m) is Some && forall|t: int|
            0 <= t < number_at(line@, 1 + m).unwrap() ==> (#[trigger] number_at(
                line@,
                2 + m + t,
            )) is Some && 1 <= number_at(line@, 2 + m + t).unwrap() <= n,
        r is Some ==> r.unwrap()@.len() == number_at(line@, 1 + m).unwrap() && forall|t: int|
            0 <= t < r.unwrap()@.len() ==> #[trigger] number_at(line@, 2 + m + t) == Some(
                r.unwrap()@[t] + 1,
            ) && r.unwrap()@[t] < n,
{
    let len = fields.len();
    if m >= len {
        return None;
    }
    let count = match number_of(line, fields, 1 + m) {
        Some(c) => c as usize,
        None => {
            return None;
        },
    };
    let mut out: Vec<usize> = Vec::new();
    let mut t: usize = 0;
    while t < count
        invariant
            t <= count,
            m < len,
            len == fields@.len(),
            count <= isize::MAX,
            number_at(line@, 1 + m) == Some(count as int),
            out@.len() == t,
            fields@.len() == words(line@).len(),
            forall|k: int|
                0 <= k < fields@.len() ==> (#[trigger] fields@[k]).0 < fields@[k].1 <= line@.len()
                    && words(line@)[k] == line@.subrange(fields@[k].0 as int, fields@[k].1 as int),
            forall|y: int|
                0 <= y < t ==> #[trigger] number_at(line@, 2 + m + y) == Some(out@[y] + 1) && out@[y]
                    < n,
        decreases count - t,
    {
        if 2 + t >= len - m {
            assert(number_at(line@, 2 + m + t as int) is None);
            return None;
        }
        match number_of(line, fields, 2 + m + t) {
            Some(s) => {
                if s < 1 || s as usize > n {
                    assert(!(1 <= number_at(line@, 2 + m + t as int).unwrap() <= n));
                    return None;
                }
                out.push(s as usize - 1);
            },
            None => {
                assert(number_at(line@, 2 + m + t as int) is None);
                return None;
            },
        }
        t += 1;
    }
    Some(out)
}

/// `n` bit sets of `n` positions each, all clear.
fn clear_sets(n: usize) -> (out: Vec<FixedBitSet>)
    ensures
        out@.len() == n,
        forall|a: int|
            0 <= a < n ==> bitset_len(#[trigger] out@[a]) == n && bitset_ones(out@[a])
                == Set::<int>::empty(),
{
    let mut out: Vec<FixedBitSet> = Vec::new();
    while out.len() < n
        invariant
            out@.len() <= n,
            forall|a: int|
                0 <= a < out@.len() ==> bitset_len(#[trigger] out@[a]) == n && bitset_ones(out@[a])
                    == Set::<int>::empty(),
        decreases n - out@.len(),
    {
        out.push(FixedBitSet::with_capacity(n));
    }
    out
}

/// Enters job `i` with its successors `list` into the two tables.
fn enter_successors(
    predecessors: &mut Vec<FixedBitSet>,
    successors: &mut Vec<FixedBitSet>,
    i: usize,
    list: &Vec<usize>,
)
    requires
        i < old(successors)@.len(),
        tables_agree(old(predecessors)@, old(successors)@, old(successors)@.len() as int),
        forall|t: int| 0 <= t < list@.len() ==> (#[trigger] list@[t]) < old(successors)@.len(),
    ensures
        tables_agree(final(predecessors)@, final(successors)@, old(successors)@.len() as int),
        forall|a: int|
            0 <= a < old(successors)@.len() && a != i ==> bitset_ones(
                #[trigger] final(successors)@[a],
            ) == bitset_ones(old(successors)@[a]),
        forall|t: int|
            0 <= t < list@.len() ==> bitset_ones(final(successors)@[i as int]).contains(
                #[trigger] list@[t] as int,
            ),
        forall|j: int|
            bitset_ones(old(successors)@[i as int]).contains(j) ==> #[trigger] bitset_ones(
                final(successors)@[i as int],
            ).contains(j),
        forall|j: int| #[trigger]
            bitset_ones(final(successors)@[i as int]).contains(j) ==> bitset_ones(
                old(successors)@[i as int],
            ).contains(j) || exists|t: int| 0 <= t < list@.len() && #[trigger] list@[t] == j,
{
    let ghost n = successors@.len() as int;
    let ghost succ0 = successors@;
    let mut t: usize = 0;
    while t < list.len()
        invariant
            t <= list@.len(),
            n == succ0.len(),
            i < n,
            tables_agree(predecessors@, successors@, n),
            forall|y: int| 0 <= y < list@.len() ==> (#[trigger] list@[y]) < n,
            forall|a: int|
                0 <= a < n && a != i ==> bitset_ones(#[trigger] successors@[a]) == bitset_ones(
                    succ0[a],
                ),
            forall|y: int|
                0 <= y < t ==> bitset_ones(successors@[i as int]).contains(#[trigger] list@[y] as int),
            forall|j: int|
                bitset_ones(succ0[i as int]).contains(j) ==> #[trigger] bitset_ones(
                    successors@[i as int],
                ).contains(j),
            forall|j: int| #[trigger]
                bitset_ones(successors@[i as int]).contains(j) ==> bitset_ones(
                    succ0[i as int],
                ).contains(j) || exists|y: int| 0 <= y < t && #[trigger] list@[y] == j,
        decreases list@.len() - t,
    {
        let j = list[t];
        let ghost pred1 = predecessors@;
        let ghost succ1 = successors@;
        assert(bitset_len(succ1[i as int]) == n);
        assert(bitset_len(pred1[j as int]) == n);
        successors[i].insert(j);
        predecessors[j].insert(i);
        proof {
            assert forall|a: int|
                0 <= a < n implies bitset_len(#[trigger] predecessors@[a]) == n && bitset_bounded(
                predecessors@[a],
            ) by {
                assert(bitset_len(pred1[a]) == n && bitset_bounded(pred1[a]));
            }
            assert forall|a: int|
                0 <= a < n implies bitset_len(#[trigger] successors@[a]) == n && bitset_bounded(
                successors@[a],
            ) by {
                assert(bitset_len(succ1[a]) == n && bitset_bounded(succ1[a]));
            }
            assert forall|a: int, b: int|
                #![trigger bitset_ones(successors@[a]).contains(b)]
                #![trigger bitset_ones(predecessors@[b]).contains(a)]
                0 <= a < n && 0 <= b < n implies bitset_ones(successors@[a]).contains(b)
                == bitset_ones(predecessors@[b]).contains(a) by {
                assert(bitset_ones(succ1[a]).contains(b) == bitset_ones(pred1[b]).contains(a));
            }
            assert forall|a: int| 0 <= a < n && a != i implies bitset_ones(
                #[trigger] successors@[a],
            ) == bitset_ones(succ0[a]) by {
                assert(bitset_ones(succ1[a]) == bitset_ones(succ0[a]));
            }
            assert forall|y: int| 0 <= y < t + 1 implies bitset_ones(
                successors@[i as int],
            ).contains(#[trigger] list@[y] as int) by {
                if y < t {
                    assert(bitset_ones(succ1[i as int]).contains(list@[y] as int));
                }
            }
            assert forall|x: int| #[trigger]
                bitset_ones(successors@[i as int]).contains(x) implies bitset_ones(
                succ0[i as int],
            ).contains(x) || exists|y: int| 0 <= y < t + 1 && #[trigger] list@[y] == x by {
                if x == j {
                    assert(list@[t as int] == x);
                } else {
                    assert(bitset_ones(succ1[i as int]).contains(x));
                    if !bitset_ones(succ0[i as int]).contains(x) {
                        let y = choose|y: int| 0 <= y < t && #[trigger] list@[y] == x;
                        assert(0 <= y < t + 1 && list@[y] == x);
                    }
                }
            }
        }
        t += 1;
    }
}

/// A copy of the bit sets.
fn clone_sets(sets: &Vec<FixedBitSet>) -> (out: Vec<FixedBitSet>)
    ensures
        same_sets(out@, sets@),
{
    let mut out: Vec<FixedBitSet> = Vec::new();
    let mut i: usize = 0;
    while i < sets.len()
        invariant
            i <= sets@.len(),
            out@.len() == i,
            forall|k: int|
                0 <= k < i ==> bitset_ones(#[trigger] out@[k]) == bitset_ones(sets@[k])
                    && bitset_len(out@[k]) == bitset_len(sets@[k]),
        decreases sets@.len() - i,
    {
        out.push(sets[i].clone());
        i += 1;
    }
    out
}

/// A copy of the rows.
fn clone_rows(rows: &Vec<Vec<isize>>) -> (out: Vec<Vec<isize>>)
    ensures
        out@.len() == rows@.len(),
        forall|i: int| 0 <= i < rows@.len() ==> (#[trigger] out@[i])@ == rows@[i]@,
{
    let mut out: Vec<Vec<isize>> = Vec::new();
    let mut i: usize = 0;
    while i < rows.len()
        invariant
            i <= rows@.len(),
            out@.len() == i,
            forall|k: int| 0 <= k < i ==> (#[trigger] out@[k])@ == rows@[k]@,
        decreases rows@.len() - i,
    {
        let row = rows[i].clone();
        assert(row@ =~= rows@[i as int]@);
        out.push(row);
        i += 1;
    }
    out
}

impl Clone for RcpspInstance {
    fn clone(&self) -> (r: Self)
        ensures
            r.same_as(self),
            self.wf() ==> r.wf(),
    {
        let duration = self.duration.clone();
        let capacity = self.capacity.clone();
        assert(duration@ =~= self.duration@);
        assert(capacity@ =~= self.capacity@);
        let r = RcpspInstance {
            n_jobs: self.n_jobs,
            n_resources: self.n_resources,
            predecessors: clone_sets(&self.predecessors),
            successors: clone_sets(&self.successors),
            duration,
            consumption: clone_rows(&self.consumption),
            capacity,
        };
        proof {
            if self.wf() {
                assert forall|i: int, j: int|
                    #![trigger r.succs(i).contains(j)]
                    #![trigger r.preds(j).contains(i)]
                    0 <= i < r.n_jobs && 0 <= j < r.n_jobs implies r.succs(i).contains(j)
                    == r.preds(j).contains(i) by {
                    assert(self.succs(i).contains(j) == self.preds(j).contains(i));
                }
                assert forall|i: int, x: int|
                    0 <= i < r.n_jobs && 0 <= x < r.n_resources implies 0
                    <= #[trigger] r.consumption@[i]@[x] <= r.capacity@[x] by {
                    assert(0 <= self.consumption@[i]@[x] <= self.capacity@[x]);
                }
            }
        }
        r
    }
}

impl RcpspInstance {
    /// Reads a project from the lines of its description. The first line
    /// gives the numbers of jobs and of resources, the second the capacities,
    /// and each of the following lines one job: its duration, what it takes
    /// of each resource, the number of its successors, and these, counted
    /// from 1. Words behind those that are read do not matter, nor do lines
    /// behind the last job.
    pub fn from_lines(lines: &Vec<Vec<u8>>) -> (r: Option<RcpspInstance>)
        ensures
            r is Some <==> readable(lines@),
            r is Some ==> describes(lines@, r.unwrap()) && r.unwrap().wf(),
    {
        if lines.len() < 2 {
            return None;
        }
        let head = split(&lines[0]);
        let n_jobs = match number_of(&lines[0], &head, 0) {
            Some(x) => x as usize,
            None => {
                return None;
            },
        };
        let n_resources = match number_of(&lines[0], &head, 1) {
            Some(x) => x as usize,
            None => {
                return None;
            },
        };
        if n_jobs < 2 || lines.len() - 2 < n_jobs {
            return None;
        }
        let capacity = match read_capacities(&lines[1], n_resources) {
            Some(c) => c,
            None => {
                return None;
            },
        };
        let ghost n = n_jobs as int;
        let ghost m = n_resources as int;
        let ghost caps = Seq::new(m as nat, |r: int| number_at(lines@[1]@, r).unwrap() as isize);
        proof {
            assert(capacity@ =~= caps);
        }
        let mut predecessors = clear_sets(n_jobs);
        let mut successors = clear_sets(n_jobs);
        let mut duration: Vec<isize> = Vec::new();
        let mut consumption: Vec<Vec<isize>> = Vec::new();
        let mut i: usize = 0;
        while i < n_jobs
            invariant
                i <= n_jobs,
                n == n_jobs,
                m == n_resources,
                n >= 2,
                lines@.len() >= 2 + n,
                number_at(lines@[0]@, 0) == Some(n),
                number_at(lines@[0]@, 1) == Some(m),
                capacity@.len() == m,
                capacity@ == caps,
                caps == Seq::new(m as nat, |r: int| number_at(lines@[1]@, r).unwrap() as isize),
                forall|r: int|
                    0 <= r < m ==> #[trigger] number_at(lines@[1]@, r) == Some(capacity@[r] as int),
                tables_agree(predecessors@, successors@, n),
                forall|a: int|
                    i <= a < n ==> bitset_ones(#[trigger] successors@[a]) == Set::<int>::empty(),
                forall|a: int|
                    0 <= a < i ==> bitset_ones(#[trigger] successors@[a]) == listed(lines@[2 + a]@, m),
                duration@.len() == i,
                forall|a: int|
                    0 <= a < i ==> number_at(lines@[2 + a]@, 0) == Some(
                        #[trigger] duration@[a] as int,
                    ) && 0 <= duration@[a],
                consumption@.len() == i,
                forall|a: int| 0 <= a < i ==> (#[trigger] consumption@[a])@.len() == m,
                forall|a: int, r: int|
                    0 <= a < i && 0 <= r < m ==> number_at(lines@[2 + a]@, 1 + r) == Some(
                        #[trigger] consumption@[a]@[r] as int,
                    ) && 0 <= consumption@[a]@[r] <= capacity@[r],
                forall|a: int|
                    0 <= a < i ==> row_readable((#[trigger] lines@[2 + a])@, n, m, caps),
            decreases n_jobs - i,
        {
            let row = &lines[2 + i];
            let fields = split(row);
            let ghost succ0 = successors@;
            let ghost cons0 = consumption@;
            let ghost dur0 = duration@;
            proof {
                assert(row@ == lines@[2 + i]@);
            }
            let d = match number_of(row, &fields, 0) {
                Some(d) => d,
                None => {
                    proof {
                        assert(!row_readable(lines@[2 + i]@, n, m, caps));
                    }
                    return None;
                },
            };
            let w = match read_consumption(row, &fields, &capacity) {
                Some(w) => w,
                None => {
                    proof {
                        assert(!row_readable(lines@[2 + i]@, n, m, caps));
                    }
                    return None;
                },
            };
            let list = match read_successors(row, &fields, n_jobs, n_resources) {
                Some(list) => list,
                None => {
                    proof {
                        assert(!row_readable(lines@[2 + i]@, n, m, caps));
                    }
                    return None;
                },
            };
            proof {
                assert forall|t: int| 0 <= t < list@.len() implies (#[trigger] list@[t])
                    < successors@.len() by {
                    assert(number_at(row@, 2 + m + t) == Some(list@[t] + 1));
                }
            }
            enter_successors(&mut predecessors, &mut successors, i, &list);
            duration.push(d);
            consumption.push(w);
            proof {
                assert(row_readable(lines@[2 + i]@, n, m, caps));
                assert(bitset_ones(successors@[i as int]) =~= listed(row@, m)) by {
                    assert forall|j: int|
                        bitset_ones(successors@[i as int]).contains(j) == listed(row@, m).contains(
                            j,
                        ) by {
                        if bitset_ones(successors@[i as int]).contains(j) {
                            assert(!bitset_ones(succ0[i as int]).contains(j));
                            let t = choose|t: int| 0 <= t < list@.len() && #[trigger] list@[t] == j;
                            assert(number_at(row@, 2 + m + t) == Some(j + 1));
                        }
                        if listed(row@, m).contains(j) {
                            let t = choose|t: int|
                                0 <= t < number_at(row@, 1 + m).unwrap() && #[trigger] number_at(
                                    row@,
                                    2 + m + t,
                                ) == Some(j + 1);
                            assert(list@[t] == j);
                        }
                    }
                }
                assert forall|a: int| i + 1 <= a < n implies bitset_ones(
                    #[trigger] successors@[a],
                ) == Set::<int>::empty() by {
                    assert(bitset_ones(succ0[a]) == Set::<int>::empty());
                }
                assert forall|a: int| 0 <= a < i + 1 implies bitset_ones(
                    #[trigger] successors@[a],
                ) == listed(lines@[2 + a]@, m) by {
                    if a < i {
                        assert(bitset_ones(succ0[a]) == listed(lines@[2 + a]@, m));
                    }
                }
                assert forall|a: int| 0 <= a < i + 1 implies number_at(lines@[2 + a]@, 0) == Some(
                    #[trigger] duration@[a] as int,
                ) && 0 <= duration@[a] by {
                    if a < i {
                        assert(duration@[a] == dur0[a]);
                    }
                }
                assert forall|a: int| 0 <= a < i + 1 implies (#[trigger] consumption@[a])@.len()
                    == m by {
                    if a < i {
                        assert(consumption@[a] == cons0[a]);
                    }
                }
                assert forall|a: int, r: int| 0 <= a < i + 1 && 0 <= r < m implies number_at(
                    lines@[2 + a]@,
                    1 + r,
                ) == Some(#[trigger] consumption@[a]@[r] as int) && 0 <= consumption@[a]@[r]
                    <= capacity@[r] by {
                    if a < i {
                        assert(consumption@[a] == cons0[a]);
                    }
                }
            }
            i += 1;
        }
        let inst = RcpspInstance {
            n_jobs,
            n_resources,
            predecessors,
            successors,
            duration,
            consumption,
            capacity,
        };
        proof {
            assert forall|a: int| 0 <= a < n implies row_readable(
                (#[trigger] lines@[2 + a])@,
                n,
                m,
                caps,
            ) by {}
            assert(readable(lines@));
            assert forall|r: int| 0 <= r < inst.n_resources implies 0
                <= #[trigger] inst.capacity@[r] by {
                assert(number_at(lines@[1]@, r) == Some(inst.capacity@[r] as int));
            }
        }
        Some(inst)
    }
}

} // verus!
