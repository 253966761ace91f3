use fixedbitset::FixedBitSet;
use rcpsp::instance::RcpspInstance;

fn lines(text: &str) -> Vec<Vec<u8>> {
    text.lines().map(|l| l.as_bytes().to_vec()).collect()
}

fn bits(n: usize, ones: &[usize]) -> FixedBitSet {
    let mut b = FixedBitSet::with_capacity(n);
    for i in ones {
        b.insert(*i);
    }
    b
}

const DIAMOND: &str = "4 1\n2\n0 0 2 2 3\n4 1 1 4\n4 1 1 4\n0 0 0\n";

#[test]
fn reads_a_project_of_four_jobs() {
    let inst = RcpspInstance::from_lines(&lines(DIAMOND)).unwrap();
    assert_eq!(inst.n_jobs, 4);
    assert_eq!(inst.n_resources, 1);
    assert_eq!(inst.capacity, vec![2]);
    assert_eq!(inst.duration, vec![0, 4, 4, 0]);
    assert_eq!(inst.consumption, vec![vec![0], vec![1], vec![1], vec![0]]);
    assert_eq!(
        inst.successors,
        vec![bits(4, &[1, 2]), bits(4, &[3]), bits(4, &[3]), bits(4, &[])]
    );
    assert_eq!(
        inst.predecessors,
        vec![bits(4, &[]), bits(4, &[0]), bits(4, &[0]), bits(4, &[1, 2])]
    );
}

#[test]
fn reads_a_project_without_resources() {
    let inst = RcpspInstance::from_lines(&lines("2 0\n\n0 1 2\n5 0\n")).unwrap();
    assert_eq!(inst.n_jobs, 2);
    assert_eq!(inst.n_resources, 0);
    assert_eq!(inst.capacity, Vec::<isize>::new());
    assert_eq!(inst.duration, vec![0, 5]);
    assert_eq!(inst.consumption, vec![Vec::<isize>::new(), Vec::<isize>::new()]);
    assert_eq!(inst.successors, vec![bits(2, &[1]), bits(2, &[])]);
    assert_eq!(inst.predecessors, vec![bits(2, &[]), bits(2, &[0])]);
}

#[test]
fn reads_two_resources() {
    let text = "3 2\n 4 7 \n0 0 0 1 2\n3 4 5 1 3\n0 0 0 0\n";
    let inst = RcpspInstance::from_lines(&lines(text)).unwrap();
    assert_eq!(inst.capacity, vec![4, 7]);
    assert_eq!(inst.duration, vec![0, 3, 0]);
    assert_eq!(inst.consumption, vec![vec![0, 0], vec![4, 5], vec![0, 0]]);
    assert_eq!(inst.successors, vec![bits(3, &[1]), bits(3, &[2]), bits(3, &[])]);
}

#[test]
fn any_space_parts_the_words() {
    let text = "  4\t1  \r\n\t2\r\n0 0 2 2 3\r\n4\t\t1 1 4\n 4 1 1 4 \n0 0 0\r\n";
    let a = RcpspInstance::from_lines(&lines(text)).unwrap();
    let b = RcpspInstance::from_lines(&lines(DIAMOND)).unwrap();
    assert_eq!(a.duration, b.duration);
    assert_eq!(a.consumption, b.consumption);
    assert_eq!(a.capacity, b.capacity);
    assert_eq!(a.successors, b.successors);
    assert_eq!(a.predecessors, b.predecessors);
}

#[test]
fn words_and_lines_behind_what_is_read_do_not_matter() {
    let text = "4 1 seven\n2 9 x\n0 0 2 2 3 zz\n4 1 1 4 1 1\n4 1 1 4\n0 0 0 -\nrest\n\n12 a\n";
    let a = RcpspInstance::from_lines(&lines(text)).unwrap();
    let b = RcpspInstance::from_lines(&lines(DIAMOND)).unwrap();
    assert_eq!(a.n_jobs, 4);
    assert_eq!(a.n_resources, 1);
    assert_eq!(a.capacity, vec![2]);
    assert_eq!(a.duration, b.duration);
    assert_eq!(a.consumption, b.consumption);
    assert_eq!(a.successors, b.successors);
    assert_eq!(a.predecessors, b.predecessors);
}

#[test]
fn a_successor_named_twice_is_entered_once() {
    let inst = RcpspInstance::from_lines(&lines("3 0\n\n0 3 2 3 2\n1 1 3\n0 0\n")).unwrap();
    assert_eq!(inst.successors, vec![bits(3, &[1, 2]), bits(3, &[2]), bits(3, &[])]);
    assert_eq!(inst.predecessors, vec![bits(3, &[]), bits(3, &[0]), bits(3, &[0, 1])]);
}

#[test]
fn the_largest_number_is_read() {
    let text = format!("2 1\n{}\n{} 0 1 2\n0 0 0\n", isize::MAX, isize::MAX);
    let inst = RcpspInstance::from_lines(&lines(&text)).unwrap();
    assert_eq!(inst.capacity, vec![isize::MAX]);
    assert_eq!(inst.duration, vec![isize::MAX, 0]);
}

#[test]
fn leading_zeros_are_read() {
    let inst = RcpspInstance::from_lines(&lines("002 01\n007\n00 03 1 02\n010 0 0\n")).unwrap();
    assert_eq!(inst.capacity, vec![7]);
    assert_eq!(inst.duration, vec![0, 10]);
    assert_eq!(inst.consumption, vec![vec![3], vec![0]]);
}

#[test]
fn too_few_lines_are_refused() {
    assert!(RcpspInstance::from_lines(&lines("")).is_none());
    assert!(RcpspInstance::from_lines(&lines("4 1\n")).is_none());
    assert!(RcpspInstance::from_lines(&lines("4 1\n2\n0 0 2 2 3\n4 1 1 4\n4 1 1 4\n")).is_none());
}

#[test]
fn a_missing_count_is_refused() {
    assert!(RcpspInstance::from_lines(&lines("4\n2\n0 0 2 2 3\n4 1 1 4\n4 1 1 4\n0 0 0\n")).is_none());
    assert!(RcpspInstance::from_lines(&lines("\n2\n0 0 2 2 3\n4 1 1 4\n4 1 1 4\n0 0 0\n")).is_none());
}

#[test]
fn fewer_than_two_jobs_are_refused() {
    assert!(RcpspInstance::from_lines(&lines("1 0\n\n0 0\n")).is_none());
    assert!(RcpspInstance::from_lines(&lines("0 0\n\n")).is_none());
}

#[test]
fn a_missing_capacity_is_refused() {
    assert!(RcpspInstance::from_lines(&lines("2 2\n5\n0 0 0 1 2\n0 0 0 0\n")).is_none());
}

#[test]
fn a_word_that_is_no_number_is_refused() {
    assert!(RcpspInstance::from_lines(&lines("4 1\n2\n0 0 2 2 3\n4 x 1 4\n4 1 1 4\n0 0 0\n")).is_none());
    assert!(RcpspInstance::from_lines(&lines("4 1\n2\n0 0 2 2 3\n-4 1 1 4\n4 1 1 4\n0 0 0\n")).is_none());
    assert!(RcpspInstance::from_lines(&lines("4 1\n2\n0 0 2 2 3\n4 1 1 4\n4 1 1 4\n0 0 1.5\n")).is_none());
    assert!(RcpspInstance::from_lines(&lines("4 1\n+2\n0 0 2 2 3\n4 1 1 4\n4 1 1 4\n0 0 0\n")).is_none());
    assert!(RcpspInstance::from_lines(&lines("4 one\n2\n0 0 2 2 3\n4 1 1 4\n4 1 1 4\n0 0 0\n")).is_none());
}

#[test]
fn a_number_that_is_too_large_is_refused() {
    let text = "2 1\n9223372036854775808\n0 0 1 2\n0 0 0\n";
    assert!(RcpspInstance::from_lines(&lines(text)).is_none());
    let text = "2 1\n5\n99999999999999999999999999 0 1 2\n0 0 0\n";
    assert!(RcpspInstance::from_lines(&lines(text)).is_none());
}

#[test]
fn a_consumption_above_the_capacity_is_refused() {
    assert!(RcpspInstance::from_lines(&lines("4 1\n2\n0 0 2 2 3\n4 3 1 4\n4 1 1 4\n0 0 0\n")).is_none());
}

#[test]
fn a_short_job_line_is_refused() {
    // no consumption
    assert!(RcpspInstance::from_lines(&lines("2 1\n2\n0\n0 0 0\n")).is_none());
    // no number of successors
    assert!(RcpspInstance::from_lines(&lines("2 1\n2\n0 0\n0 0 0\n")).is_none());
    // fewer successors than announced
    assert!(RcpspInstance::from_lines(&lines("3 1\n2\n0 0 2 2\n0 0 0\n0 0 0\n")).is_none());
    // an empty line
    assert!(RcpspInstance::from_lines(&lines("2 1\n2\n\n0 0 0\n")).is_none());
}

#[test]
fn a_successor_out_of_range_is_refused() {
    assert!(RcpspInstance::from_lines(&lines("2 0\n\n0 1 0\n0 0\n")).is_none());
    assert!(RcpspInstance::from_lines(&lines("2 0\n\n0 1 3\n0 0\n")).is_none());
}
