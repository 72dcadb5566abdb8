use pbs::checker::check_split;
use pbs::radix_naive::radix_sort;
use pbs::scheduler::{Scheduler, SLICE_SIZE};
use pbs::splitters::ScalarSplitter;

fn sorted_copy(v: &[u64]) -> Vec<u64> {
    let mut c = v.to_vec();
    c.sort();
    c
}

#[test]
fn s1_small() {
    let mut buf = vec![
        0x0000000000000000u64,
        0xFFFFFFFFFFFFFFFFu64,
        0x8000000000000000u64,
        0x0000000000000001u64,
    ];
    radix_sort(&mut buf);
    assert_eq!(
        buf,
        vec![0x0u64, 0x1u64, 0x8000000000000000u64, 0xFFFFFFFFFFFFFFFFu64]
    );
}

#[test]
fn s2_uniform() {
    let mut buf = vec![7u64, 7, 7, 7];
    radix_sort(&mut buf);
    assert_eq!(buf, vec![7u64, 7, 7, 7]);
}

#[test]
fn s2_uniform_scheduler() {
    // one full slice of identical keys: the "all keys same" base case
    let input = vec![7u64; SLICE_SIZE];
    let mut output = vec![0u64; SLICE_SIZE];
    let mut sched = Scheduler::new();
    let mut splitter = ScalarSplitter;
    sched.split(&input, &mut output, &mut splitter);
    assert_eq!(output, vec![7u64; SLICE_SIZE]);
}

#[test]
fn s2_uniform_two_slices() {
    // two full slices of one key: every split routes the whole bucket to a
    // single child, so the traversal descends through all eight digit
    // levels and emits the still-multi-slice bucket at the bottom
    let input = vec![0xDEADBEEFDEADBEEFu64; 2 * SLICE_SIZE];
    let mut output = vec![0u64; 2 * SLICE_SIZE];
    let mut sched = Scheduler::new();
    let mut splitter = ScalarSplitter;
    sched.split(&input, &mut output, &mut splitter);
    assert_eq!(output, input);
    assert!(sched.get_splits().is_empty());
}

#[test]
fn s3_reverse_scheduler() {
    let n = SLICE_SIZE;
    let input: Vec<u64> = (0..n as u64).rev().collect();
    let mut output = vec![0u64; n];
    let mut sched = Scheduler::new();
    let mut splitter = ScalarSplitter;
    sched.split(&input, &mut output, &mut splitter);
    let expect: Vec<u64> = (0..n as u64).collect();
    assert_eq!(output, expect);
}

#[test]
fn s3_reverse() {
    let n = SLICE_SIZE as u64;
    let mut buf: Vec<u64> = (0..n).rev().collect();
    radix_sort(&mut buf);
    let expect: Vec<u64> = (0..n).collect();
    assert_eq!(buf, expect);
}

#[test]
fn s4_byte_boundaries() {
    let mut buf = vec![
        0x0200000000000000u64,
        0x01FFFFFFFFFFFFFFu64,
        0x0100000000000000u64,
        0x00FFFFFFFFFFFFFFu64,
    ];
    radix_sort(&mut buf);
    assert_eq!(
        buf,
        vec![
            0x00FFFFFFFFFFFFFFu64,
            0x0100000000000000u64,
            0x01FFFFFFFFFFFFFFu64,
            0x0200000000000000u64,
        ]
    );
}

#[test]
fn s4_byte_boundaries_scheduler() {
    // pad a slice with zeros around the boundary keys
    let mut input = vec![0u64; SLICE_SIZE];
    input[0] = 0x0200000000000000;
    input[1] = 0x01FFFFFFFFFFFFFF;
    input[2] = 0x0100000000000000;
    input[3] = 0x00FFFFFFFFFFFFFF;
    let mut output = vec![0u64; SLICE_SIZE];
    let mut sched = Scheduler::new();
    let mut splitter = ScalarSplitter;
    sched.split(&input, &mut output, &mut splitter);
    assert_eq!(output[SLICE_SIZE - 4], 0x00FFFFFFFFFFFFFF);
    assert_eq!(output[SLICE_SIZE - 3], 0x0100000000000000);
    assert_eq!(output[SLICE_SIZE - 2], 0x01FFFFFFFFFFFFFF);
    assert_eq!(output[SLICE_SIZE - 1], 0x0200000000000000);
    assert_eq!(&output[..SLICE_SIZE - 4], &vec![0u64; SLICE_SIZE - 4][..]);
}

#[test]
fn s5_lcg_scaled() {
    // the 1 GiB scenario, scaled to two slices of LCG-filled keys
    let n = 2 * SLICE_SIZE;
    let mut lcg = pbs::lcg::LCG::new();
    let mut input = Vec::with_capacity(n);
    for _ in 0..n {
        input.push(lcg.next());
    }
    let expect = sorted_copy(&input);

    let mut output = vec![0u64; n];
    let mut sched = Scheduler::new();
    let mut splitter = ScalarSplitter;
    sched.split(&input, &mut output, &mut splitter);
    assert_eq!(output, expect);
    assert!(check_split(&output, 64));
    assert!(check_split(&output, 8));
    assert!(sched.get_splits().is_empty());

    let mut buf = input.clone();
    radix_sort(&mut buf);
    assert_eq!(buf, expect);
}

#[test]
fn idempotence() {
    let n = 2 * SLICE_SIZE;
    let mut lcg = pbs::lcg::LCG::new();
    let mut input = Vec::with_capacity(n);
    for _ in 0..n {
        input.push(lcg.next());
    }
    let mut output = vec![0u64; n];
    let mut sched = Scheduler::new();
    let mut splitter = ScalarSplitter;
    sched.split(&input, &mut output, &mut splitter);
    // sorting the sorted buffer again returns an identical buffer
    let once = output.clone();
    let mut again = vec![0u64; n];
    sched.split(&once, &mut again, &mut splitter);
    assert_eq!(again, once);
    let mut naive = once.clone();
    radix_sort(&mut naive);
    assert_eq!(naive, once);
}

#[test]
fn scheduler_pool_reuse_across_runs() {
    // two runs on one scheduler: the second draws its slices from the pool
    let n = SLICE_SIZE;
    let mut sched = Scheduler::new();
    let mut splitter = ScalarSplitter;
    let input1: Vec<u64> = (0..n as u64).map(|k| k.wrapping_mul(0x9E3779B97F4A7C15)).collect();
    let mut output1 = vec![0u64; n];
    sched.split(&input1, &mut output1, &mut splitter);
    assert_eq!(output1, sorted_copy(&input1));
    let input2: Vec<u64> = (0..n as u64).map(|k| !k).collect();
    let mut output2 = vec![0u64; n];
    sched.split(&input2, &mut output2, &mut splitter);
    assert_eq!(output2, sorted_copy(&input2));
}

#[test]
fn empty_input() {
    let mut buf: Vec<u64> = Vec::new();
    radix_sort(&mut buf);
    assert!(buf.is_empty());
    let input: Vec<u64> = Vec::new();
    let mut output: Vec<u64> = Vec::new();
    let mut sched = Scheduler::new();
    let mut splitter = ScalarSplitter;
    sched.split(&input, &mut output, &mut splitter);
    assert!(output.is_empty());
}

#[test]
fn naive_large_mixed() {
    // more keys than the small-sort threshold in a single bucket
    let mut buf: Vec<u64> = (0..1000u64).rev().map(|k| k * 3).collect();
    let expect = sorted_copy(&buf);
    radix_sort(&mut buf);
    assert_eq!(buf, expect);
}
