use pbs::checker::check_split;
use pbs::lcg::{LCG, A, C};
use pbs::scheduler::{ActiveSlices, Scheduler, SplittingBucket, SLICE_SIZE, SLICE_SIZE_BYTES};

#[test]
fn lcg_first_output_is_seed() {
    let mut lcg = LCG::new();
    assert_eq!(lcg.next(), A);
}

#[test]
fn lcg_exact_steps() {
    let mut lcg = LCG::new();
    let x0 = lcg.next();
    let x1 = lcg.next();
    let x2 = lcg.next();
    assert_eq!(x0, 6364136223846793005);
    assert_eq!(x1, x0.wrapping_mul(A).wrapping_add(C));
    assert_eq!(x2, x1.wrapping_mul(A).wrapping_add(C));
}

#[test]
fn lcg_deterministic_streams() {
    let mut a = LCG::new();
    let mut b = LCG::new();
    for _ in 0..100 {
        assert_eq!(a.next(), b.next());
    }
}

#[test]
fn lcg_next_owning_matches_next() {
    let mut a = LCG::new();
    let b = LCG::new();
    let (x, b) = b.next_owning();
    let (y, _) = b.next_owning();
    assert_eq!(x, a.next());
    assert_eq!(y, a.next());
}

#[test]
fn len_of_ptr_encoding() {
    // a null cursor holds nothing
    assert_eq!(ActiveSlices::len_of_ptr(0), 0);
    let base = 7 * SLICE_SIZE_BYTES;
    // one key written: the cursor sits one key past the base
    assert_eq!(ActiveSlices::len_of_ptr(base + 8), 1);
    // a partial slice: the offset in keys is the fill
    assert_eq!(ActiveSlices::len_of_ptr(base + 8 * 100), 100);
    // a full slice: the cursor advanced to the next boundary
    assert_eq!(ActiveSlices::len_of_ptr(base + 8 * SLICE_SIZE), SLICE_SIZE);
}

#[test]
fn active_slices_insert_and_lens() {
    let mut act = ActiveSlices::default();
    let mut bucket = SplittingBucket::default();
    let mut sched = Scheduler::new();
    assert_eq!(act.len_of_bucket(3), 0);
    assert_eq!(act.total_lens_of_buckets(), 0);
    act.insert_element(&mut bucket, &mut sched, 11, 3);
    act.insert_element(&mut bucket, &mut sched, 12, 3);
    act.insert_element(&mut bucket, &mut sched, 13, 200);
    assert_eq!(act.len_of_bucket(3), 2);
    assert_eq!(act.len_of_bucket(200), 1);
    assert_eq!(act.total_lens_of_buckets(), 3);
    assert_eq!(act.total_lens_of_full_buckets(&bucket), 3);
}

#[test]
fn active_slices_flush_on_full() {
    let mut act = ActiveSlices::default();
    let mut bucket = SplittingBucket::default();
    let mut sched = Scheduler::new();
    for k in 0..(SLICE_SIZE as u64 + 5) {
        act.insert_element(&mut bucket, &mut sched, k, 0);
    }
    // one full slice moved to the child; five keys buffered in the cursor
    assert_eq!(bucket.children[0].slices.len(), 1);
    assert_eq!(bucket.children[0].slices[0].len(), SLICE_SIZE);
    assert_eq!(act.len_of_bucket(0), 5);
    assert_eq!(
        act.total_lens_of_full_buckets(&bucket),
        SLICE_SIZE + 5
    );
}

#[test]
fn active_slices_insert_elements_fast_path() {
    let mut act = ActiveSlices::default();
    let mut bucket = SplittingBucket::default();
    let mut sched = Scheduler::new();
    act.insert_element(&mut bucket, &mut sched, 1, 9);
    let run = vec![2u64, 3, 4];
    act.insert_elements(&mut bucket, &mut sched, &run, 9);
    assert_eq!(act.len_of_bucket(9), 4);
}

#[test]
fn complete_attaches_cursors() {
    let mut act = ActiveSlices::default();
    let mut bucket = SplittingBucket::default();
    let mut sched = Scheduler::new();
    act.insert_element(&mut bucket, &mut sched, 5, 7);
    act.insert_element(&mut bucket, &mut sched, 6, 7);
    act.complete(&mut bucket);
    assert_eq!(bucket.children[7].slices.len(), 1);
    assert_eq!(bucket.children[7].slices[0], vec![5u64, 6]);
    assert_eq!(bucket.children[8].slices.len(), 0);
}

#[test]
fn get_splits_empty_scheduler() {
    let mut sched = Scheduler::new();
    assert!(sched.get_splits().is_empty());
}

#[test]
fn check_split_exact() {
    let ascending = vec![1u64 << 56, 2u64 << 56, 3u64 << 56];
    assert!(check_split(&ascending, 8));
    assert!(check_split(&ascending, 64));
    let descending = vec![3u64 << 56, 2u64 << 56, 1u64 << 56];
    assert!(!check_split(&descending, 8));
    // keys whose top byte ties but whose low bits descend: an 8-bit sweep
    // accepts them, a full-width sweep does not
    let low_descent = vec![(1u64 << 56) | 9, (1u64 << 56) | 4];
    assert!(check_split(&low_descent, 8));
    assert!(!check_split(&low_descent, 64));
    let empty: Vec<u64> = Vec::new();
    assert!(check_split(&empty, 64));
}
