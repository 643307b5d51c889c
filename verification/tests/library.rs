use array_vis_bench::abi::{run_input, CaptureLogger, Complexity, NoOpLogger, RunConfig, SortLogger};
use array_vis_bench::partition::Yaroslavskiy;
use array_vis_bench::rotations::{rotate, rotate_2};
use array_vis_bench::sorting::{hand_heapsort, hand_insertion_sort, hand_mergesort, hand_quicksort};

fn sample() -> Vec<u64> {
    vec![9, 3, 7, 3, 0, 12, 5, 5, 1, 8, 2, 11, 4, 6, 10, 3]
}

#[test]
fn hand_sorts_agree_with_std() {
    let mut expected = sample();
    expected.sort();
    for f in [hand_insertion_sort, hand_quicksort, hand_mergesort, hand_heapsort] {
        let mut a = sample();
        f(&mut a);
        assert_eq!(a, expected);
        let mut e: Vec<u64> = vec![];
        f(&mut e);
        assert!(e.is_empty());
        let mut one = vec![42u64];
        f(&mut one);
        assert_eq!(one, vec![42]);
    }
}

#[test]
fn rotations_rotate_left() {
    let mut a = [1, 2, 3, 4, 5, 6, 7];
    rotate(&mut a, 3, &mut NoOpLogger);
    assert_eq!(a, [4, 5, 6, 7, 1, 2, 3]);
    // the block-swap variant: a true rotation only when the split divides the
    // length (or passes the end, where it rotates by the split modulo the length)
    let mut b = [1, 2, 3, 4, 5, 6];
    rotate_2(&mut b, 3, &mut NoOpLogger);
    assert_eq!(b, [4, 5, 6, 1, 2, 3]);
    let mut b = [1, 2, 3, 4, 5, 6, 7];
    rotate_2(&mut b, 3, &mut NoOpLogger);
    assert_eq!(b, [4, 5, 6, 7, 2, 3, 1]);
    let mut b = [0, 1, 2, 3, 4];
    rotate_2(&mut b, 2, &mut NoOpLogger);
    assert_eq!(b, [2, 3, 4, 1, 0]);
    let mut b = [0, 1, 2, 3, 4];
    rotate_2(&mut b, 7, &mut NoOpLogger);
    assert_eq!(b, [2, 3, 4, 0, 1]);
    let mut b = [0, 1, 2, 3, 4];
    rotate_2(&mut b, 5, &mut NoOpLogger);
    assert_eq!(b, [0, 1, 2, 3, 4]);
    let mut c = ['a', 'b'];
    rotate(&mut c, 0, &mut NoOpLogger);
    assert_eq!(c, ['a', 'b']);
    rotate(&mut c, 2, &mut NoOpLogger);
    assert_eq!(c, ['a', 'b']);
}

#[test]
fn rotating_by_k_then_by_the_rest_restores() {
    let orig = [5u8, 1, 4, 1, 5, 9, 2, 6];
    for k in 0..=orig.len() {
        let mut a = orig;
        rotate(&mut a, k, &mut NoOpLogger);
        rotate(&mut a, orig.len() - k, &mut NoOpLogger);
        assert_eq!(a, orig);
    }
}

#[test]
fn dual_pivot_partition_splits_into_three_regions() {
    let mut a = vec![5u64, 9, 1, 7, 3, 8, 2, 6, 4];
    let regions = Yaroslavskiy::partition(&mut a, &mut NoOpLogger, &[0, 1]);
    let mut sorted_a = a.clone();
    sorted_a.sort();
    assert_eq!(sorted_a, vec![1, 2, 3, 4, 5, 6, 7, 8, 9]);
    // the first region is below the smaller pivot, and the regions never
    // overlap the pivots' final places.
    let (lo, lt) = regions[0];
    assert_eq!(lo, 0);
    assert!(a[..lt].iter().all(|&x| x <= a[lt]));
    let mut short = vec![4u64];
    assert!(Yaroslavskiy::partition(&mut short, &mut NoOpLogger, &[]).is_empty());
}

#[test]
fn run_input_is_the_hashed_sequence() {
    let config = RunConfig { size: 5, seed: 3 };
    let v = run_input(&config);
    let expected: Vec<usize> = (0..5usize).map(|i| (i.wrapping_mul(2_654_435_761) ^ 3) % 5).collect();
    assert_eq!(v, expected);
    assert!(run_input(&RunConfig { size: 0, seed: 9 }).is_empty());
}

#[test]
fn capture_logger_records_events() {
    let mut l = CaptureLogger::default();
    l.create_array(3);
    l.write(1, 7);
    l.compare(0, 2);
    l.swap(1, 2);
    assert_eq!(l.events, vec!["create 3", "write 1 7", "cmp 0 2", "swap 1 2"]);
    assert_eq!(Complexity::unknown().0, "O(?)");
    assert_eq!(Complexity::from_str("O(n)").0, "O(n)");
}

#[test]
fn rotations_report_each_swap_to_the_logger() {
    // three reversals: `[..1]` (nothing), `[1..]` (relative 0 2), the whole (0 3, 1 2)
    let mut a = [1usize, 2, 3, 4];
    let mut l = CaptureLogger::default();
    rotate(&mut a, 1, &mut l);
    assert_eq!(a, [2, 3, 4, 1]);
    assert_eq!(l.events, vec!["swap 0 2", "swap 0 3", "swap 1 2"]);
    // block swaps forward, then the trailing `len % split` (here 1) rotated by
    // zero: its reversal done twice, with nothing to swap
    let mut b = [0usize, 1, 2, 3, 4];
    let mut l = CaptureLogger::default();
    rotate_2(&mut b, 2, &mut l);
    assert_eq!(b, [2, 3, 4, 1, 0]);
    assert_eq!(l.events, vec!["swap 0 2", "swap 1 3", "swap 2 4"]);
}

struct EventLog(Vec<String>);

impl SortLogger<u64> for EventLog {
    fn create_array(&mut self, len: usize) {
        self.0.push(format!("create {len}"));
    }
    fn write(&mut self, index: usize, value: u64) {
        self.0.push(format!("write {index} {value}"));
    }
    fn compare(&mut self, i: usize, ii: usize) {
        self.0.push(format!("cmp {i} {ii}"));
    }
    fn swap(&mut self, i: usize, ii: usize) {
        self.0.push(format!("swap {i} {ii}"));
    }
}

#[test]
fn dual_pivot_partition_reports_its_swaps() {
    let mut a = vec![3u64, 1, 2];
    let mut log = EventLog(Vec::new());
    let regions = Yaroslavskiy::partition(&mut a, &mut log, &[0, 1]);
    assert_eq!(a, vec![1, 2, 3]);
    assert_eq!(regions, vec![(0, 0), (1, 2)]);
    assert_eq!(log.0, vec!["swap 0 0", "swap 1 2", "cmp 0 2", "swap 0 2", "cmp 1 0", "cmp 1 2", "swap 0 0", "swap 2 2"]);
}

#[test]
fn menu_entries_join_the_path_then_the_name() {
    assert_eq!(array_vis_bench::abi::menu_entry("Lomuto", &["partitions", "classic"]), "partitions/classic/Lomuto");
    assert_eq!(array_vis_bench::abi::menu_entry("X", &["sorts"]), "sorts/X");
    assert_eq!(array_vis_bench::abi::menu_entry("X", &[]), "/X");
}
