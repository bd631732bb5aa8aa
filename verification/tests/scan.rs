use spacehog::scan::{ScanState, CADENCE_MILLIS};
use spacehog::FileSize;

fn file(size: u64, path: &str) -> (FileSize, String) {
    (FileSize::from(size), path.to_string())
}

fn observe(
    scan: &mut ScanState,
    size: u64,
    path: &str,
    now: u64,
) -> Option<Vec<(FileSize, String)>> {
    scan.observe(FileSize::from(size), path.to_string(), now)
}

#[test]
fn cadence_is_sixteen_milliseconds() {
    assert_eq!(CADENCE_MILLIS, 16);
}

#[test]
fn scan_hands_out_a_snapshot_when_the_last_one_is_old_enough() {
    let mut scan = ScanState::new(2, 100);
    assert_eq!(observe(&mut scan, 20, "a", 100), None);
    assert_eq!(observe(&mut scan, 10, "b", 115), None);
    assert_eq!(observe(&mut scan, 30, "c", 116), Some(vec![file(30, "c"), file(20, "a")]));
    assert_eq!(observe(&mut scan, 40, "d", 117), None);
    assert_eq!(observe(&mut scan, 50, "e", 131), None);
    let snapshot = observe(&mut scan, 5, "f", 200);
    assert_eq!(snapshot, Some(vec![file(50, "e"), file(40, "d")]));
    assert_eq!(scan.finish(), snapshot.unwrap());
}

#[test]
fn scan_counts_the_file_at_hand_in_the_snapshot_that_it_sets_off() {
    let mut scan = ScanState::new(5, 0);
    assert_eq!(observe(&mut scan, 1, "a", 16), Some(vec![file(1, "a")]));
}

#[test]
fn scan_hands_out_nothing_on_a_clock_that_runs_backwards() {
    let mut scan = ScanState::new(5, 1000);
    assert_eq!(observe(&mut scan, 1, "a", 0), None);
    assert_eq!(observe(&mut scan, 2, "b", 999), None);
    assert_eq!(observe(&mut scan, 3, "c", 1015), None);
    assert_eq!(observe(&mut scan, 4, "d", 1016).map(|files| files.len()), Some(4));
    assert_eq!(observe(&mut scan, 5, "e", u64::MAX).map(|files| files.len()), Some(5));
}

#[test]
fn scan_ends_with_a_snapshot_even_of_nothing() {
    assert_eq!(ScanState::new(5, 0).finish(), Vec::new());
    assert_eq!(ScanState::new(0, 0).finish(), Vec::new());
}

#[test]
fn scan_ends_with_the_largest_of_all_files() {
    let mut scan = ScanState::new(2, 0);
    for (i, (size, path)) in [(20, "root/a.txt"), (10, "root/sub/b.txt"), (30, "root/sub/c.txt")]
        .into_iter()
        .enumerate()
    {
        assert_eq!(observe(&mut scan, size, path, i as u64), None);
    }
    let last = scan.finish();
    assert_eq!(last, vec![file(30, "root/sub/c.txt"), file(20, "root/a.txt")]);
}

#[test]
fn scan_leaves_out_files_below_the_least_size() {
    let mut scan = ScanState::with_min_size(5, 10, 0);
    assert_eq!(observe(&mut scan, 9, "small", 1), None);
    assert_eq!(observe(&mut scan, 10, "just", 2), None);
    assert_eq!(observe(&mut scan, 0, "empty", 16), Some(vec![file(10, "just")]));
    assert_eq!(observe(&mut scan, 11, "more", 17), None);
    assert_eq!(scan.finish(), vec![file(11, "more"), file(10, "just")]);
}

#[test]
fn scan_without_a_least_size_takes_empty_files_in() {
    let mut scan = ScanState::new(5, 0);
    assert_eq!(observe(&mut scan, 0, "empty", 1), None);
    assert_eq!(scan.finish(), vec![file(0, "empty")]);
}
