use spacehog::select::WorkingSet;
use spacehog::{find_top_n_largest_files, FileSize};

fn file(size: u64, path: &str) -> (FileSize, String) {
    (FileSize::from(size), path.to_string())
}

fn filled(files: &[(u64, &str)]) -> WorkingSet {
    let mut set = WorkingSet::new();
    for (size, path) in files {
        set.insert(FileSize::from(*size), path.to_string());
    }
    set
}

#[test]
fn snapshot_holds_the_largest_files_largest_first() {
    let set = filled(&[(20, "a"), (10, "b"), (30, "c"), (25, "d")]);
    assert_eq!(set.snapshot(2), vec![file(30, "c"), file(25, "d")]);
    assert_eq!(set.snapshot(3), vec![file(30, "c"), file(25, "d"), file(20, "a")]);
}

#[test]
fn snapshot_orders_files_of_one_size_by_path_last_path_first() {
    let set = filled(&[(10, "/path/to/b.txt"), (10, "/path/to/d.txt"), (10, "/path/to/a.txt")]);
    assert_eq!(
        set.snapshot(5),
        vec![file(10, "/path/to/d.txt"), file(10, "/path/to/b.txt"), file(10, "/path/to/a.txt")]
    );
}

#[test]
fn snapshot_is_as_long_as_the_limit_or_as_the_files_seen() {
    let set = filled(&[(1, "a"), (2, "b"), (3, "c")]);
    for limit in 0..6 {
        assert_eq!(set.snapshot(limit).len(), limit.min(3));
    }
    assert_eq!(set.snapshot(usize::MAX).len(), 3);
    assert_eq!(WorkingSet::new().snapshot(5), Vec::new());
}

#[test]
fn snapshot_counts_a_file_seen_twice_once() {
    let set = filled(&[(1, "a"), (2, "b"), (1, "a"), (2, "b"), (1, "b")]);
    assert_eq!(set.len(), 3);
    assert_eq!(set.snapshot(10), vec![file(2, "b"), file(1, "b"), file(1, "a")]);
}

#[test]
fn snapshot_asked_for_twice_is_the_same() {
    let set = filled(&[(20, "a"), (10, "b"), (30, "c")]);
    let first = set.snapshot(2);
    let second = set.snapshot(2);
    assert_eq!(first, second);
    assert_eq!(set.len(), 3);
}

#[test]
fn snapshot_follows_the_files_as_they_come_in() {
    let mut set = WorkingSet::new();
    assert_eq!(set.len(), 0);
    set.insert(FileSize::from(10), "b".to_string());
    assert_eq!(set.snapshot(2), vec![file(10, "b")]);
    set.insert(FileSize::from(30), "c".to_string());
    assert_eq!(set.snapshot(2), vec![file(30, "c"), file(10, "b")]);
    set.insert(FileSize::from(20), "a".to_string());
    assert_eq!(set.snapshot(2), vec![file(30, "c"), file(20, "a")]);
    set.insert(FileSize::from(5), "z".to_string());
    assert_eq!(set.snapshot(2), vec![file(30, "c"), file(20, "a")]);
    assert_eq!(set.len(), 4);
}

#[test]
fn snapshot_does_not_depend_on_the_order_of_arrival() {
    let files = [(7, "x"), (7, "w"), (0, ""), (u64::MAX, "big"), (3, "a/b"), (3, "a"), (7, "xy")];
    let want = filled(&files).snapshot(4);
    let mut turned = files;
    for _ in 0..files.len() {
        turned.rotate_left(1);
        assert_eq!(filled(&turned).snapshot(4), want);
    }
    turned.reverse();
    assert_eq!(filled(&turned).snapshot(4), want);
    assert_eq!(want, vec![file(u64::MAX, "big"), file(7, "xy"), file(7, "x"), file(7, "w")]);
}

#[test]
fn largest_files_are_found_among_many() {
    let mut files = Vec::new();
    let mut size: u64 = 12345;
    for i in 0..500 {
        size = size.wrapping_mul(6364136223846793005).wrapping_add(1442695040888963407);
        files.push(file(size % 1000, &format!("dir{}/file{}", i % 7, i)));
    }
    let mut want: Vec<(FileSize, String)> = files.clone();
    want.sort();
    want.dedup();
    want.reverse();
    want.truncate(25);
    assert_eq!(find_top_n_largest_files(files, 25), want);
}

#[test]
fn largest_files_of_none_are_none() {
    assert_eq!(find_top_n_largest_files(Vec::new(), 5), Vec::new());
}
