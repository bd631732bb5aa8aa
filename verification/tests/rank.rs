use spacehog::entries::Entry;
use spacehog::files::File;
use spacehog::rank::{relate, Relation};
use spacehog::FileSize;

#[test]
fn files_rank_by_size_first() {
    assert_eq!(relate(&File::new("z", 1), &File::new("a", 2)), Relation::Below);
    assert_eq!(relate(&File::new("a", 2), &File::new("z", 1)), Relation::Above);
    assert_eq!(relate(&File::new("", 0), &File::new("", u64::MAX)), Relation::Below);
}

#[test]
fn files_of_one_size_rank_by_path() {
    assert_eq!(relate(&File::new("a", 1), &File::new("b", 1)), Relation::Below);
    assert_eq!(relate(&File::new("b", 1), &File::new("a", 1)), Relation::Above);
    assert_eq!(relate(&File::new("a", 1), &File::new("a", 1)), Relation::Same);
    assert_eq!(relate(&File::new("a", 1), &File::new("ab", 1)), Relation::Below);
    assert_eq!(relate(&File::new("", 1), &File::new("a", 1)), Relation::Below);
    assert_eq!(relate(&File::new("B", 1), &File::new("a", 1)), Relation::Below);
    assert_eq!(relate(&File::new("z", 1), &File::new("é", 1)), Relation::Below);
    assert_eq!(relate(&File::new("a/b", 1), &File::new("a.b", 1)), Relation::Above);
}

#[test]
fn ranking_does_not_ask_what_kind_of_value_is_ranked() {
    let entry = Entry::new("/path/to/d.txt", 10);
    let file = File::new("/path/to/b.txt", 10);
    let pair = (FileSize::from(10), "/path/to/d.txt".to_string());
    assert_eq!(relate(&entry, &file), Relation::Above);
    assert_eq!(relate(&file, &pair), Relation::Below);
    assert_eq!(relate(&pair, &entry), Relation::Same);
}

#[test]
fn ranking_agrees_with_the_order_of_the_values() {
    let paths = ["", "a", "a/", "a/b", "ab", "b", "é", "~", "A", "a\u{10FFFF}", "a\u{7f}"];
    for one in paths {
        for other in paths {
            for (m, n) in [(1u64, 1u64), (1, 2), (2, 1)] {
                let (x, y) = (File::new(one, m), File::new(other, n));
                let want = match x.cmp(&y) {
                    std::cmp::Ordering::Less => Relation::Below,
                    std::cmp::Ordering::Equal => Relation::Same,
                    std::cmp::Ordering::Greater => Relation::Above,
                };
                assert_eq!(relate(&x, &y), want, "{one:?} {m} and {other:?} {n}");
            }
        }
    }
}
