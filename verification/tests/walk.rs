use spacehog::files::{walk_dir, Answer, File, FileIter, Request};
use spacehog::{find_files_in_path, find_top_n_largest_files, FileSize};

/// What a directory of the tree under test holds under one name.
enum Node {
    File(&'static str, u64),
    Dir(&'static str, Vec<Node>),
    /// A directory that cannot be opened.
    Locked(&'static str),
    /// A file whose size cannot be read.
    Torn(&'static str),
    /// An entry that cannot be read at all.
    Unreadable,
}

/// A directory that the driver has open.
struct Open<'a> {
    path: String,
    entries: &'a [Node],
    next: usize,
}

fn name_of(node: &Node) -> &'static str {
    match node {
        Node::File(name, _) | Node::Dir(name, _) | Node::Locked(name) | Node::Torn(name) => name,
        Node::Unreadable => "",
    }
}

/// Does what the walk asks for on the tree, as a driver does it on a disk.
fn answer<'a>(
    request: Request,
    open: &mut Vec<Open<'a>>,
    at_hand: &mut Option<(&'a Node, String)>,
) -> Answer {
    match request {
        Request::Read => {
            let dir = open.last_mut().unwrap();
            if dir.next == dir.entries.len() {
                open.pop();
                return Answer::Drained;
            }
            let node = &dir.entries[dir.next];
            dir.next += 1;
            if let Node::Unreadable = node {
                return Answer::Failed;
            }
            let path = format!("{}/{}", dir.path, name_of(node));
            *at_hand = Some((node, path.clone()));
            Answer::Listed(path)
        }
        Request::Probe => match at_hand.as_ref().unwrap().0 {
            Node::Dir(..) | Node::Locked(_) => Answer::Directory,
            _ => Answer::Other,
        },
        Request::Open => {
            let (node, path) = at_hand.take().unwrap();
            match node {
                Node::Dir(_, entries) => {
                    open.push(Open { path, entries, next: 0 });
                    Answer::Opened
                }
                _ => Answer::Failed,
            }
        }
        Request::Measure => match at_hand.take().unwrap().0 {
            Node::File(_, size) => Answer::Measured(*size),
            _ => Answer::Failed,
        },
        Request::Stop => unreachable!(),
    }
}

/// Drives `walk` over the tree to its end and collects what it hands out.
fn drive(root: &str, entries: &[Node], mut walk: FileIter) -> Vec<File> {
    let mut open = vec![Open { path: root.to_string(), entries, next: 0 }];
    let mut at_hand = None;
    let mut found = Vec::new();
    loop {
        let request = walk.request();
        if request == Request::Stop {
            return found;
        }
        if let Some(file) = walk.advance(answer(request, &mut open, &mut at_hand)) {
            found.push(file);
        }
    }
}

fn scan(root: &str, entries: &[Node], limit: usize, ignore_hidden: bool) -> Vec<(String, String)> {
    let walk = find_files_in_path::<String>(Ok(()), ignore_hidden).unwrap();
    let files = drive(root, entries, walk)
        .into_iter()
        .map(|file| (FileSize::from(file.size().bytes()), file.path().to_string()))
        .collect();
    find_top_n_largest_files(files, limit)
        .into_iter()
        .map(|(size, path)| (size.to_string(), path))
        .collect()
}

fn paths(files: &[File]) -> Vec<&str> {
    files.iter().map(|file| file.path()).collect()
}

fn pair(size: &str, path: &str) -> (String, String) {
    (size.to_string(), path.to_string())
}

fn small_tree() -> Vec<Node> {
    vec![
        Node::File("a.txt", 20),
        Node::Dir("sub", vec![Node::File("b.txt", 10), Node::File("c.txt", 30)]),
    ]
}

fn hidden_tree() -> Vec<Node> {
    vec![Node::Dir(".tmpA1b2", vec![Node::File("test.txt", 10)])]
}

#[test]
fn scan_of_a_small_tree_yields_its_two_largest_files() {
    let got = scan("root", &small_tree(), 2, true);
    assert_eq!(got, vec![pair("30 B", "root/sub/c.txt"), pair("20 B", "root/a.txt")]);
}

#[test]
fn scan_of_an_empty_directory_yields_an_empty_snapshot() {
    assert_eq!(scan("root", &[], 5, true), Vec::new());
    assert_eq!(scan("root", &[Node::Dir("sub", vec![])], 5, true), Vec::new());
}

#[test]
fn scan_ignores_a_hidden_directory_and_what_is_in_it() {
    assert_eq!(scan("root", &hidden_tree(), 5, true), Vec::new());
}

#[test]
fn scan_includes_a_hidden_directory_when_told_to() {
    let got = scan("root", &hidden_tree(), 5, false);
    assert_eq!(got, vec![pair("10 B", "root/.tmpA1b2/test.txt")]);
}

#[test]
fn scan_with_a_limit_beyond_the_files_yields_all_of_them_ranked() {
    let got = scan("root", &small_tree(), 10, true);
    assert_eq!(
        got,
        vec![
            pair("30 B", "root/sub/c.txt"),
            pair("20 B", "root/a.txt"),
            pair("10 B", "root/sub/b.txt"),
        ]
    );
}

#[test]
fn scan_with_a_limit_of_zero_yields_nothing() {
    assert_eq!(scan("root", &small_tree(), 0, true), Vec::new());
}

#[test]
fn walk_hands_out_files_depth_first() {
    let tree = vec![
        Node::File("a", 1),
        Node::Dir(
            "b",
            vec![
                Node::File("c", 2),
                Node::Dir("d", vec![Node::File("e", 3)]),
                Node::Dir("f", vec![]),
                Node::File("g", 4),
            ],
        ),
        Node::File("h", 5),
    ];
    let found = drive(".", &tree, walk_dir::<String>(Ok(())).unwrap());
    assert_eq!(paths(&found), vec!["./a", "./b/c", "./b/d/e", "./b/g", "./h"]);
    let sizes: Vec<u64> = found.iter().map(|file| file.size().bytes()).collect();
    assert_eq!(sizes, vec![1, 2, 3, 4, 5]);
}

#[test]
fn walk_passes_over_hidden_files_and_directories_only_when_told_to() {
    let tree = vec![
        Node::File(".profile", 1),
        Node::Dir(
            ".git",
            vec![Node::File("config", 2), Node::Dir("objects", vec![Node::File("x", 3)])],
        ),
        Node::Dir("src", vec![Node::File(".hidden", 4), Node::File("shown", 5)]),
    ];
    let found = drive("root", &tree, FileIter::new(true));
    assert_eq!(paths(&found), vec!["root/src/shown"]);
    let found = drive("root", &tree, FileIter::new(false));
    assert_eq!(
        paths(&found),
        vec![
            "root/.profile",
            "root/.git/config",
            "root/.git/objects/x",
            "root/src/.hidden",
            "root/src/shown",
        ]
    );
}

#[test]
fn walk_below_a_hidden_root_is_not_hidden() {
    let found = drive("/home/me/.config", &[Node::File("a", 1)], FileIter::new(true));
    assert_eq!(paths(&found), vec!["/home/me/.config/a"]);
}

#[test]
fn walk_ends_at_a_directory_that_cannot_be_opened() {
    let tree = vec![
        Node::File("a", 1),
        Node::Dir("b", vec![Node::File("c", 2), Node::Locked("d"), Node::File("e", 3)]),
        Node::File("f", 4),
    ];
    let found = drive("root", &tree, FileIter::new(true));
    assert_eq!(paths(&found), vec!["root/a", "root/b/c"]);
}

#[test]
fn walk_ends_at_a_file_whose_size_cannot_be_read() {
    let tree = vec![Node::File("a", 1), Node::Torn("b"), Node::File("c", 2)];
    let found = drive("root", &tree, FileIter::new(true));
    assert_eq!(paths(&found), vec!["root/a"]);
}

#[test]
fn walk_ends_at_an_entry_that_cannot_be_read() {
    let tree = vec![Node::File("a", 1), Node::Unreadable, Node::File("c", 2)];
    let found = drive("root", &tree, FileIter::new(true));
    assert_eq!(paths(&found), vec!["root/a"]);
}

#[test]
fn walk_does_not_trip_over_what_it_passes_over() {
    let tree = vec![Node::Locked(".cache"), Node::Torn(".lock"), Node::File("a", 1)];
    let found = drive("root", &tree, FileIter::new(true));
    assert_eq!(paths(&found), vec!["root/a"]);
    let found = drive("root", &tree, FileIter::new(false));
    assert_eq!(paths(&found), Vec::<&str>::new());
}

#[test]
fn walk_goes_as_deep_as_the_tree() {
    let mut tree = vec![Node::File("bottom", 7)];
    for _ in 0..2000 {
        tree = vec![Node::Dir("d", tree)];
    }
    let found = drive("", &tree, FileIter::new(true));
    assert_eq!(found.len(), 1);
    assert_eq!(found[0].path().len(), 2 * 2000 + "/bottom".len());
    assert_eq!(found[0].size().bytes(), 7);
    // Taken apart level by level: the tree is too deep to be dropped whole.
    while let Some(Node::Dir(_, below)) = tree.pop() {
        tree = below;
    }
}

#[test]
fn walk_asks_for_one_thing_after_the_other() {
    let mut walk = FileIter::new(true);
    assert_eq!(walk.request(), Request::Read);
    assert_eq!(walk.advance(Answer::Listed("root/.git".to_string())), None);
    assert_eq!(walk.request(), Request::Read);
    assert_eq!(walk.advance(Answer::Listed("root/sub".to_string())), None);
    assert_eq!(walk.request(), Request::Probe);
    assert_eq!(walk.advance(Answer::Directory), None);
    assert_eq!(walk.request(), Request::Open);
    assert_eq!(walk.advance(Answer::Opened), None);
    assert_eq!(walk.request(), Request::Read);
    assert_eq!(walk.advance(Answer::Listed("root/sub/b.txt".to_string())), None);
    assert_eq!(walk.request(), Request::Probe);
    assert_eq!(walk.advance(Answer::Other), None);
    assert_eq!(walk.request(), Request::Measure);
    assert_eq!(walk.advance(Answer::Measured(10)), Some(File::new("root/sub/b.txt", 10)));
    assert_eq!(walk.request(), Request::Read);
    assert_eq!(walk.advance(Answer::Drained), None);
    assert_eq!(walk.request(), Request::Read);
    assert_eq!(walk.advance(Answer::Drained), None);
    assert_eq!(walk.request(), Request::Stop);
}

#[test]
fn walk_that_is_over_stays_over() {
    let mut walk = FileIter::new(false);
    assert_eq!(walk.advance(Answer::Failed), None);
    let answers = vec![
        Answer::Listed("a".to_string()),
        Answer::Other,
        Answer::Measured(1),
        Answer::Opened,
        Answer::Directory,
        Answer::Drained,
        Answer::Failed,
    ];
    for answer in answers {
        assert_eq!(walk.request(), Request::Stop);
        assert_eq!(walk.advance(answer), None);
    }
    assert_eq!(walk.request(), Request::Stop);
}

#[test]
fn walk_takes_an_answer_that_does_not_fit_as_a_failure() {
    let mut walk = FileIter::new(false);
    assert_eq!(walk.advance(Answer::Measured(5)), None);
    assert_eq!(walk.request(), Request::Stop);

    let mut walk = FileIter::new(false);
    assert_eq!(walk.advance(Answer::Listed("a".to_string())), None);
    assert_eq!(walk.advance(Answer::Listed("b".to_string())), None);
    assert_eq!(walk.request(), Request::Stop);

    let mut walk = FileIter::new(false);
    assert_eq!(walk.advance(Answer::Listed("a".to_string())), None);
    assert_eq!(walk.advance(Answer::Other), None);
    assert_eq!(walk.advance(Answer::Opened), None);
    assert_eq!(walk.request(), Request::Stop);
}

#[test]
fn walk_of_a_directory_that_could_not_be_opened_is_an_error() {
    let walk = walk_dir(Err("No such file or directory".to_string()));
    assert_eq!(walk.err(), Some("No such file or directory".to_string()));
    let walk = find_files_in_path(Err(2), true);
    assert_eq!(walk.err(), Some(2));
}

#[test]
fn walk_from_walk_dir_includes_hidden_entries() {
    let found = drive("root", &hidden_tree(), walk_dir::<String>(Ok(())).unwrap());
    assert_eq!(paths(&found), vec!["root/.tmpA1b2/test.txt"]);
}

#[test]
fn walk_that_was_called_off_is_over() {
    let mut walk = FileIter::new(false);
    assert_eq!(walk.advance(Answer::Listed("a".to_string())), None);
    assert_eq!(walk.advance(Answer::Other), None);
    assert_eq!(walk.request(), Request::Measure);
    walk.cancel();
    assert_eq!(walk.request(), Request::Stop);
    assert_eq!(walk.advance(Answer::Measured(1)), None);
    assert_eq!(walk.request(), Request::Stop);
}
