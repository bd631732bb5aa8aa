use crossterm::{cursor, ExecutableCommand};
use spacehog::screen::{App, Closing};
use spacehog::FileSize;

#[test]
fn test_close_with_no_files() {
    let app = App::new();

    let closing = app.close();

    assert_eq!(closing, Closing::Say("No files found.\n".to_string()));
}

#[test]
fn test_close_with_files_moves_cursor_to_row_after_last_file() {
    let mut output = Vec::new();
    let mut app = App::new();

    app.update(vec![
        (2048.into(), "file1.txt".to_string()),
        (1024.into(), "file2.txt".to_string()),
    ]);
    match app.close() {
        Closing::MoveDown(rows) => {
            output.execute(cursor::MoveDown(rows)).unwrap();
        }
        Closing::Say(text) => panic!("{text}"),
    }

    let output_str = String::from_utf8(output).unwrap();
    assert!(output_str.ends_with("\x1B[3B"));
}

#[test]
fn frame_has_a_headline_and_a_line_for_each_file() {
    let mut app = App::new();
    app.update(vec![
        (FileSize::from(34_250), "/path/to/file.txt".to_string()),
        (FileSize::from(1000), "other.txt".to_string()),
        (FileSize::from(0), "".to_string()),
    ]);
    assert_eq!(
        app.render(),
        "*** Top 3 largest files ***\n34 KB /path/to/file.txt\n1 KB other.txt\n0 B \n"
    );
}

#[test]
fn frame_of_no_files_is_a_headline() {
    assert_eq!(App::new().render(), "*** Top 0 largest files ***\n");
}

#[test]
fn frame_shows_the_snapshot_that_came_last() {
    let mut app = App::new();
    app.update(vec![(FileSize::from(5), "a".to_string()), (FileSize::from(4), "b".to_string())]);
    app.update(vec![(FileSize::from(7), "c".to_string())]);
    assert_eq!(app.render(), "*** Top 1 largest files ***\n7 B c\n");
    assert_eq!(app.close(), Closing::MoveDown(2));
    app.update(Vec::new());
    assert_eq!(app.close(), Closing::Say("No files found.\n".to_string()));
}

#[test]
fn rows_below_a_frame_wrap_at_sixteen_bits() {
    let mut app = App::new();
    let files = |count: usize| -> Vec<(FileSize, String)> {
        (0..count).map(|i| (FileSize::from(i as u64), String::new())).collect()
    };
    app.update(files(65_534));
    assert_eq!(app.close(), Closing::MoveDown(65_535));
    app.update(files(65_535));
    assert_eq!(app.close(), Closing::MoveDown(0));
    app.update(files(65_536));
    assert_eq!(app.close(), Closing::MoveDown(1));
}
