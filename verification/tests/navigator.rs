use gitturtle::navigator::{next_cursor, NavRow};

#[test]
fn navigator_skips_sections_stops_at_bounds_and_recovers_removed_cursor() {
    let rows = vec![
        NavRow::All,
        NavRow::Section("Branches", 2),
        NavRow::Branch(0, 0),
        NavRow::Branch(1, 0),
    ];
    assert_eq!(next_cursor(&rows, Some(0), true, false), Some(2));
    assert_eq!(next_cursor(&rows, Some(2), false, false), Some(0));
    assert_eq!(next_cursor(&rows, Some(3), true, false), Some(3));
    assert_eq!(next_cursor(&rows, Some(2), false, true), Some(0));
    assert_eq!(next_cursor(&rows, Some(0), true, true), Some(3));
    assert_eq!(next_cursor(&rows, Some(99), false, false), Some(0));
    assert_eq!(next_cursor(&rows, None, true, false), Some(0));
    assert_eq!(next_cursor(&[], None, true, false), None);
}

#[test]
fn a_cursor_on_a_heading_restarts_and_only_headings_hold_nothing() {
    let rows = vec![
        NavRow::Section("Worktrees", 1),
        NavRow::Worktree(0),
        NavRow::Section("Branches", 1),
        NavRow::Folder {
            key: "feature".into(),
            label: "feature".into(),
            depth: 0,
            count: 1,
            expanded: true,
        },
    ];
    assert_eq!(next_cursor(&rows, Some(2), true, false), Some(1));
    assert_eq!(next_cursor(&rows, Some(1), true, false), Some(3));
    assert_eq!(next_cursor(&rows, Some(1), false, false), Some(1));
    let headings = vec![NavRow::Section("Branches", 0), NavRow::Section("Tags", 0)];
    assert_eq!(next_cursor(&headings, Some(0), true, false), None);
    assert_eq!(next_cursor(&headings, None, true, true), None);
}
