use gitturtle::partial_view::{prepare, prepare_rows, PartialHunk, PartialLine, PartialRow, RowNumbers};

fn change(id: usize, added: bool, number: usize, text: &str) -> PartialLine {
    PartialLine {
        addition: added,
        old_line: (!added).then_some(number),
        new_line: added.then_some(number),
        text: text.into(),
        change_id: Some(id),
    }
}

fn plain() -> RowNumbers {
    RowNumbers { old: None, new: None }
}

fn removed(n: u32) -> RowNumbers {
    RowNumbers { old: Some(n), new: None }
}

fn added(n: u32) -> RowNumbers {
    RowNumbers { old: None, new: Some(n) }
}

#[test]
fn literal_hunk_actions_keep_exact_ids_across_separate_display_groups() {
    let patch = "--- a/file\n+++ b/file\n@@ -1 +1 @@\n-old\n+new\n@@ -10 +10 @@\n-last\n+next\n";
    let numbers = vec![
        plain(),
        plain(),
        plain(),
        removed(1),
        added(1),
        plain(),
        removed(10),
        added(10),
        plain(),
    ];
    let hunks = vec![PartialHunk {
        header: "one differently grouped core hunk".into(),
        lines: vec![
            change(0, false, 1, "old\n"),
            change(1, true, 1, "new\n"),
            change(2, false, 10, "last\n"),
            change(3, true, 10, "next\n"),
        ],
    }];
    let rows = prepare_rows(patch, &numbers, &hunks).unwrap();
    assert_eq!(rows[2], PartialRow::Hunk(vec![0, 1]));
    assert_eq!(rows[5], PartialRow::Hunk(vec![2, 3]));
    assert_eq!(
        rows[3],
        PartialRow::Change {
            id: 0,
            added: false,
            line: 1
        }
    );
    assert_eq!(
        rows[7],
        PartialRow::Change {
            id: 3,
            added: true,
            line: 10
        }
    );
    assert_eq!(rows[8], PartialRow::NoAction);
}

#[test]
fn crlf_and_missing_final_newline_do_not_shift_actions_or_modify_text() {
    let patch = "--- a/file\n+++ b/file\n@@ -1 +1 @@\n-你好\r\n+🐢\n\\ No newline at end of file\n";
    let numbers = vec![plain(), plain(), plain(), removed(1), added(1), plain(), plain()];
    let hunks = vec![PartialHunk {
        header: String::new(),
        lines: vec![change(0, false, 1, "你好\r\n"), change(1, true, 1, "🐢")],
    }];
    let rows = prepare_rows(patch, &numbers, &hunks).unwrap();
    assert_eq!(rows[2], PartialRow::Hunk(vec![0, 1]));
    assert_eq!(
        rows[4],
        PartialRow::Change {
            id: 1,
            added: true,
            line: 1
        }
    );
    assert_eq!(rows[5], PartialRow::NoAction);
    assert_eq!(hunks[0].lines[1].text, "🐢");
}

#[test]
fn mismatched_text_or_missing_changes_never_produce_actionable_rows() {
    let patch = "@@ -1 +1 @@\n-old\n+new\n";
    let numbers = vec![plain(), removed(1), added(1), plain()];
    for lines in [
        vec![
            change(0, false, 1, "different\n"),
            change(1, true, 1, "new\n"),
        ],
        vec![change(0, false, 1, "old\n")],
        vec![
            change(0, false, 1, "old\n"),
            change(1, true, 1, "new\n"),
            change(2, true, 8, "extra\n"),
        ],
    ] {
        let hunks = vec![PartialHunk {
            header: String::new(),
            lines,
        }];
        assert!(prepare_rows(patch, &numbers, &hunks).is_err());
    }
}

#[test]
fn each_refusal_names_what_no_longer_matches() {
    let patch = "@@ -1 +1 @@\n-old\n+new\n";
    let hunks = vec![PartialHunk {
        header: String::new(),
        lines: vec![change(0, false, 1, "old\n"), change(1, true, 1, "new\n")],
    }];
    assert_eq!(
        prepare_rows(patch, &vec![plain(), removed(1)], &hunks),
        Err("Patch rows no longer match the prepared comparison.".to_owned())
    );
    assert_eq!(
        prepare_rows(patch, &vec![plain(), removed(2), added(1)], &hunks),
        Err("Changed lines no longer match the working snapshot. Refresh to select lines.".to_owned())
    );
    let edited = vec![PartialHunk {
        header: String::new(),
        lines: vec![change(0, false, 1, "odd\n"), change(1, true, 1, "new\n")],
    }];
    assert_eq!(
        prepare_rows(patch, &vec![plain(), removed(1), added(1)], &edited),
        Err("Changed text no longer matches the working snapshot. Refresh to select lines.".to_owned())
    );
    assert_eq!(
        prepare_rows("-old\n+new\n", &vec![removed(1), added(1)], &hunks),
        Err("A changed line has no matching diff hunk.".to_owned())
    );
    assert_eq!(
        prepare_rows(patch, &vec![plain(), plain(), plain()], &hunks),
        Err("The complete set of changed lines is unavailable. Use the whole-file action.".to_owned())
    );
    let actions = prepare(patch, &vec![plain(), removed(1), added(1)], hunks.clone()).unwrap();
    assert_eq!(actions.hunks, hunks);
    assert_eq!(
        actions.rows,
        vec![
            PartialRow::Hunk(vec![0, 1]),
            PartialRow::Change { id: 0, added: false, line: 1 },
            PartialRow::Change { id: 1, added: true, line: 1 },
        ]
    );
}
