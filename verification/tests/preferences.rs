use gitturtle::preferences::{validate_custom_themes, CustomTheme, MAX_CUSTOM_THEMES};
use gitturtle::preferences::{seed_library, supported_version, STORE_VERSION};
use gitturtle::project_library::ProjectLibrary;
use gitturtle::preferences::{
    directory_name, loaded_commit_drafts, name_project, recent_after_opening, save_commit_drafts,
    saved_names, saved_recent, validate_project_name, CommitDraft, MAX_PROJECT_NAMES,
};

#[test]
fn commit_message_preserves_user_formatting_and_only_adds_the_separator() {
    for (title, description, expected) in [
        ("Fix preview", "", "Fix preview"),
        ("  Keep title spacing  ", "", "  Keep title spacing  "),
        (
            "Fix preview",
            "Why this matters.\n\n- Preserve indentation\n  and spacing.  \n# Keep comments\n",
            "Fix preview\n\nWhy this matters.\n\n- Preserve indentation\n  and spacing.  \n# Keep comments\n",
        ),
        (
            "Subject",
            "\nLeading blank line\n",
            "Subject\n\n\nLeading blank line\n",
        ),
        ("Subject", "   ", "Subject\n\n   "),
    ] {
        assert_eq!(
            CommitDraft {
                title: title.into(),
                description: description.into(),
            }
            .message(),
            expected
        );
    }
}

#[test]
fn an_empty_draft_is_one_without_title_or_description() {
    assert!(CommitDraft::default().is_empty());
    assert!(!CommitDraft {
        title: String::new(),
        description: " ".into(),
    }
    .is_empty());
    assert!(!CommitDraft {
        title: "t".into(),
        description: String::new(),
    }
    .is_empty());
}

#[test]
fn project_names_are_trimmed_bounded_and_single_line() {
    assert_eq!(
        validate_project_name("   "),
        Err("Enter a name for this project, or restore its folder name.".to_owned())
    );
    assert_eq!(
        validate_project_name(&"x".repeat(129)),
        Err("Use a project name of at most 128 bytes.".to_owned())
    );
    assert_eq!(validate_project_name(&"x".repeat(128)), Ok(()));
    assert_eq!(validate_project_name(&"客".repeat(42)), Ok(()));
    assert!(validate_project_name(&"客".repeat(43)).is_err());
    for name in ["two\nlines", "two\u{2028}lines", "two\u{2029}paragraphs", "bell\u{7}"] {
        assert_eq!(
            validate_project_name(name),
            Err("Use a project name on a single line, without control characters.".to_owned()),
            "{name:?}"
        );
    }
    assert_eq!(validate_project_name("  Client · 客户端  "), Ok(()));
}

#[test]
fn directory_names_fall_back_to_the_whole_path() {
    assert_eq!(directory_name(b"/projects/turtle-client"), "turtle-client");
    assert_eq!(directory_name(b"/projects/turtle/"), "turtle");
    assert_eq!(directory_name(b"/"), "/");
    assert_eq!(directory_name(b"/projects/.."), "/projects/..");
    assert_eq!(directory_name(b"/projects/repo-\xff"), "repo-\u{fffd}");
}

#[test]
fn the_opened_repository_leads_ten_unique_absolute_recents() {
    let current: Vec<Vec<u8>> = (0..12)
        .map(|index| format!("/repos/repo-{index}").into_bytes())
        .chain([b"relative".to_vec(), b"/repos/repo-5/".to_vec()])
        .collect();
    let recent = recent_after_opening(b"/repos/repo-5", &current);
    assert_eq!(recent.len(), 10);
    assert_eq!(recent[0], b"/repos/repo-5".to_vec());
    let expected: Vec<Vec<u8>> = [0, 1, 2, 3, 4, 6, 7, 8, 9]
        .iter()
        .map(|index| format!("/repos/repo-{index}").into_bytes())
        .collect();
    assert_eq!(&recent[1..], &expected[..]);
    let short = recent_after_opening(b"/a", &vec![b"relative".to_vec(), b"//a".to_vec(), b"/b".to_vec()]);
    assert_eq!(short, vec![b"/a".to_vec(), b"/b".to_vec()]);
}

#[test]
fn saved_recents_keep_absolute_paths_once_and_at_most_ten() {
    let mut saved: Vec<Vec<u8>> = vec![b"relative".to_vec(), b"/a".to_vec(), b"/a/".to_vec()];
    for index in 0..12 {
        saved.push(format!("/r{index}").into_bytes());
    }
    let recent = saved_recent(&saved);
    assert_eq!(recent.len(), 10);
    assert_eq!(recent[0], b"/a".to_vec());
    assert_eq!(recent[1], b"/r0".to_vec());
    assert_eq!(recent[9], b"/r8".to_vec());
}

#[test]
fn custom_names_are_bounded_trimmed_and_read_back() {
    let mut names: Vec<(Vec<u8>, String)> = Vec::new();
    assert_eq!(
        name_project(&mut names, b"relative", Some("x")),
        Err("A project path must be absolute to carry a name".to_owned())
    );
    assert!(name_project(&mut names, b"/p/one", Some("  One  ")).is_ok());
    assert_eq!(names, vec![(b"/p/one".to_vec(), "One".to_owned())]);
    assert!(name_project(&mut names, b"/p/one/", Some("Uno")).is_ok());
    assert_eq!(names, vec![(b"/p/one".to_vec(), "Uno".to_owned())]);
    assert!(name_project(&mut names, b"/p/one", Some("  ")).is_err());
    assert!(name_project(&mut names, b"/p/one", None).is_ok());
    assert!(names.is_empty());
    for index in 0..MAX_PROJECT_NAMES {
        assert!(name_project(&mut names, format!("/p/{index}").as_bytes(), Some("n")).is_ok());
    }
    assert_eq!(
        name_project(&mut names, b"/p/extra", Some("n")),
        Err("Up to 128 projects can carry a custom name. Restore a folder name before adding another.".to_owned())
    );
    assert!(name_project(&mut names, b"/p/0", Some("renamed")).is_ok());
    let loaded = saved_names(&names).unwrap();
    assert_eq!(loaded, names);
    let repeated = vec![
        (b"/p".to_vec(), "a".to_owned()),
        (b"/p/".to_vec(), "b".to_owned()),
    ];
    assert_eq!(
        saved_names(&repeated),
        Err("Duplicate saved project name path".to_owned())
    );
    assert_eq!(
        saved_names(&vec![(b"p".to_vec(), "a".to_owned())]),
        Err("Saved project path must be absolute".to_owned())
    );
    let mut too_many = names.clone();
    too_many.push((b"/p/extra".to_vec(), "n".to_owned()));
    assert_eq!(saved_names(&too_many), Err("Too many saved project names".to_owned()));
}

fn draft(title: &str, description: &str) -> CommitDraft {
    CommitDraft {
        title: title.to_owned(),
        description: description.to_owned(),
    }
}

#[test]
fn drafts_are_kept_per_worktree_and_blank_drafts_are_forgotten() {
    let saved = vec![
        (b"/work/a".to_vec(), draft("first", "")),
        (b"relative".to_vec(), draft("lost", "")),
        (b"/work/b".to_vec(), draft("", "")),
        (b"/work/a/".to_vec(), draft("second", "body")),
    ];
    let mut drafts = loaded_commit_drafts(&saved);
    assert_eq!(drafts, vec![(b"/work/a".to_vec(), draft("second", "body"))]);
    assert_eq!(
        save_commit_drafts(
            &mut drafts,
            &vec![(b"/work/c".to_vec(), draft("c", "")), (b"rel".to_vec(), draft("x", ""))]
        ),
        Err("Draft worktree must be absolute".to_owned())
    );
    assert_eq!(drafts.len(), 1);
    assert!(save_commit_drafts(
        &mut drafts,
        &vec![(b"/work/c".to_vec(), draft("c", "")), (b"/work/a".to_vec(), draft("", ""))]
    )
    .is_ok());
    assert_eq!(drafts, vec![(b"/work/c".to_vec(), draft("c", ""))]);
}

#[test]
fn every_store_version_up_to_six_is_read() {
    assert_eq!(STORE_VERSION, 6);
    assert!(!supported_version(0));
    assert!((1..=6).all(supported_version));
    assert!(!supported_version(7));
    assert!(!supported_version(99));
}

#[test]
fn an_older_store_starts_its_project_list_from_the_recents() {
    let recent = vec![b"/work/one".to_vec(), b"relative".to_vec(), b"/work/two".to_vec()];
    let mut library = ProjectLibrary { nodes: Vec::new() };
    seed_library(&mut library, 4, &recent);
    assert_eq!(library.projects(), vec![b"/work/one".to_vec(), b"/work/two".to_vec()]);
    let mut emptied = ProjectLibrary { nodes: Vec::new() };
    seed_library(&mut emptied, 5, &recent);
    assert!(emptied.projects().is_empty());
}

fn theme(id: u32, name: &str) -> CustomTheme {
    CustomTheme { id, name: name.to_owned() }
}

#[test]
fn saved_custom_themes_are_bounded_unique_and_well_named() {
    let themes = vec![theme(1, "Dusk"), theme(2, "Dawn")];
    assert_eq!(validate_custom_themes(&themes, &vec![Ok(()), Ok(())]), Ok(()));
    assert_eq!(validate_custom_themes(&themes, &vec![]), Ok(()));
    let repeated = vec![theme(7, "Dusk"), theme(7, "Dawn")];
    assert_eq!(
        validate_custom_themes(&repeated, &vec![Ok(()), Err("later".to_owned())]),
        Err("Two custom themes share the id 7.".to_owned())
    );
    assert_eq!(
        validate_custom_themes(&themes, &vec![Ok(()), Err("That name is already used.".to_owned())]),
        Err("That name is already used.".to_owned())
    );
    let too_many: Vec<CustomTheme> = (0..=MAX_CUSTOM_THEMES as u32).map(|i| theme(i, "T")).collect();
    assert_eq!(
        validate_custom_themes(&too_many, &vec![]),
        Err("Up to 32 custom themes can be saved. Delete one before adding another.".to_owned())
    );
    let full: Vec<CustomTheme> = (0..MAX_CUSTOM_THEMES as u32).map(|i| theme(i + 4_000_000_000, "T")).collect();
    assert_eq!(validate_custom_themes(&full, &vec![]), Ok(()));
    let big = vec![theme(4_294_967_295, "a"), theme(4_294_967_295, "b")];
    assert_eq!(
        validate_custom_themes(&big, &vec![]),
        Err("Two custom themes share the id 4294967295.".to_owned())
    );
}
