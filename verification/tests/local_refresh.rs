use gitturtle::local_refresh::{
    bounded_error, Burst, ChangeKind, Eligibility, Fingerprints, LocalChange, Stamp, WatchRoots,
    MAX_DELAY_MILLIS, MAX_FINGERPRINTS,
};

const START: u64 = 1_000;

#[test]
fn bursts_wait_for_quiet_but_continuous_activity_has_a_maximum_delay() {
    let start = START;
    let mut burst = Burst::default();
    burst.push(
        LocalChange {
            worktree: true,
            ..Default::default()
        },
        start,
    );
    assert!(burst.take_due(start + 249).is_none());
    burst.push(
        LocalChange {
            git: true,
            ..Default::default()
        },
        start + 100,
    );
    assert_eq!(burst.deadline(), Some(start + 350));
    for millis in (300..=1900).step_by(200) {
        burst.push(
            LocalChange {
                worktree: true,
                ..Default::default()
            },
            start + millis,
        );
    }
    assert_eq!(burst.deadline(), Some(start + MAX_DELAY_MILLIS));
    assert_eq!(
        burst.take_due(start + MAX_DELAY_MILLIS),
        Some(LocalChange {
            worktree: true,
            git: true,
            ..Default::default()
        })
    );
    assert!(burst.deadline().is_none());
}

#[test]
fn recovery_supersedes_old_warning_in_a_coalesced_delivery() {
    let mut change = LocalChange {
        error: Some("limited".into()),
        ..Default::default()
    };
    change.merge(LocalChange {
        recovered: true,
        ..Default::default()
    });
    assert!(change.recovered);
    assert!(change.error.is_none());
    change.merge(LocalChange {
        error: Some("unavailable".into()),
        ..Default::default()
    });
    assert!(!change.recovered);
    assert_eq!(change.error.as_deref(), Some("unavailable"));
}

#[test]
fn an_empty_change_is_no_activity() {
    let mut burst = Burst::default();
    burst.push(LocalChange::default(), START);
    assert!(burst.deadline().is_none());
    assert!(burst.take_due(u64::MAX / 2).is_none());
    assert!(LocalChange::default().is_empty());
    assert!(!LocalChange {
        rescan: true,
        ..Default::default()
    }
    .is_empty());
}

#[test]
fn merging_is_associative_on_concrete_changes() {
    let a = LocalChange {
        error: Some("first".into()),
        worktree: true,
        ..Default::default()
    };
    let b = LocalChange {
        recovered: true,
        ..Default::default()
    };
    let c = LocalChange {
        git: true,
        ..Default::default()
    };
    let mut left = a.clone();
    left.merge(b.clone());
    left.merge(c.clone());
    let mut right_tail = b.clone();
    right_tail.merge(c.clone());
    let mut right = a.clone();
    right.merge(right_tail);
    assert_eq!(left, right);
    assert_eq!(
        left,
        LocalChange {
            worktree: true,
            git: true,
            recovered: true,
            ..Default::default()
        }
    );
}

#[test]
fn long_errors_are_cut_at_a_character_boundary() {
    assert_eq!(bounded_error("short".into()), "short");
    let exact = "x".repeat(2048);
    assert_eq!(bounded_error(exact.clone()), exact);
    let long = format!("{}é tail", "x".repeat(2047));
    let cut = bounded_error(long);
    assert_eq!(cut, format!("{}…", "x".repeat(2047)));
    let wide = "🐢".repeat(600);
    let cut = bounded_error(wide);
    assert_eq!(cut, format!("{}…", "🐢".repeat(512)));
}

fn file(length: u64) -> Vec<Stamp> {
    vec![Stamp::File {
        length,
        modified_seconds: Some(10),
        modified_nanos: 0,
        directory: false,
        symlink: false,
        readonly: false,
        device: 1,
        inode: 2,
        mode: 0o644,
        changed_seconds: 10,
        changed_nanos: 0,
    }]
}

#[test]
fn fingerprints_report_each_change_once() {
    let mut fingerprints = Fingerprints::new();
    let path = b"/work/file.txt";
    assert!(fingerprints.changed(path, file(1)));
    assert!(!fingerprints.changed(path, file(1)));
    assert!(!fingerprints.changed(b"/work//file.txt", file(1)));
    assert!(fingerprints.changed(path, vec![Stamp::Missing]));
    assert!(!fingerprints.changed(path, vec![Stamp::Missing]));
    assert_eq!(fingerprints.look(path), Some(vec![Stamp::Missing]));
    assert_eq!(fingerprints.len(), 1);
}

#[test]
fn fingerprint_storage_stays_bounded_and_forgets_the_oldest() {
    let mut fingerprints = Fingerprints::new();
    for index in 0..MAX_FINGERPRINTS * 2 {
        fingerprints.insert(format!("/work/{index}").into_bytes(), vec![Stamp::Missing]);
    }
    assert_eq!(fingerprints.len(), MAX_FINGERPRINTS);
    assert_eq!(fingerprints.entries.len(), MAX_FINGERPRINTS);
    assert!(fingerprints.look(b"/work/0").is_none());
    assert!(fingerprints
        .look(format!("/work/{}", MAX_FINGERPRINTS * 2 - 1).as_bytes())
        .is_some());
}

fn roots() -> WatchRoots {
    WatchRoots {
        worktree: b"/work/linked".to_vec(),
        private_git: b"/work/main/.git/worktrees/linked".to_vec(),
        common_git: b"/work/main/.git".to_vec(),
    }
}

#[test]
fn changed_paths_are_classified_by_the_directory_they_live_in() {
    let roots = roots();
    for path in [
        &b"/work/main/.git/worktrees/linked/HEAD"[..],
        b"/work/main/.git/worktrees/linked/index",
        b"/work/main/.git/refs/heads/topic",
        b"/work/main/.git/objects/ab/object",
        b"/work/main/.git/logs/refs/stash",
        b"/work/linked/.git",
    ] {
        assert_eq!(roots.classify(path), ChangeKind::Git);
    }
    assert_eq!(
        roots.classify(b"/work/main/.git/worktrees/linked/index.lock"),
        ChangeKind::Ignore
    );
    assert_eq!(
        roots.classify(b"/work/main/.git/refs/heads/topic.lock"),
        ChangeKind::Ignore
    );
    assert_eq!(
        roots.classify(b"/work/main/.git/worktrees/linked/COMMIT_EDITMSG"),
        ChangeKind::Ignore
    );
    assert_eq!(
        roots.classify(b"/work/main/.git/logs/HEAD"),
        ChangeKind::Ignore
    );
    assert_eq!(
        roots.classify(b"/work/main/.git/worktrees/linked"),
        ChangeKind::GitRoot
    );
    assert_eq!(roots.classify(b"/work/main/.git/"), ChangeKind::GitRoot);
    assert_eq!(
        roots.classify(b"/work/linked/important.lock"),
        ChangeKind::Worktree
    );
    assert_eq!(roots.classify(b"/work/unrelated"), ChangeKind::Ignore);
}

#[test]
fn watches_go_to_the_worktree_and_git_metadata_the_roots_allow() {
    let roots = roots();
    assert_eq!(roots.eligibility(b"/work/linked", false), Eligibility::Eligible);
    assert_eq!(roots.eligibility(b"/work/linked/src", false), Eligibility::AskPolicy);
    assert_eq!(roots.eligibility(b"/work/linked/.git", false), Eligibility::Refused);
    assert_eq!(roots.eligibility(b"/work/other", false), Eligibility::Refused);
    assert_eq!(roots.eligibility(b"/work/main/.git/refs", false), Eligibility::Refused);
    assert_eq!(roots.eligibility(b"/work/main/.git/refs", true), Eligibility::Eligible);
    assert_eq!(roots.eligibility(b"/work/main/.git/hooks", true), Eligibility::Refused);
    assert_eq!(roots.eligibility(b"/work/linked/src", true), Eligibility::Refused);
}

#[test]
fn ignore_rules_change_through_their_files_the_index_and_the_configuration() {
    let roots = roots();
    let ignore_files = vec![b"/home/user/.config/git/ignore".to_vec()];
    for path in [
        &b"/home/user/.config/git/ignore"[..],
        b"/work/linked/.gitignore",
        b"/work/linked/src/.gitignore",
        b"/work/main/.git/worktrees/linked/index",
        b"/work/main/.git/info/exclude",
        b"/work/main/.git/config",
        b"/work/main/.git/worktrees/linked/config.worktree",
    ] {
        assert!(roots.policy_path(path, &ignore_files), "{path:?}");
    }
    for path in [
        &b"/work/linked/src/main.rs"[..],
        b"/work/other/.gitignore",
        b"/work/main/.git/index",
        b"/work/main/.git/info",
        b"/work/main/.git/worktrees/linked/config",
    ] {
        assert!(!roots.policy_path(path, &ignore_files), "{path:?}");
    }
    assert!(roots.is_root(b"/work/linked/"));
    assert!(roots.is_root(b"/work/main/.git"));
    assert!(!roots.is_root(b"/work/main"));
}

#[test]
fn resolved_linked_worktree_paths_and_git_lock_filter_preserve_scope() {
    let roots = roots();
    for path in [
        &b"/work/main/.git/worktrees/linked/HEAD"[..],
        b"/work/main/.git/worktrees/linked/index",
        b"/work/main/.git/refs/heads/topic",
        b"/work/main/.git/objects/ab/object",
    ] {
        assert_eq!(roots.classify(path), ChangeKind::Git, "{path:?}");
    }
    assert_eq!(
        roots.classify(b"/work/main/.git/worktrees/linked/index.lock"),
        ChangeKind::Ignore
    );
    assert_eq!(
        roots.classify(b"/work/main/.git/refs/heads/topic.lock"),
        ChangeKind::Ignore
    );
    assert_eq!(
        roots.classify(b"/work/main/.git/worktrees/linked/COMMIT_EDITMSG"),
        ChangeKind::Ignore
    );
    assert_eq!(
        roots.classify(b"/work/linked/important.lock"),
        ChangeKind::Worktree
    );
    assert_eq!(roots.classify(b"/work/unrelated"), ChangeKind::Ignore);
}
