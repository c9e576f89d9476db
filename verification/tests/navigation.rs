use gitturtle::navigation::{
    branch_label, branch_rows, current_ancestors, name_parts, prefix, BranchRef, Row,
    MAX_FOLDER_DEPTH,
};
use std::collections::HashSet;

fn branch(name: &str, remote: bool, current: bool) -> BranchRef {
    BranchRef {
        name: name.into(),
        remote,
        current,
    }
}

fn folder(key: &str, label: &str, depth: usize, count: usize, expanded: bool) -> Row {
    Row::Folder {
        key: key.into(),
        label: label.into(),
        depth,
        count,
        expanded,
    }
}

fn fixture() -> Vec<BranchRef> {
    vec![
        branch("feature/zeta", false, false),
        branch("feature/team/cache", false, true),
        branch("main", false, false),
        branch("feature/alpha", false, false),
        branch("release/v1", false, false),
        branch("origin/main", true, false),
    ]
}

fn set(keys: Vec<String>) -> HashSet<String> {
    keys.into_iter().collect()
}

#[test]
fn folders_are_grouped_and_count_collapsed_descendants() {
    let branches = fixture();
    assert_eq!(
        branch_rows(&branches, false, "", &Vec::new()),
        vec![
            folder("local:feature", "feature", 0, 3, false),
            folder("local:release", "release", 0, 1, false),
            Row::Branch { index: 2, depth: 0 },
        ]
    );
    let expanded = vec!["local:feature".to_owned()];
    assert_eq!(
        branch_rows(&branches, false, "", &expanded),
        vec![
            folder("local:feature", "feature", 0, 3, true),
            folder("local:feature/team", "team", 1, 1, false),
            Row::Branch { index: 3, depth: 1 },
            Row::Branch { index: 0, depth: 1 },
            folder("local:release", "release", 0, 1, false),
            Row::Branch { index: 2, depth: 0 },
        ]
    );
}

#[test]
fn search_reveals_only_matching_paths_without_mutating_expansion() {
    let branches = fixture();
    let expanded: Vec<String> = Vec::new();
    assert_eq!(
        branch_rows(&branches, false, "  TEAM/CA  ", &expanded),
        vec![
            folder("local:feature", "feature", 0, 1, true),
            folder("local:feature/team", "team", 1, 1, true),
            Row::Branch { index: 1, depth: 2 },
        ]
    );
    assert!(expanded.is_empty());
    assert_eq!(
        branch_rows(&branches, false, " \t ", &expanded),
        branch_rows(&branches, false, "", &expanded)
    );
    assert!(branch_rows(&branches, false, "no-matching-branch", &expanded).is_empty());
}

#[test]
fn current_ancestor_seed_does_not_override_later_manual_collapse() {
    let branches = fixture();
    let mut expanded = current_ancestors(&branches);
    assert_eq!(
        set(expanded.clone()),
        HashSet::from(["local:feature".into(), "local:feature/team".into()])
    );
    assert!(branch_rows(&branches, false, "", &expanded).contains(&Row::Branch { index: 1, depth: 2 }));
    expanded.retain(|key| key != "local:feature/team");
    let rows = branch_rows(&branches, false, "", &expanded);
    assert!(!rows
        .iter()
        .any(|row| matches!(row, Row::Branch { index: 1, .. })));
    assert!(rows.contains(&folder("local:feature/team", "team", 1, 1, false)));
}

#[test]
fn local_and_remote_folder_keys_and_original_indices_are_independent() {
    let branches = vec![
        branch("origin/team/zeta", true, false),
        branch("origin/team/local", false, true),
        branch("origin/team/alpha", true, false),
        branch("upstream/main", true, false),
    ];
    let local_expanded = current_ancestors(&branches);
    assert_eq!(
        branch_rows(&branches, true, "", &local_expanded),
        vec![
            folder("remote:origin", "origin", 0, 2, false),
            folder("remote:upstream", "upstream", 0, 1, false),
        ]
    );
    let rows = branch_rows(&branches, true, "origin", &local_expanded);
    assert_eq!(
        rows,
        vec![
            folder("remote:origin", "origin", 0, 2, true),
            folder("remote:origin/team", "team", 1, 2, true),
            Row::Branch { index: 2, depth: 2 },
            Row::Branch { index: 0, depth: 2 },
        ]
    );
    for row in rows {
        if let Row::Branch { index, depth } = row {
            assert!(branches[index].remote);
            assert_eq!(
                branch_label(&branches[index].name, depth),
                if index == 2 { "alpha" } else { "zeta" }
            );
        }
    }
}

#[test]
fn depth_budget_preserves_long_branch_suffix_and_current_identity() {
    let parts: Vec<_> = (0..40).map(|i| format!("part{i}")).collect();
    let name = parts.join("/");
    let branches = vec![branch(&name, false, true)];
    let expanded = current_ancestors(&branches);
    assert_eq!(expanded.len(), MAX_FOLDER_DEPTH);
    let rows = branch_rows(&branches, false, "", &expanded);
    assert_eq!(rows.len(), MAX_FOLDER_DEPTH + 1);
    assert_eq!(
        rows.last(),
        Some(&Row::Branch {
            index: 0,
            depth: MAX_FOLDER_DEPTH
        })
    );
    assert_eq!(
        branch_label(&name, MAX_FOLDER_DEPTH),
        parts[MAX_FOLDER_DEPTH..].join("/")
    );
    assert_eq!(branch_rows(&branches, false, "part39", &Vec::new()), rows);
}

#[test]
fn leaves_sort_by_display_name_and_empty_inputs_stay_empty() {
    let branches = vec![
        branch("zeta", false, false),
        branch("alpha", false, true),
        branch("beta", false, false),
    ];
    assert_eq!(
        branch_rows(&branches, false, "", &Vec::new()),
        vec![
            Row::Branch { index: 1, depth: 0 },
            Row::Branch { index: 2, depth: 0 },
            Row::Branch { index: 0, depth: 0 },
        ]
    );
    assert!(current_ancestors(&branches).is_empty());
    assert!(branch_rows(&[].to_vec(), false, "", &Vec::new()).is_empty());
    assert_eq!(branch_label("main", 0), "main");
}

#[test]
fn branch_labels_show_the_suffix_at_their_depth() {
    assert_eq!(branch_label("feature/team/cache", 0), "feature/team/cache");
    assert_eq!(branch_label("feature/team/cache", 1), "team/cache");
    assert_eq!(branch_label("feature/team/cache", 2), "cache");
    assert_eq!(branch_label("feature/team/cache", 3), "feature/team/cache");
    assert_eq!(branch_label("main", 0), "main");
    let deep = (0..20).map(|i| format!("p{i}")).collect::<Vec<_>>().join("/");
    assert_eq!(branch_label(&deep, 16), "p16/p17/p18/p19");
    assert_eq!(branch_label(&deep, 40), "p16/p17/p18/p19");
}

#[test]
fn names_split_into_at_most_sixteen_folders_and_a_leaf() {
    assert_eq!(name_parts("feature/team/cache"), vec!["feature", "team", "cache"]);
    assert_eq!(name_parts("main"), vec!["main"]);
    assert_eq!(name_parts("a//b/"), vec!["a", "", "b", ""]);
    let deep = (0..20).map(|i| format!("p{i}")).collect::<Vec<_>>().join("/");
    let parts = name_parts(&deep);
    assert_eq!(parts.len(), 17);
    assert_eq!(parts[16], "p16/p17/p18/p19");
    assert_eq!(prefix(true), "remote:");
    assert_eq!(prefix(false), "local:");
}
