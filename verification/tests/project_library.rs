use gitturtle::project_library::{
    LibraryRow, ProjectGroup, ProjectLibrary, ProjectNode, MAX_DEPTH, MAX_PROJECTS,
};
use std::path::Path;

fn project(name: &str) -> Vec<u8> {
    format!("/projects/{name}").into_bytes()
}

fn library() -> ProjectLibrary {
    let mut library = ProjectLibrary::default();
    for name in ["alpha", "beta", "gamma"] {
        assert!(library.remember(&project(name)));
    }
    library
}

fn file_name(path: &[u8]) -> String {
    Path::new(std::str::from_utf8(path).unwrap())
        .file_name()
        .unwrap()
        .to_string_lossy()
        .into_owned()
}

#[test]
fn remembering_a_project_is_idempotent_and_needs_an_absolute_path() {
    let mut library = library();
    assert!(!library.remember(&project("alpha")));
    assert!(!library.remember(b"relative/path"));
    assert_eq!(library.project_count(), 3);
    assert_eq!(library.rows().len(), 3);
}

#[test]
fn a_collapsed_group_hides_its_projects_and_keeps_that_view() {
    let mut library = library();
    let work = library.create_group(None, "Work").unwrap();
    library.move_project(&project("alpha"), Some(work)).unwrap();
    library.move_project(&project("beta"), Some(work)).unwrap();
    assert_eq!(library.rows().len(), 4);

    assert!(library.set_collapsed(work, true));
    assert!(!library.set_collapsed(work, true));
    let rows = library.rows();
    assert_eq!(rows.len(), 2);
    assert!(matches!(
        rows.first(),
        Some(LibraryRow::Group {
            projects: 2,
            collapsed: true,
            ..
        })
    ));

    // The saved tree carries the collapsed flag, so a restart restores it.
    let restored = ProjectLibrary {
        nodes: library.nodes.clone(),
    };
    assert_eq!(restored.rows(), rows);
}

#[test]
fn groups_nest_and_report_the_depth_of_each_row() {
    let mut library = library();
    let outer = library.create_group(None, "Work").unwrap();
    let inner = library.create_group(Some(outer), "Clients").unwrap();
    library.move_project(&project("alpha"), Some(inner)).unwrap();
    let rows = library.rows();
    assert!(matches!(rows[0], LibraryRow::Group { depth: 0, .. }));
    assert!(matches!(rows[1], LibraryRow::Group { depth: 1, .. }));
    assert!(matches!(
        &rows[2],
        LibraryRow::Project { depth: 2, parent: Some(id), .. } if *id == inner
    ));
    assert_eq!(
        library
            .groups()
            .iter()
            .map(|entry| (entry.id, entry.depth))
            .collect::<Vec<_>>(),
        vec![(outer, 0), (inner, 1)]
    );
}

#[test]
fn removing_a_group_keeps_its_projects_and_subgroups_in_place() {
    let mut library = library();
    let outer = library.create_group(None, "Work").unwrap();
    let inner = library.create_group(Some(outer), "Clients").unwrap();
    library.move_project(&project("alpha"), Some(outer)).unwrap();
    library.move_project(&project("beta"), Some(inner)).unwrap();

    assert!(library.remove_group(outer));
    assert!(library.group(outer).is_none());
    assert_eq!(library.project_count(), 3);
    assert!(library.contains_project(&project("alpha")));
    assert_eq!(
        library
            .group(inner)
            .map(|group| group.nodes.len())
            .unwrap_or_default(),
        1
    );
    assert!(library.validate().is_ok());
}

#[test]
fn a_group_cannot_move_inside_itself_or_past_the_depth_limit() {
    let mut library = ProjectLibrary::default();
    let mut parent = None;
    let mut ids = Vec::new();
    for level in 0..MAX_DEPTH {
        let id = library
            .create_group(parent, &format!("Level {level}"))
            .unwrap();
        ids.push(id);
        parent = Some(id);
    }
    assert!(library.create_group(parent, "Too deep").is_err());

    let branch = library.create_group(None, "Branch").unwrap();
    assert!(library.move_group(ids[0], Some(ids[1])).is_err());
    assert!(library.move_group(ids[0], Some(ids[0])).is_err());
    // The moved group carries five levels, so no group can accept it.
    assert!(library.move_group(ids[0], Some(branch)).is_err());
    assert!(library.move_group(branch, Some(ids[0])).is_ok());
    assert_eq!(library.group_count(), MAX_DEPTH + 1);
    assert!(library.validate().is_ok());
}

#[test]
fn a_full_list_drops_an_ungrouped_project_and_keeps_grouped_ones() {
    let mut library = ProjectLibrary::default();
    let kept = library.create_group(None, "Keep").unwrap();
    for index in 0..MAX_PROJECTS {
        assert!(library.remember(&project(&format!("p{index}"))));
    }
    library.move_project(&project("p0"), Some(kept)).unwrap();
    assert!(library.remember(&project("newest")));
    assert_eq!(library.project_count(), MAX_PROJECTS);
    assert!(library.contains_project(&project("p0")));
    assert!(library.contains_project(&project("newest")));
    assert!(!library.contains_project(&project("p1")));
}

#[test]
fn sorted_rows_order_each_level_by_name_and_keep_saved_order_for_ties() {
    let mut library = ProjectLibrary::default();
    for name in ["zeta", "Alpha", "beta"] {
        assert!(library.remember(&project(name)));
    }
    let work = library.create_group(None, "work").unwrap();
    let archive = library.create_group(None, "Archive").unwrap();
    let clients = library.create_group(Some(work), "Clients").unwrap();
    library.move_project(&project("zeta"), Some(work)).unwrap();
    library.move_project(&project("beta"), Some(clients)).unwrap();

    let names = |row: &LibraryRow| match row {
        LibraryRow::Group { name, depth, .. } => format!("{depth}:{name}/"),
        LibraryRow::Project { path, depth, .. } => {
            format!("{depth}:{}", file_name(path))
        }
    };
    let name_of = |path: &[u8]| file_name(path);
    assert_eq!(
        library
            .sorted_rows(&name_of)
            .iter()
            .map(names)
            .collect::<Vec<_>>(),
        vec!["0:Archive/", "0:work/", "1:Clients/", "2:beta", "1:zeta", "0:Alpha"]
    );
    // The saved order still puts the group the user made first on disk.
    assert!(matches!(
        library.rows().first(),
        Some(LibraryRow::Group { id, .. }) if *id == work
    ));
    assert_eq!(
        library
            .sorted_groups()
            .iter()
            .map(|entry| (entry.id, entry.depth))
            .collect::<Vec<_>>(),
        vec![(archive, 0), (work, 0), (clients, 1)]
    );
    assert_eq!(library.group_path(clients), vec!["work", "Clients"]);
    assert_eq!(library.parent_of_group(clients), Some(Some(work)));
    assert_eq!(library.parent_of_group(work), Some(None));
    assert_eq!(library.parent_of_group(99), None);
    assert_eq!(library.parent_of_project(&project("beta")), Some(clients));
    assert_eq!(library.parent_of_project(&project("Alpha")), None);
    assert!(library.group_contains(work, clients));
    assert!(!library.group_contains(clients, work));
    assert_eq!(library.group_height(work), Some(2));
    assert_eq!(library.projects().len(), 3);
}

#[test]
fn saved_lists_with_unusable_names_paths_or_identifiers_are_refused() {
    let mut library = library();
    let group = library.create_group(None, "Work").unwrap();
    assert!(library.validate().is_ok());
    assert!(library.create_group(None, "  ").is_err());
    assert!(library.create_group(None, "Two\nlines").is_err());
    assert!(library.rename_group(group + 100, "Missing").is_err());

    let duplicate = ProjectLibrary {
        nodes: vec![
            ProjectNode::Project(project("alpha")),
            ProjectNode::Project(project("alpha")),
        ],
    };
    assert!(duplicate.validate().is_err());
    let relative = ProjectLibrary {
        nodes: vec![ProjectNode::Project(b"relative".to_vec())],
    };
    assert!(relative.validate().is_err());
    let shared = ProjectLibrary {
        nodes: vec![
            ProjectNode::Group(ProjectGroup {
                id: 1,
                name: "One".into(),
                collapsed: false,
                nodes: Vec::new(),
            }),
            ProjectNode::Group(ProjectGroup {
                id: 1,
                name: "Two".into(),
                collapsed: false,
                nodes: Vec::new(),
            }),
        ],
    };
    assert!(shared.validate().is_err());
}

#[test]
fn sorting_ignores_case_and_ties_keep_saved_order() {
    let mut library = ProjectLibrary::default();
    let lower = library.create_group(None, "b").unwrap();
    let upper = library.create_group(None, "A").unwrap();
    let same = library.create_group(None, "a").unwrap();
    assert_eq!(
        library
            .sorted_groups()
            .iter()
            .map(|entry| entry.id)
            .collect::<Vec<_>>(),
        vec![upper, same, lower]
    );
    for name in ["x", "y"] {
        assert!(library.remember(&project(name)));
    }
    let rows = library.sorted_rows(&|path: &[u8]| {
        if path.ends_with(b"x") {
            "Same".to_owned()
        } else {
            "same".to_owned()
        }
    });
    assert!(matches!(&rows[3], LibraryRow::Project { path, .. } if *path == project("x")));
    assert!(matches!(&rows[4], LibraryRow::Project { path, .. } if *path == project("y")));
    let named = library.sorted_rows_named(&vec!["Zed".to_owned(), "alpha".to_owned()]);
    assert!(matches!(&named[3], LibraryRow::Project { path, .. } if *path == project("y")));
}

#[test]
fn moves_keep_every_project_and_group() {
    let mut library = library();
    let work = library.create_group(None, "Work").unwrap();
    let inner = library.create_group(Some(work), "Inner").unwrap();
    library.move_project(&project("beta"), Some(inner)).unwrap();
    library.move_group(inner, None).unwrap();
    assert_eq!(library.parent_of_group(inner), Some(None));
    assert_eq!(library.parent_of_project(&project("beta")), Some(inner));
    let mut paths = library.projects();
    paths.sort();
    assert_eq!(paths, vec![project("alpha"), project("beta"), project("gamma")]);
    assert_eq!(library.group_count(), 2);
    assert_eq!(
        library.move_project(&project("missing"), None),
        Err("That project is no longer in the project list.".to_owned())
    );
    assert_eq!(
        library.move_project(&project("alpha"), Some(99)),
        Err("That group is no longer in the project list.".to_owned())
    );
    assert!(library.forget_project(&project("alpha")));
    assert!(!library.contains_project(&project("alpha")));
    assert!(!library.forget_project(&project("alpha")));
}

#[test]
fn renamed_and_collapsed_groups_read_back() {
    let mut library = library();
    let work = library.create_group(None, "Work").unwrap();
    library.rename_group(work, "  Clients  ").unwrap();
    assert_eq!(library.group(work).unwrap().name, "Clients");
    assert!(library.set_collapsed(work, true));
    assert!(library.group(work).unwrap().collapsed);
    assert!(library.set_collapsed(work, false));
    assert!(!library.group(work).unwrap().collapsed);
    assert_eq!(
        library.rename_group(work, "   "),
        Err("Enter a name for this group.".to_owned())
    );
    assert_eq!(
        library.create_group(None, &"n".repeat(129)),
        Err("Use a group name of at most 128 bytes.".to_owned())
    );
}

#[test]
fn the_group_limit_refuses_a_new_group() {
    let mut library = ProjectLibrary::default();
    for index in 0..64 {
        library.create_group(None, &format!("G{index}")).unwrap();
    }
    assert_eq!(
        library.create_group(None, "One more"),
        Err("Up to 64 groups can be saved. Remove a group before adding another.".to_owned())
    );
    assert_eq!(library.group_count(), 64);
}

#[test]
fn created_and_moved_groups_keep_distinct_ids_within_five_levels() {
    let mut library = library();
    let mut parent = None;
    let mut chain = Vec::new();
    for level in 0..MAX_DEPTH {
        let id = library.create_group(parent, &format!("level {level}")).unwrap();
        chain.push(id);
        parent = Some(id);
    }
    assert!(library.create_group(parent, "too deep").is_err());
    let side = library.create_group(None, "side").unwrap();
    let ids: Vec<u32> = library.groups().iter().map(|entry| entry.id).collect();
    let mut distinct = ids.clone();
    distinct.sort();
    distinct.dedup();
    assert_eq!(distinct.len(), ids.len());
    assert!(library.move_group(side, Some(chain[MAX_DEPTH - 1])).is_err());
    assert!(library.move_group(side, Some(chain[MAX_DEPTH - 2])).is_ok());
    assert!(library.groups().iter().all(|entry| entry.depth < MAX_DEPTH));
    assert!(library.validate().is_ok());
}

#[test]
fn collapsing_renaming_and_remembering_keep_a_valid_list_valid() {
    let mut library = library();
    let id = library.create_group(None, "Work").unwrap();
    library.move_project(&project("alpha"), Some(id)).unwrap();
    assert!(library.validate().is_ok());
    assert!(library.set_collapsed(id, true));
    assert!(library.validate().is_ok());
    library.rename_group(id, "  Client work  ").unwrap();
    assert_eq!(library.group(id).unwrap().name, "Client work");
    assert!(library.validate().is_ok());
    assert!(library.rename_group(id, "   ").is_err());
    assert!(library.validate().is_ok());
    for index in 0..MAX_PROJECTS + 3 {
        library.remember(&project(&format!("extra-{index}")));
        assert!(library.validate().is_ok());
    }
    assert_eq!(library.project_count(), MAX_PROJECTS);
    assert!(library.contains_project(&project("alpha")));
}

#[test]
fn forgetting_projects_and_removing_groups_keep_a_valid_list_valid() {
    let mut library = library();
    let outer = library.create_group(None, "Outer").unwrap();
    let inner = library.create_group(Some(outer), "Inner").unwrap();
    library.move_project(&project("alpha"), Some(inner)).unwrap();
    library.move_project(&project("beta"), Some(outer)).unwrap();
    assert!(library.validate().is_ok());
    assert!(library.forget_project(&project("alpha")));
    assert!(library.validate().is_ok());
    assert!(!library.contains_project(&project("alpha")));
    assert!(library.remove_group(outer));
    assert!(library.validate().is_ok());
    assert_eq!(library.group_count(), 1);
    assert_eq!(library.parent_of_group(inner), Some(None));
    assert_eq!(library.parent_of_project(&project("beta")), None);
    assert!(library.remove_group(inner));
    assert!(library.validate().is_ok());
    assert_eq!(library.group_count(), 0);
    assert_eq!(library.project_count(), 2);
}

#[test]
fn created_groups_keep_a_valid_list_valid_up_to_every_bound() {
    let mut library = library();
    let mut parent = None;
    for level in 0..MAX_DEPTH {
        let id = library.create_group(parent, &format!(" Level {level} ")).unwrap();
        assert!(library.validate().is_ok());
        parent = Some(id);
    }
    assert!(library.create_group(parent, "Too deep").is_err());
    assert!(library.validate().is_ok());
    while library.group_count() < 64 {
        library.create_group(None, "More").unwrap();
        assert!(library.validate().is_ok());
    }
    assert!(library.create_group(None, "One too many").is_err());
    assert!(library.validate().is_ok());
}
