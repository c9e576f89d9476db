use gitturtle::profiles::{Assignment, Definition, Mutation, Store};

fn definition(id: &str) -> Definition {
    Definition {
        id: id.into(),
        label: id.into(),
        name: "Profile Author".into(),
        email: format!("{id}@example.invalid"),
        signing: None,
    }
}

#[test]
fn definitions_need_a_plain_identifier_and_a_one_line_name() {
    assert_eq!(definition("Personal").validate(), Ok(()));
    let mut bad = definition("has space");
    assert_eq!(bad.validate(), Err("Invalid profile identifier".to_owned()));
    bad.id = "x".repeat(81);
    assert!(bad.validate().is_err());
    bad.id = "work-2".into();
    assert_eq!(bad.validate(), Ok(()));
    bad.label = "   ".into();
    let label_error = "Choose a profile name of 1–80 bytes without control characters";
    assert_eq!(bad.validate(), Err(label_error.to_owned()));
    bad.label = "two\nlines".into();
    assert_eq!(bad.validate(), Err(label_error.to_owned()));
    bad.label = "é".repeat(41);
    assert_eq!(bad.validate(), Err(label_error.to_owned()));
}

#[test]
fn saves_deletions_and_assignments_keep_the_store_consistent() {
    let one = definition("Personal");
    let two = definition("Work");
    let mut store = Store::default();
    for profile in [&one, &two] {
        store = store
            .apply(&Mutation::Save {
                previous: None,
                definition: profile.clone(),
            })
            .unwrap();
    }
    assert_eq!(store.definitions.len(), 2);
    store = store
        .apply(&Mutation::Assign {
            worktree: b"/work/tree".to_vec(),
            profile: two.clone(),
        })
        .unwrap();
    assert_eq!(store.assigned(b"/work/tree"), Some(&two));
    assert_eq!(store.assigned(b"/work//tree/"), Some(&two));
    store = store
        .apply(&Mutation::Assign {
            worktree: b"/work/tree/".to_vec(),
            profile: one.clone(),
        })
        .unwrap();
    assert_eq!(store.assignments.len(), 1);
    assert_eq!(store.assigned(b"/work/tree"), Some(&one));
    assert!(store
        .apply(&Mutation::Assign {
            worktree: b"relative".to_vec(),
            profile: one.clone(),
        })
        .is_err());

    let mut edited = two.clone();
    edited.email = "new@example.invalid".into();
    let stale = store.apply(&Mutation::Save {
        previous: None,
        definition: edited.clone(),
    });
    assert_eq!(
        stale,
        Err("This profile changed elsewhere. Reopen its editor before saving.".to_owned())
    );
    store = store
        .apply(&Mutation::Save {
            previous: Some(two.clone()),
            definition: edited.clone(),
        })
        .unwrap();
    assert_eq!(store.definitions[1], edited);
    assert_eq!(
        store.apply(&Mutation::Delete(two.clone())),
        Err("This profile changed elsewhere. Review deletion again.".to_owned())
    );

    store = store.apply(&Mutation::Delete(one.clone())).unwrap();
    assert_eq!(store.definitions, vec![edited.clone()]);
    assert!(store.assignments.is_empty());
    assert_eq!(store.assigned(b"/work/tree"), None);
    let mut renamed = definition("Other");
    renamed.label = "WORK".into();
    assert_eq!(
        store.apply(&Mutation::Save {
            previous: None,
            definition: renamed,
        }),
        Err("Profile names and identifiers must be unique".to_owned())
    );
}

#[test]
fn invalid_or_unknown_stores_are_refused() {
    let mut store = Store::default();
    assert_eq!(store.validate(), Ok(()));
    store.version = 99;
    assert_eq!(
        store.validate(),
        Err("Saved profiles use an unsupported version; the file was preserved".to_owned())
    );
    store.version = 1;
    store.definitions.push(definition("Personal"));
    store.assignments.push(Assignment {
        worktree: b"/w".to_vec(),
        profile: "Missing".into(),
    });
    assert_eq!(
        store.validate(),
        Err("Invalid saved profile assignment".to_owned())
    );
    store.assignments[0].profile = "Personal".into();
    assert_eq!(store.validate(), Ok(()));
    store.definitions.push(definition("Personal"));
    assert_eq!(
        store.validate(),
        Err("Profile names and identifiers must be unique".to_owned())
    );
}

#[test]
fn an_identity_refusal_stands_once_identifier_and_name_pass() {
    let good = definition("work");
    assert_eq!(good.validate_with_identity(Ok(())), Ok(()));
    assert_eq!(
        good.validate_with_identity(Err("Invalid email".to_owned())),
        Err("Invalid email".to_owned())
    );
    let bad = definition("has space");
    assert_eq!(
        bad.validate_with_identity(Err("Invalid email".to_owned())),
        Err("Invalid profile identifier".to_owned())
    );
}

#[test]
fn a_refused_git_identity_refuses_the_store_and_the_save() {
    let one = definition("personal");
    let two = definition("work");
    let mut store = Store::default();
    for profile in [&one, &two] {
        store = store
            .apply(&Mutation::Save { previous: None, definition: profile.clone() })
            .unwrap();
    }
    let refused = Err("Invalid Git email".to_owned());
    let answers = vec![(one.clone(), Ok(())), (two.clone(), refused.clone())];
    assert_eq!(store.validate_with_identities(&answers), refused);
    assert_eq!(store.validate_with_identities(&vec![(one.clone(), Ok(()))]), Ok(()));
    let third = definition("third");
    let save = Mutation::Save { previous: None, definition: third.clone() };
    let answers = vec![(third.clone(), Err("Unknown signing format".to_owned()))];
    assert_eq!(
        store.apply_with_identities(&save, &answers),
        Err("Unknown signing format".to_owned())
    );
    let answers = vec![(third.clone(), Ok(())), (two.clone(), refused.clone())];
    assert_eq!(store.apply_with_identities(&save, &answers), Err("Invalid Git email".to_owned()));
    let answers = vec![(third.clone(), Ok(()))];
    let saved = store.apply_with_identities(&save, &answers).unwrap();
    assert_eq!(saved.definitions.len(), 3);
    let mut bad = definition("bad id");
    bad.label = "x".into();
    let save = Mutation::Save { previous: None, definition: bad.clone() };
    assert_eq!(
        store.apply_with_identities(&save, &vec![(bad, Err("Invalid Git email".to_owned()))]),
        Err("Invalid profile identifier".to_owned())
    );
}
