use gitturtle::path_filter::{checkpoint, matching, prepare_index, MAX_QUERY_BYTES};
use std::sync::atomic::AtomicU64;

type Index = Vec<[String; 2]>;

#[test]
fn matching_keeps_original_indices_and_covers_unicode_renamed_paths() {
    let index: Index = vec![
        ["src/old.rs".into(), "lib/new.rs".into()],
        ["tést/🐢.rs".into(), String::new()],
        ["README.md".to_lowercase(), String::new()],
    ];
    let cancellation = AtomicU64::new(4);
    assert_eq!(
        matching(&index, "OLD", &cancellation, 4).unwrap().as_slice(),
        &[0]
    );
    assert_eq!(
        matching(&index, "new.rs", &cancellation, 4)
            .unwrap()
            .as_slice(),
        &[0]
    );
    assert_eq!(
        matching(&index, "TÉST/🐢", &cancellation, 4)
            .unwrap()
            .as_slice(),
        &[1]
    );
    assert!(matching(&index, "absent", &cancellation, 4)
        .unwrap()
        .is_empty());
    assert!(matching(&index, &"x".repeat(MAX_QUERY_BYTES + 1), &cancellation, 4).is_err());
}

#[test]
fn superseded_work_does_not_publish_rows_from_previous_query_or_snapshot() {
    let generation = AtomicU64::new(3);
    assert!(checkpoint(&generation, 2).is_err());
    assert!(matching(
        &vec![["file".into(), String::new()]; 512],
        "file",
        &generation,
        2
    )
    .is_err());
}

#[test]
fn prepared_search_metadata_leaves_byte_safe_operation_targets_unchanged() {
    let generation = AtomicU64::new(1);
    let pairs = vec![[
        Some("old/École.rs".as_bytes().to_vec()),
        Some("new/🐢.rs".as_bytes().to_vec()),
    ]];
    let original = pairs.clone();
    let index = prepare_index(&pairs, &generation, 1).unwrap();
    assert_eq!(pairs, original);
    assert_eq!(index, vec![["old/école.rs".to_owned(), "new/🐢.rs".to_owned()]]);
    assert_eq!(
        matching(&index, "éCOLE", &generation, 1).unwrap().as_slice(),
        &[0]
    );
    assert_eq!(
        matching(&index, "🐢", &generation, 1).unwrap().as_slice(),
        &[0]
    );
    let long = vec![[None, Some(vec![b'x'; 64 * 1024 + 1])]];
    assert_eq!(
        prepare_index(&long, &generation, 1),
        Err("A changed path exceeds the 64 KiB filter limit. Clear the filter to browse every file.".to_owned())
    );
    let too_many = vec![[None, None]; 100_001];
    assert_eq!(
        prepare_index(&too_many, &generation, 1),
        Err("Path filtering supports up to 100,000 changed files. Clear the filter to browse every file.".to_owned())
    );
    assert!(prepare_index(&pairs, &generation, 2).is_err());
    let lossy = vec![[Some(b"A\xffB".to_vec()), None]];
    assert_eq!(
        prepare_index(&lossy, &generation, 1).unwrap(),
        vec![["a\u{fffd}b".to_owned(), String::new()]]
    );
}
