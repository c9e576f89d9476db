use gitturtle::documents::{bounded_accessible_text, bounded_block, is_markdown, language_for};

#[test]
fn markdown_is_recognised_by_its_extension_in_any_ascii_case() {
    assert!(is_markdown(b"docs/README.md"));
    assert!(is_markdown(b"notes.MarkDown"));
    assert!(is_markdown(b"/a/b.MDOWN"));
    assert!(is_markdown(b"dir/file.tar.md"));
    assert!(is_markdown(b"a.md/"));
    assert!(!is_markdown(b".md"));
    assert!(!is_markdown(b"docs/.md"));
    assert!(!is_markdown(b"README"));
    assert!(!is_markdown(b"notes.txt"));
    assert!(!is_markdown(b"notes.mdx"));
    assert!(!is_markdown(b"dir.md/.."));
    assert!(!is_markdown(b"/"));
    assert!(!is_markdown(b""));
}

#[test]
fn long_blocks_point_to_the_source() {
    assert_eq!(bounded_block("short"), "short");
    let exact = "x".repeat(16 * 1024);
    assert_eq!(bounded_block(&exact), exact);
    let long = format!("{}é", "x".repeat(16 * 1024 - 1));
    assert_eq!(
        bounded_block(&long),
        format!("{}\n[Long block continues in Source]", "x".repeat(16 * 1024 - 1))
    );
}

#[test]
fn long_accessible_labels_end_with_an_ellipsis_within_the_bound() {
    assert_eq!(bounded_accessible_text("label".into()), "label");
    let long = "y".repeat(20_000);
    let cut = bounded_accessible_text(long);
    assert_eq!(cut.len(), 16 * 1024);
    assert!(cut.ends_with('…'));
    assert_eq!(cut, format!("{}…", "y".repeat(16 * 1024 - 3)));
}

#[test]
fn file_extensions_pick_a_highlighting_language_ignoring_case() {
    for (extension, language) in [
        ("rs", "rust"),
        ("RS", "rust"),
        ("mts", "typescript"),
        ("tsx", "tsx"),
        ("CJS", "javascript"),
        ("jsonc", "json"),
        ("css", "css"),
        ("Markdown", "markdown"),
        ("yml", "yaml"),
        ("toml", "toml"),
        ("htm", "html"),
        ("pyw", "python"),
        ("go", "go"),
        ("zsh", "bash"),
        ("", "text"),
        ("rust", "text"),
        ("ﬆ", "text"),
    ] {
        assert_eq!(language_for(extension), language, "{extension}");
    }
}
