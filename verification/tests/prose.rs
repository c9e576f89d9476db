use gitturtle::prose::{prose_of, Inline, Style};

fn plain() -> Style {
    Style::default()
}

fn text(t: &str) -> Inline {
    Inline::Text(t.to_owned())
}

#[test]
fn inline_markdown_becomes_styled_text_links_and_images() {
    let paragraph = Inline::Other(vec![
        text("Hello "),
        Inline::Strong(vec![text("world")]),
        Inline::Link {
            label: "site".into(),
            url: "https://example.com".into(),
            children: vec![text("site")],
        },
        Inline::Image {
            url: "a.png".into(),
            alt: "pic".into(),
        },
        Inline::ImageReference {
            identifier: "Logo".into(),
            alt: "logo".into(),
        },
        Inline::LinkReference {
            label: "ref".into(),
            identifier: "Missing".into(),
            children: vec![text("ref")],
        },
        Inline::Emphasis(vec![Inline::InlineCode("x".into()), Inline::Break]),
    ]);
    let references = vec![("logo".to_owned(), "img/logo.png".to_owned())];
    let (prose, images) = prose_of(&paragraph, "• ", &references);
    assert_eq!(prose.text, "• Hello worldsitepiclogorefx\n");
    let strong = Style { strong: true, ..plain() };
    let code = Style { emphasis: true, code: true, ..plain() };
    let emphasis = Style { emphasis: true, ..plain() };
    let prefix = "• ".len();
    assert_eq!(
        prose.spans,
        vec![
            (prefix, prefix + 6, plain()),
            (prefix + 6, prefix + 11, strong),
            (prefix + 11, prefix + 15, plain()),
            (prefix + 15, prefix + 18, plain()),
            (prefix + 18, prefix + 22, plain()),
            (prefix + 22, prefix + 25, plain()),
            (prefix + 25, prefix + 26, code),
            (prefix + 26, prefix + 27, emphasis),
        ]
    );
    assert_eq!(
        prose.links,
        vec![
            ("site".to_owned(), "https://example.com".to_owned()),
            ("ref".to_owned(), "[unresolved link reference: Missing]".to_owned()),
        ]
    );
    assert_eq!(
        images,
        vec![
            ("a.png".to_owned(), "pic".to_owned()),
            ("img/logo.png".to_owned(), "logo".to_owned()),
        ]
    );
}

#[test]
fn prose_stops_reading_at_its_bound() {
    let long = "a".repeat(20_000);
    let paragraph = Inline::Other(vec![
        text(&long),
        text("after"),
        Inline::Image {
            url: "late.png".into(),
            alt: "late".into(),
        },
    ]);
    let (prose, images) = prose_of(&paragraph, "", &Vec::new());
    assert!(prose.text.ends_with("\n[Long block continues in Source]"));
    assert!(!prose.text.contains("after"));
    assert_eq!(prose.spans.len(), 1);
    assert!(images.is_empty());
    let unresolved = Inline::ImageReference {
        identifier: "Chart".into(),
        alt: "chart".into(),
    };
    let (_, images) = prose_of(&unresolved, "", &Vec::new());
    assert_eq!(images[0].0, "[unresolved image reference: Chart]");
}
