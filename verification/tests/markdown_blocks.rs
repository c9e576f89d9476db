use gitturtle::image_capture::{
    apply_captures, CaptureResult, Decoded, ImageOutcome,
    admit_decoded, budget_error, image_indices, image_plan, may_decode, step_error, worktree_notice,
    ImageStep, PIXEL_BUDGET,
};
use gitturtle::markdown_blocks::{
    build_blocks, document_blocks, document_gate, document_references, reference_table, Block, BlockKind, BlockNode,
    BlockState, ListItem, MAX_BLOCKS, MAX_SOURCE,
};
use gitturtle::prose::Inline;

fn text(t: &str) -> Inline {
    Inline::Text(t.to_owned())
}

fn paragraph(children: Vec<Inline>, line: usize) -> BlockNode {
    BlockNode::Paragraph { body: Inline::Other(children), line }
}

fn code(lang: &str, value: &str, line: usize) -> BlockNode {
    BlockNode::Code { lang: lang.to_owned(), value: value.to_owned(), line }
}

fn prose_text(block: &Block) -> Option<&str> {
    match &block.kind {
        BlockKind::Prose(p) => Some(p.text.as_str()),
        _ => None,
    }
}

#[test]
fn gfm_structure_preserves_text_and_never_executes_html() {
    // "# Heading\n\nA **bold** and *italic* paragraph.\n\n- [x] Task\n\n| Name | Value |\n| --- | --- |\n| one | two |\n\n<script>alert(1)</script>"
    let root = BlockNode::Root(vec![
        BlockNode::Heading { depth: 1, body: Inline::Other(vec![text("Heading")]), line: 1 },
        paragraph(
            vec![
                text("A "),
                Inline::Strong(vec![text("bold")]),
                text(" and "),
                Inline::Emphasis(vec![text("italic")]),
                text(" paragraph."),
            ],
            3,
        ),
        BlockNode::List {
            ordered: false,
            start: None,
            items: vec![ListItem { checked: Some(true), children: vec![paragraph(vec![text("Task")], 5)] }],
            line: 5,
        },
        BlockNode::Table {
            rows: vec![
                vec!["Name".to_owned(), "Value".to_owned()],
                vec!["one".to_owned(), "two".to_owned()],
            ],
            line: 7,
        },
        BlockNode::Html { value: "<script>alert(1)</script>".to_owned(), line: 11 },
    ]);
    let blocks = document_blocks(&root, &vec![]);
    assert!(blocks.iter().any(|b| b.heading == 1));
    assert!(blocks.iter().any(|b| matches!(&b.kind, BlockKind::Prose(p)
        if p.text.contains("bold") && p.spans.iter().any(|(_, _, s)| s.strong))));
    assert!(blocks
        .iter()
        .any(|b| matches!(&b.kind, BlockKind::Table(cells, false) if cells == &["one", "two"])));
    assert!(blocks
        .iter()
        .any(|b| matches!(&b.kind, BlockKind::Code(_, literal) if literal.contains("<script>"))));
}

#[test]
fn bounded_documents_keep_unavailable_assets_explicit() {
    // "![remote](https://example.invalid/image.png)\n\n![escape](../../outside.png)"
    let root = BlockNode::Root(vec![
        paragraph(
            vec![Inline::Image { url: "https://example.invalid/image.png".into(), alt: "remote".into() }],
            1,
        ),
        paragraph(vec![Inline::Image { url: "../../outside.png".into(), alt: "escape".into() }], 3),
    ]);
    let blocks = document_blocks(&root, &vec![]);
    assert_eq!(
        blocks
            .iter()
            .filter(|b| matches!(&b.kind, BlockKind::Image { .. }))
            .count(),
        2
    );
    let large = "a".repeat(MAX_SOURCE + 1);
    let blocks = document_gate(true, large.len()).unwrap();
    assert!(matches!(&blocks[0].kind, BlockKind::Notice(_)));
}

#[test]
fn small_present_sources_are_rendered_and_absent_sides_say_so() {
    assert!(document_gate(true, MAX_SOURCE).is_none());
    let blocks = document_gate(false, 0).unwrap();
    assert_eq!(blocks.len(), 1);
    assert!(matches!(&blocks[0].kind, BlockKind::Notice(m) if m == "No file on this side"));
    assert_eq!(blocks[0].line, 1);
}

#[test]
fn list_markers_number_from_the_start_and_mark_tasks() {
    let root = BlockNode::Root(vec![
        BlockNode::List {
            ordered: true,
            start: Some(9),
            items: vec![
                ListItem { checked: None, children: vec![paragraph(vec![text("nine")], 1)] },
                ListItem {
                    checked: None,
                    children: vec![paragraph(vec![text("ten")], 2), paragraph(vec![text("more")], 3)],
                },
            ],
            line: 1,
        },
        BlockNode::List {
            ordered: false,
            start: None,
            items: vec![
                ListItem { checked: None, children: vec![paragraph(vec![text("dot")], 5)] },
                ListItem { checked: Some(false), children: vec![paragraph(vec![text("open")], 6)] },
            ],
            line: 5,
        },
    ]);
    let blocks = document_blocks(&root, &vec![]);
    let texts: Vec<&str> = blocks.iter().filter_map(prose_text).collect();
    assert_eq!(texts, ["9. nine", "10. ten", "more", "\u{2022} dot", "\u{2610} open"]);
    assert!(blocks.iter().all(|b| b.indent == 1));
}

#[test]
fn quotes_indent_and_mark_every_child() {
    let root = BlockNode::Blockquote(vec![
        paragraph(vec![text("one")], 1),
        BlockNode::Blockquote(vec![paragraph(vec![text("two")], 2)]),
    ]);
    let mut state = BlockState::new();
    build_blocks(&root, 0, "", &vec![], &mut state);
    assert_eq!(state.blocks.len(), 2);
    assert_eq!(prose_text(&state.blocks[0]), Some("\u{258e} one"));
    assert_eq!(state.blocks[0].indent, 1);
    assert_eq!(prose_text(&state.blocks[1]), Some("\u{258e} two"));
    assert_eq!(state.blocks[1].indent, 2);
}

#[test]
fn indent_stops_at_eight() {
    let mut node = paragraph(vec![text("deep")], 1);
    for _ in 0..12 {
        node = BlockNode::Blockquote(vec![node]);
    }
    let blocks = document_blocks(&node, &vec![]);
    assert_eq!(blocks.len(), 1);
    assert_eq!(blocks[0].indent, 8);
}

#[test]
fn code_is_cut_into_forty_line_chunks_at_their_source_lines() {
    let value: Vec<String> = (1..=41).map(|i| format!("line {i}")).collect();
    let value = value.join("\r\n") + "\n";
    let blocks = document_blocks(&code("rust", &value, 10), &vec![]);
    assert_eq!(blocks.len(), 2);
    match &blocks[0].kind {
        BlockKind::Code(lang, body) => {
            assert_eq!(lang, "rust");
            assert!(body.starts_with("line 1\nline 2\n"));
            assert!(body.ends_with("\nline 40"));
        }
        _ => panic!("expected code"),
    }
    assert_eq!(blocks[0].line, 10);
    assert!(matches!(&blocks[1].kind, BlockKind::Code(_, body) if body == "line 41"));
    assert_eq!(blocks[1].line, 50);
}

#[test]
fn empty_code_adds_no_block() {
    assert!(document_blocks(&code("", "", 1), &vec![]).is_empty());
}

#[test]
fn only_four_mermaid_diagrams_are_drawn() {
    let nodes: Vec<BlockNode> = (0..5).map(|i| code("MerMaid", "graph TD; A-->B", i + 1)).collect();
    let blocks = document_blocks(&BlockNode::Root(nodes), &vec![]);
    let diagrams = blocks.iter().filter(|b| matches!(&b.kind, BlockKind::Diagram(s) if s == "graph TD; A-->B")).count();
    assert_eq!(diagrams, 4);
    assert!(blocks.iter().any(|b| matches!(&b.kind, BlockKind::Notice(m)
        if m == "Mermaid rendering is limited to four diagrams per side; this block is shown as source.")));
    // Each diagram is followed by its source as code.
    assert_eq!(blocks.iter().filter(|b| matches!(&b.kind, BlockKind::Code(..))).count(), 5);
}

#[test]
fn wide_tables_keep_twelve_columns_and_say_so() {
    let row: Vec<String> = (0..13).map(|i| i.to_string()).collect();
    let blocks = document_blocks(&BlockNode::Table { rows: vec![row.clone(), row], line: 4 }, &vec![]);
    assert_eq!(blocks.len(), 4);
    assert!(matches!(&blocks[0].kind, BlockKind::Table(cells, true) if cells.len() == 12 && cells[11] == "11"));
    assert!(matches!(&blocks[1].kind, BlockKind::Notice(m) if m == "Table columns beyond twelve are available in Source."));
    assert_eq!(blocks[1].line, 4);
    assert!(matches!(&blocks[2].kind, BlockKind::Table(_, false)));
    assert_eq!(blocks[3].line, 5);
}

#[test]
fn rules_definitions_and_other_constructs() {
    let root = BlockNode::Root(vec![
        BlockNode::ThematicBreak { line: 1 },
        BlockNode::Definition { identifier: "x".into(), url: "y.png".into() },
        BlockNode::Other { source: Some("$$x$$".into()), line: 3 },
        BlockNode::Other { source: None, line: 4 },
    ]);
    let blocks = document_blocks(&root, &vec![]);
    assert_eq!(blocks.len(), 3);
    assert!(matches!(blocks[0].kind, BlockKind::Rule));
    assert!(matches!(&blocks[1].kind, BlockKind::Notice(m) if m == "Source construct: $$x$$"));
    assert!(matches!(&blocks[2].kind, BlockKind::Notice(m)
        if m == "Source construct: Use Source to inspect this construct"));
}

#[test]
fn images_follow_their_prose_and_references_resolve_by_lowercase_key() {
    let table = reference_table(&vec![
        ("Logo".to_owned(), "first.png".to_owned()),
        ("LOGO".to_owned(), "second.png".to_owned()),
    ]);
    assert_eq!(table[0].0, "logo");
    assert_eq!(table[1].0, "logo");
    let root = paragraph(
        vec![text("see "), Inline::ImageReference { identifier: "lOgO".into(), alt: "mark".into() }],
        7,
    );
    let blocks = document_blocks(&root, &table);
    assert_eq!(blocks.len(), 2);
    assert_eq!(prose_text(&blocks[0]), Some("see mark"));
    match &blocks[1].kind {
        BlockKind::Image { destination, alt, error } => {
            assert_eq!(destination, "first.png");
            assert_eq!(alt, "mark");
            assert!(error.as_deref().unwrap().starts_with("Local image is unavailable"));
        }
        _ => panic!("expected an image"),
    }
    assert_eq!(blocks[1].line, 7);
}

#[test]
fn the_block_list_stops_at_its_bound_with_a_notice() {
    let nodes: Vec<BlockNode> = (0..MAX_BLOCKS + 5).map(|i| BlockNode::ThematicBreak { line: i + 1 }).collect();
    let blocks = document_blocks(&BlockNode::Root(nodes), &vec![]);
    assert_eq!(blocks.len(), MAX_BLOCKS);
    assert!(matches!(blocks[MAX_BLOCKS - 2].kind, BlockKind::Rule));
    assert!(matches!(&blocks[MAX_BLOCKS - 1].kind, BlockKind::Notice(m)
        if m == "Rendered block limit reached (2,048). Source contains the complete document."));
}

#[test]
fn images_past_thirty_two_or_without_scope_are_not_captured() {
    let plan = image_plan(34, true);
    assert_eq!(plan.len(), 34);
    assert!(plan[..32].iter().all(|s| *s == ImageStep::Capture));
    assert_eq!(plan[32], ImageStep::Limited);
    let plan = image_plan(33, false);
    assert_eq!(plan[0], ImageStep::NoScope);
    assert_eq!(plan[32], ImageStep::Limited);
    assert_eq!(
        step_error(ImageStep::Limited).unwrap(),
        "The 32 local-image limit was reached; exact source remains available."
    );
    assert_eq!(
        step_error(ImageStep::NoScope).unwrap(),
        "No captured revision/index scope is available for this local image."
    );
    assert!(step_error(ImageStep::Capture).is_none());
}

#[test]
fn decoded_pixels_share_one_budget() {
    assert_eq!(admit_decoded(PIXEL_BUDGET, 10), (true, PIXEL_BUDGET - 10));
    assert_eq!(admit_decoded(10, 10), (true, 0));
    assert_eq!(admit_decoded(10, 11), (false, 10));
    assert_eq!(admit_decoded(0, 0), (false, 0));
    assert!(may_decode(1));
    assert!(!may_decode(0));
    assert_eq!(budget_error(), "Markdown images exceed the 16 MiB decoded-pixel budget");
}

#[test]
fn image_positions_and_the_worktree_notice() {
    let root = BlockNode::Root(vec![
        BlockNode::ThematicBreak { line: 1 },
        paragraph(vec![Inline::Image { url: "a.png".into(), alt: "a".into() }], 2),
        paragraph(vec![Inline::Image { url: "b.png".into(), alt: "".into() }], 3),
    ]);
    let mut blocks = document_blocks(&root, &vec![]);
    assert_eq!(image_indices(&blocks), vec![2, 3]);
    let before = blocks.len();
    worktree_notice(&mut blocks, false);
    assert_eq!(blocks.len(), before);
    worktree_notice(&mut blocks, true);
    assert_eq!(blocks.len(), before + 1);
    assert!(matches!(&blocks[before].kind, BlockKind::Notice(m) if m.starts_with("Local images are captured")));
}

fn pixels(bytes: usize) -> Option<Decoded> {
    Some(Decoded::Pixels { bytes, drawn: Ok(()) })
}

#[test]
fn captured_images_share_the_pixel_budget_in_order() {
    let budget_error = Some("Markdown images exceed the 16 MiB decoded-pixel budget".to_owned());
    let results = vec![
        CaptureResult { error: Some("missing".into()), asset: None },
        CaptureResult { error: None, asset: pixels(PIXEL_BUDGET - 10) },
        CaptureResult { error: None, asset: pixels(11) },
        CaptureResult { error: None, asset: Some(Decoded::Failed("bad PNG".into())) },
        CaptureResult { error: None, asset: Some(Decoded::Pixels { bytes: 4, drawn: Err("no texture".into()) }) },
        CaptureResult { error: None, asset: pixels(10) },
        CaptureResult { error: None, asset: pixels(1) },
        CaptureResult { error: None, asset: pixels(1) },
    ];
    let outcomes = apply_captures(8, &Ok(results));
    assert_eq!(
        outcomes,
        vec![
            ImageOutcome { shown: false, error: Some("missing".into()) },
            ImageOutcome { shown: true, error: None },
            ImageOutcome { shown: false, error: budget_error.clone() },
            ImageOutcome { shown: false, error: Some("bad PNG".into()) },
            ImageOutcome { shown: false, error: Some("no texture".into()) },
            ImageOutcome { shown: true, error: None },
            ImageOutcome { shown: false, error: budget_error.clone() },
            ImageOutcome { shown: false, error: budget_error },
        ]
    );
    let fewer = apply_captures(1, &Ok(vec![
        CaptureResult { error: None, asset: pixels(1) },
        CaptureResult { error: None, asset: pixels(1) },
    ]));
    assert_eq!(fewer.len(), 1);
    let failed = apply_captures(2, &Err("not a revision".into()));
    assert_eq!(failed, vec![
        ImageOutcome { shown: false, error: Some("not a revision".into()) },
        ImageOutcome { shown: false, error: Some("not a revision".into()) },
    ]);
}

#[test]
fn the_later_of_two_sibling_definitions_wins_as_the_document_search_meets_it_first() {
    let root = BlockNode::Root(vec![
        BlockNode::Definition { identifier: "Logo".into(), url: "first.png".into() },
        paragraph(vec![Inline::ImageReference { identifier: "logo".into(), alt: "mark".into() }], 3),
        BlockNode::Blockquote(vec![BlockNode::Definition { identifier: "Other".into(), url: "q.png".into() }]),
        BlockNode::Definition { identifier: "LOGO".into(), url: "second.png".into() },
    ]);
    let references = document_references(&root);
    assert_eq!(
        references,
        vec![
            ("logo".to_owned(), "second.png".to_owned()),
            ("other".to_owned(), "q.png".to_owned()),
            ("logo".to_owned(), "first.png".to_owned()),
        ]
    );
    let blocks = document_blocks(&root, &references);
    assert!(blocks.iter().any(|b| matches!(&b.kind, BlockKind::Image { destination, .. } if destination == "second.png")));
}
