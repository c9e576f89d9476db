//! The text of a Markdown paragraph or heading, as the preview paints it.
//!
//! Inline Markdown becomes one string with styled spans, the links it shows
//! and the images it names. Text is bounded as it is added; once the prose
//! reaches the bound, nothing more is read. Images are never loaded here: an
//! image only leaves its description in the text and its destination in the
//! list, and a reference resolves through the document's definitions.
use vstd::prelude::*;
use crate::documents::{bounded_block, bounded_block_text, MAX_BLOCK_BYTES};
use crate::text::{lowercase, push_text, to_lowercase, utf8_len};

verus! {

/// How a span of prose is drawn.
#[derive(Clone, Copy, Debug, Default, PartialEq, Eq, Structural)]
pub struct Style {
    pub strong: bool,
    pub emphasis: bool,
    pub code: bool,
    pub deleted: bool,
}

/// An inline Markdown node, with what the prose reads of it.
#[derive(Debug, PartialEq, Eq)]
pub enum Inline {
    Text(String),
    InlineCode(String),
    Break,
    Html(String),
    Strong(Vec<Inline>),
    Emphasis(Vec<Inline>),
    Delete(Vec<Inline>),
    /// `label` is the link's text as the parser renders it.
    Link { label: String, url: String, children: Vec<Inline> },
    Image { url: String, alt: String },
    ImageReference { identifier: String, alt: String },
    /// `label` is the reference's text as the parser renders it.
    LinkReference { label: String, identifier: String, children: Vec<Inline> },
    /// Any other node, with the nodes inside it.
    Other(Vec<Inline>),
}

/// Styled text with the links it shows, each as its label and destination.
#[derive(Debug, PartialEq, Eq)]
pub struct Prose {
    pub text: String,
    /// Byte ranges of `text`, each with its style.
    pub spans: Vec<(usize, usize, Style)>,
    pub links: Vec<(String, String)>,
}

/// Prose and the images it names, each as its destination and description.
pub struct ProseModel {
    pub text: Seq<char>,
    pub spans: Seq<(int, int, Style)>,
    pub links: Seq<(Seq<char>, Seq<char>)>,
    pub images: Seq<(Seq<char>, Seq<char>)>,
}

pub open spec fn pairs_view(v: Seq<(String, String)>) -> Seq<(Seq<char>, Seq<char>)> {
    v.map_values(|p: (String, String)| (p.0@, p.1@))
}

pub open spec fn spans_view(v: Seq<(usize, usize, Style)>) -> Seq<(int, int, Style)> {
    v.map_values(|s: (usize, usize, Style)| (s.0 as int, s.1 as int, s.2))
}

pub open spec fn prose_model(prose: Prose, images: Seq<(String, String)>) -> ProseModel {
    ProseModel {
        text: prose.text@,
        spans: spans_view(prose.spans@),
        links: pairs_view(prose.links@),
        images: pairs_view(images),
    }
}

pub open spec fn plain() -> Style {
    Style { strong: false, emphasis: false, code: false, deleted: false }
}

/// The destination of the first definition named `key`.
pub open spec fn lookup(references: Seq<(Seq<char>, Seq<char>)>, key: Seq<char>) -> Option<Seq<char>>
    decreases references.len(),
{
    if references.len() == 0 {
        None
    } else if references[0].0 == key {
        Some(references[0].1)
    } else {
        lookup(references.drop_first(), key)
    }
}

/// The destination a reference resolves to: the definition named by its
/// lowercase identifier, or a visible note that it is unresolved.
pub open spec fn resolve(references: Seq<(Seq<char>, Seq<char>)>, identifier: Seq<char>, image: bool) -> Seq<char> {
    match lookup(references, lowercase(identifier)) {
        Some(destination) => destination,
        None => if image {
            "[unresolved image reference: "@ + identifier + "]"@
        } else {
            "[unresolved link reference: "@ + identifier + "]"@
        },
    }
}

/// The style a node gives itself and the nodes inside it.
pub open spec fn style_of(node: Inline, style: Style) -> Style {
    match node {
        Inline::InlineCode(_) => Style { code: true, ..style },
        Inline::Strong(_) => Style { strong: true, ..style },
        Inline::Emphasis(_) => Style { emphasis: true, ..style },
        Inline::Delete(_) => Style { deleted: true, ..style },
        _ => style,
    }
}

/// The text a node adds itself, before the nodes inside it.
pub open spec fn own_text(node: Inline) -> Option<Seq<char>> {
    match node {
        Inline::Text(t) => Some(t@),
        Inline::InlineCode(t) => Some(t@),
        Inline::Break => Some("\n"@),
        Inline::Html(t) => Some(t@),
        Inline::Image { alt, .. } => Some(alt@),
        Inline::ImageReference { alt, .. } => Some(alt@),
        _ => None,
    }
}

/// The links and images a node adds itself.
pub open spec fn with_targets(node: Inline, st: ProseModel, references: Seq<(Seq<char>, Seq<char>)>) -> ProseModel {
    match node {
        Inline::Link { label, url, .. } => ProseModel {
            links: st.links.push((bounded_block_text(label@), url@)),
            ..st
        },
        Inline::Image { url, alt } => ProseModel { images: st.images.push((url@, alt@)), ..st },
        Inline::ImageReference { identifier, alt } => ProseModel {
            images: st.images.push((resolve(references, identifier@, true), alt@)),
            ..st
        },
        Inline::LinkReference { label, identifier, .. } => ProseModel {
            links: st.links.push((label@, resolve(references, identifier@, false))),
            ..st
        },
        _ => st,
    }
}

/// Appends bounded text as one span of `style`.
pub open spec fn add_text(st: ProseModel, t: Seq<char>, style: Style) -> ProseModel {
    let text = st.text + bounded_block_text(t);
    ProseModel {
        text: text,
        spans: st.spans.push((utf8_len(st.text) as int, utf8_len(text) as int, style)),
        ..st
    }
}

/// The prose after reading `node` in `style`: nothing once the prose has
/// reached the bound; otherwise the node's links and images, its own text,
/// then the nodes inside it in order.
pub open spec fn read_node(node: Inline, style: Style, st: ProseModel, references: Seq<(Seq<char>, Seq<char>)>) -> ProseModel
    decreases node, 0nat,
{
    if utf8_len(st.text) >= MAX_BLOCK_BYTES {
        st
    } else {
        let inner = style_of(node, style);
        let targeted = with_targets(node, st, references);
        let texted = match own_text(node) {
            Some(t) => add_text(targeted, t, inner),
            None => targeted,
        };
        match node {
            Inline::Strong(c) => read_nodes(c@, inner, texted, references),
            Inline::Emphasis(c) => read_nodes(c@, inner, texted, references),
            Inline::Delete(c) => read_nodes(c@, inner, texted, references),
            Inline::Link { children, .. } => read_nodes(children@, inner, texted, references),
            Inline::LinkReference { children, .. } => read_nodes(children@, inner, texted, references),
            Inline::Other(c) => read_nodes(c@, inner, texted, references),
            _ => texted,
        }
    }
}

/// The prose after reading `nodes` in order.
pub open spec fn read_nodes(nodes: Seq<Inline>, style: Style, st: ProseModel, references: Seq<(Seq<char>, Seq<char>)>) -> ProseModel
    decreases nodes, 1nat,
{
    if nodes.len() == 0 {
        st
    } else {
        read_node(nodes.last(), style, read_nodes(nodes.drop_last(), style, st, references), references)
    }
}

/// Appends bounded text to the prose as one span of `style`.
fn append_text(prose: &mut Prose, t: &str, style: Style)
    ensures
        final(prose).text@ == old(prose).text@ + bounded_block_text(t@),
        spans_view(final(prose).spans@) == spans_view(old(prose).spans@).push(
            (utf8_len(old(prose).text@) as int, utf8_len(final(prose).text@) as int, style),
        ),
        final(prose).links@ == old(prose).links@,
{
    let start = prose.text.as_str().as_bytes().len();
    let shown = bounded_block(t);
    push_text(&mut prose.text, shown.as_str());
    let end = prose.text.as_str().as_bytes().len();
    let ghost before = spans_view(prose.spans@);
    prose.spans.push((start, end, style));
    proof {
        assert(spans_view(prose.spans@) =~= before.push((start as int, end as int, style)));
    }
}

/// The destination a reference resolves to.
fn resolve_reference(references: &Vec<(String, String)>, identifier: &str, image: bool) -> (r: String)
    ensures
        r@ == resolve(pairs_view(references@), identifier@, image),
{
    let key = to_lowercase(identifier);
    let ghost all = pairs_view(references@);
    let n = references.len();
    let mut i: usize = 0;
    proof {
        assert(all.skip(0) =~= all);
    }
    while i < n
        invariant
            i <= n,
            n == references@.len(),
            all == pairs_view(references@),
            key@ == lowercase(identifier@),
            lookup(all, key@) == lookup(all.skip(i as int), key@),
        decreases n - i,
    {
        proof {
            assert(all.skip(i as int)[0] == all[i as int]);
            assert(all.skip(i as int).drop_first() =~= all.skip(i + 1));
        }
        if references[i].0 == key {
            proof {
                assert(all[i as int] == (references@[i as int].0@, references@[i as int].1@));
                assert(all.skip(i as int)[0].0 == key@);
                assert(lookup(all.skip(i as int), key@) == Some(all[i as int].1));
            }
            let destination = references[i].1.clone();
            proof {
                assert(destination@ == all[i as int].1);
                assert(lookup(all, key@) == Some(destination@));
            }
            return destination;
        }
        i = i + 1;
    }
    proof {
        assert(all.skip(n as int).len() == 0);
    }
    let mut note = String::new();
    if image {
        push_text(&mut note, "[unresolved image reference: ");
    } else {
        push_text(&mut note, "[unresolved link reference: ");
    }
    push_text(&mut note, identifier);
    push_text(&mut note, "]");
    note
}

/// Reads `node` in `style` into the prose and the image list.
pub fn read_inline(
    node: &Inline,
    style: Style,
    prose: &mut Prose,
    images: &mut Vec<(String, String)>,
    references: &Vec<(String, String)>,
)
    ensures
        prose_model(*final(prose), final(images)@) == read_node(
            *node,
            style,
            prose_model(*old(prose), old(images)@),
            pairs_view(references@),
        ),
    decreases node,
{
    if prose.text.as_str().as_bytes().len() >= MAX_BLOCK_BYTES {
        return;
    }
    let ghost start = prose_model(*prose, images@);
    let ghost refs = pairs_view(references@);
    let inner = match node {
        Inline::InlineCode(_) => Style { code: true, ..style },
        Inline::Strong(_) => Style { strong: true, ..style },
        Inline::Emphasis(_) => Style { emphasis: true, ..style },
        Inline::Delete(_) => Style { deleted: true, ..style },
        _ => style,
    };
    match node {
        Inline::Link { label, url, .. } => {
            let ghost before = pairs_view(prose.links@);
            prose.links.push((bounded_block(label.as_str()), url.clone()));
            proof {
                assert(pairs_view(prose.links@) =~= before.push((bounded_block_text(label@), url@)));
            }
        },
        Inline::Image { url, alt } => {
            let ghost before = pairs_view(images@);
            images.push((url.clone(), alt.clone()));
            proof {
                assert(pairs_view(images@) =~= before.push((url@, alt@)));
            }
        },
        Inline::ImageReference { identifier, alt } => {
            let ghost before = pairs_view(images@);
            let destination = resolve_reference(references, identifier.as_str(), true);
            images.push((destination, alt.clone()));
            proof {
                assert(pairs_view(images@) =~= before.push(
                    (resolve(refs, identifier@, true), alt@),
                ));
            }
        },
        Inline::LinkReference { label, identifier, .. } => {
            let ghost before = pairs_view(prose.links@);
            let destination = resolve_reference(references, identifier.as_str(), false);
            prose.links.push((label.clone(), destination));
            proof {
                assert(pairs_view(prose.links@) =~= before.push(
                    (label@, resolve(refs, identifier@, false)),
                ));
            }
        },
        _ => {},
    }
    proof {
        assert(prose_model(*prose, images@) == with_targets(*node, start, refs));
    }
    match node {
        Inline::Text(t) => append_text(prose, t.as_str(), inner),
        Inline::InlineCode(t) => append_text(prose, t.as_str(), inner),
        Inline::Break => append_text(prose, "\n", inner),
        Inline::Html(t) => append_text(prose, t.as_str(), inner),
        Inline::Image { alt, .. } => append_text(prose, alt.as_str(), inner),
        Inline::ImageReference { alt, .. } => append_text(prose, alt.as_str(), inner),
        _ => {},
    }
    let ghost texted = prose_model(*prose, images@);
    proof {
        let targeted = with_targets(*node, start, refs);
        match own_text(*node) {
            Some(t) => {
                assert(texted =~= add_text(targeted, t, inner));
            },
            None => {
                assert(texted =~= targeted);
            },
        }
    }
    match node {
        Inline::Strong(c) => read_all(c, inner, prose, images, references),
        Inline::Emphasis(c) => read_all(c, inner, prose, images, references),
        Inline::Delete(c) => read_all(c, inner, prose, images, references),
        Inline::Link { children, .. } => read_all(children, inner, prose, images, references),
        Inline::LinkReference { children, .. } => read_all(children, inner, prose, images, references),
        Inline::Other(c) => read_all(c, inner, prose, images, references),
        _ => {},
    }
}

/// Reads `nodes` in order.
fn read_all(
    nodes: &Vec<Inline>,
    style: Style,
    prose: &mut Prose,
    images: &mut Vec<(String, String)>,
    references: &Vec<(String, String)>,
)
    ensures
        prose_model(*final(prose), final(images)@) == read_nodes(
            nodes@,
            style,
            prose_model(*old(prose), old(images)@),
            pairs_view(references@),
        ),
    decreases nodes,
{
    let ghost start = prose_model(*prose, images@);
    let n = nodes.len();
    let mut i: usize = 0;
    proof {
        assert(nodes@.take(0) =~= Seq::<Inline>::empty());
    }
    while i < n
        invariant
            i <= n,
            n == nodes@.len(),
            prose_model(*prose, images@) == read_nodes(
                nodes@.take(i as int),
                style,
                start,
                pairs_view(references@),
            ),
        decreases n - i,
    {
        proof {
            assert(nodes@.take(i + 1).drop_last() =~= nodes@.take(i as int));
            assert(nodes@.take(i + 1).last() == nodes@[i as int]);
        }
        read_inline(&nodes[i], style, prose, images, references);
        i = i + 1;
    }
    proof {
        assert(nodes@.take(n as int) =~= nodes@);
    }
}

/// The prose of a paragraph or heading `node`, shown after `prefix` (a list
/// marker or quote bar), and the images it names.
pub fn prose_of(node: &Inline, prefix: &str, references: &Vec<(String, String)>) -> (r: (
    Prose,
    Vec<(String, String)>,
))
    ensures
        prose_model(r.0, r.1@) == read_node(
            *node,
            plain(),
            ProseModel { text: prefix@, spans: seq![], links: seq![], images: seq![] },
            pairs_view(references@),
        ),
{
    let mut prose = Prose { text: prefix.to_owned(), spans: Vec::new(), links: Vec::new() };
    let mut images: Vec<(String, String)> = Vec::new();
    proof {
        assert(spans_view(prose.spans@) =~= Seq::<(int, int, Style)>::empty());
        assert(pairs_view(prose.links@) =~= Seq::<(Seq<char>, Seq<char>)>::empty());
        assert(pairs_view(images@) =~= Seq::<(Seq<char>, Seq<char>)>::empty());
    }
    read_inline(
        node,
        Style { strong: false, emphasis: false, code: false, deleted: false },
        &mut prose,
        &mut images,
        references,
    );
    (prose, images)
}

/// Every span is a range of the text, and the spans follow one another.
pub open spec fn spans_within(st: ProseModel) -> bool {
    &&& forall|i: int|
        0 <= i < st.spans.len() ==> 0 <= (#[trigger] st.spans[i]).0 <= st.spans[i].1 <= utf8_len(
            st.text,
        )
    &&& forall|i: int, j: int|
        0 <= i < j < st.spans.len() ==> (#[trigger] st.spans[i]).1 <= (#[trigger] st.spans[j]).0
}

proof fn lemma_utf8_len_concat(a: Seq<char>, b: Seq<char>)
    ensures
        utf8_len(a + b) == utf8_len(a) + utf8_len(b),
    decreases a.len(),
{
    if a.len() > 0 {
        lemma_utf8_len_concat(a.drop_first(), b);
        assert((a + b).drop_first() =~= a.drop_first() + b);
        assert((a + b)[0] == a[0]);
    } else {
        assert(a + b =~= b);
    }
}

proof fn lemma_add_text(st: ProseModel, t: Seq<char>, style: Style)
    requires
        spans_within(st),
    ensures
        spans_within(add_text(st, t, style)),
        add_text(st, t, style).text.subrange(0, st.text.len() as int) == st.text,
        st.text.len() <= add_text(st, t, style).text.len(),
{
    let after = add_text(st, t, style);
    lemma_utf8_len_concat(st.text, bounded_block_text(t));
    assert(after.text.subrange(0, st.text.len() as int) =~= st.text);
    assert forall|i: int| 0 <= i < after.spans.len() implies 0 <= (#[trigger] after.spans[i]).0
        <= after.spans[i].1 <= utf8_len(after.text) by {
        if i < st.spans.len() {
            assert(after.spans[i] == st.spans[i]);
        }
    }
    assert forall|i: int, j: int| 0 <= i < j < after.spans.len() implies (
    #[trigger] after.spans[i]).1 <= (#[trigger] after.spans[j]).0 by {
        assert(after.spans[i] == st.spans[i]);
        if j < st.spans.len() {
            assert(after.spans[j] == st.spans[j]);
        }
    }
}

proof fn lemma_read_node(node: Inline, style: Style, st: ProseModel, references: Seq<(Seq<char>, Seq<char>)>)
    requires
        spans_within(st),
    ensures
        spans_within(read_node(node, style, st, references)),
        st.text.len() <= read_node(node, style, st, references).text.len(),
        read_node(node, style, st, references).text.subrange(0, st.text.len() as int) == st.text,
    decreases node, 0nat,
{
    if utf8_len(st.text) < MAX_BLOCK_BYTES {
        let inner = style_of(node, style);
        let targeted = with_targets(node, st, references);
        assert(targeted.text == st.text && targeted.spans == st.spans);
        assert(spans_within(targeted));
        let texted = match own_text(node) {
            Some(t) => add_text(targeted, t, inner),
            None => targeted,
        };
        match own_text(node) {
            Some(t) => lemma_add_text(targeted, t, inner),
            None => {
                assert(st.text.subrange(0, st.text.len() as int) =~= st.text);
            },
        }
        match node {
            Inline::Strong(c) => lemma_read_nodes(c@, inner, texted, references),
            Inline::Emphasis(c) => lemma_read_nodes(c@, inner, texted, references),
            Inline::Delete(c) => lemma_read_nodes(c@, inner, texted, references),
            Inline::Link { children, .. } => lemma_read_nodes(children@, inner, texted, references),
            Inline::LinkReference { children, .. } => lemma_read_nodes(
                children@,
                inner,
                texted,
                references,
            ),
            Inline::Other(c) => lemma_read_nodes(c@, inner, texted, references),
            _ => {},
        }
        let done = read_node(node, style, st, references);
        assert(done.text.subrange(0, st.text.len() as int) =~= done.text.subrange(
            0,
            texted.text.len() as int,
        ).subrange(0, st.text.len() as int));
    } else {
        assert(st.text.subrange(0, st.text.len() as int) =~= st.text);
    }
}

proof fn lemma_read_nodes(nodes: Seq<Inline>, style: Style, st: ProseModel, references: Seq<(Seq<char>, Seq<char>)>)
    requires
        spans_within(st),
    ensures
        spans_within(read_nodes(nodes, style, st, references)),
        st.text.len() <= read_nodes(nodes, style, st, references).text.len(),
        read_nodes(nodes, style, st, references).text.subrange(0, st.text.len() as int) == st.text,
    decreases nodes, 1nat,
{
    if nodes.len() > 0 {
        let before = read_nodes(nodes.drop_last(), style, st, references);
        lemma_read_nodes(nodes.drop_last(), style, st, references);
        lemma_read_node(nodes.last(), style, before, references);
        let done = read_nodes(nodes, style, st, references);
        assert(done.text.subrange(0, st.text.len() as int) =~= done.text.subrange(
            0,
            before.text.len() as int,
        ).subrange(0, st.text.len() as int));
    } else {
        assert(st.text.subrange(0, st.text.len() as int) =~= st.text);
    }
}

/// Reading inline Markdown only appends to the prose, and every span stays a
/// range of the text, each after the one before.
pub proof fn law_spans_stay_within_the_text(
    node: Inline,
    style: Style,
    st: ProseModel,
    references: Seq<(Seq<char>, Seq<char>)>,
)
    requires
        spans_within(st),
    ensures
        spans_within(read_node(node, style, st, references)),
        st.text.len() <= read_node(node, style, st, references).text.len(),
        read_node(node, style, st, references).text.subrange(0, st.text.len() as int) == st.text,
{
    lemma_read_node(node, style, st, references);
}

} // verus!
