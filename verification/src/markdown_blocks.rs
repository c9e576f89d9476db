//! The blocks of a rendered Markdown document, as the preview lists them.
//!
//! A parsed document becomes a flat list of blocks: prose with its styled
//! spans, code in chunks of forty lines, table rows cut at twelve columns,
//! rules, images (never loaded here) and notices for whatever is shown only
//! as source. Mermaid code asks for a diagram, at most four per document;
//! drawing it is left to the caller. The list holds at most 2,048 blocks.
use vstd::prelude::*;
use crate::documents::{bounded_block, bounded_block_text, spells_lower, spells_word_lower};
use crate::prose::{
    law_spans_stay_within_the_text, pairs_view, plain, prose_of, read_node, spans_view, spans_within,
    Inline, Prose, ProseModel, Style,
};
use crate::text::{chars_of, lowercase, push_char, push_text, to_lowercase};

verus! {

/// The most blocks a document shows.
pub const MAX_BLOCKS: usize = 2048;

/// The most Mermaid diagrams a document draws.
pub const MAX_DIAGRAMS: usize = 4;

/// How many lines of code one block holds.
pub const CODE_CHUNK_LINES: usize = 40;

/// How many table columns are shown.
pub const MAX_TABLE_COLUMNS: usize = 12;

/// The deepest a block is drawn, in indent steps.
pub const MAX_INDENT: usize = 8;

/// An item of a list, with its task box if it has one.
pub struct ListItem {
    pub checked: Option<bool>,
    pub children: Vec<BlockNode>,
}

/// A block-level Markdown node, with what the preview reads of it. `line`
/// is the line of the source where the node starts.
pub enum BlockNode {
    Root(Vec<BlockNode>),
    Heading { depth: u8, body: Inline, line: usize },
    Paragraph { body: Inline, line: usize },
    Blockquote(Vec<BlockNode>),
    List { ordered: bool, start: Option<u32>, items: Vec<ListItem>, line: usize },
    /// Fenced or indented code; `lang` is empty when none is given.
    Code { lang: String, value: String, line: usize },
    /// Each row as the text of its cells.
    Table { rows: Vec<Vec<String>>, line: usize },
    ThematicBreak { line: usize },
    /// A link reference definition: the identifier references name, and
    /// where they lead.
    Definition { identifier: String, url: String },
    Html { value: String, line: usize },
    /// Any other node, with its source text when the parser kept it.
    Other { source: Option<String>, line: usize },
}

/// What a block shows.
pub enum BlockKind {
    Prose(Prose),
    /// The language and the code.
    Code(String, String),
    /// The cells of a row, and whether it is the header row.
    Table(Vec<String>, bool),
    /// A Mermaid diagram, to be drawn from this source.
    Diagram(String),
    Image { destination: String, alt: String, error: Option<String> },
    Rule,
    Notice(String),
}

pub struct Block {
    pub kind: BlockKind,
    pub indent: usize,
    pub heading: u8,
    pub line: usize,
}

/// The blocks built so far and the diagrams asked for.
pub struct BlockState {
    pub blocks: Vec<Block>,
    pub diagrams: usize,
}

pub enum KindView {
    Prose(Seq<char>, Seq<(int, int, Style)>, Seq<(Seq<char>, Seq<char>)>),
    Code(Seq<char>, Seq<char>),
    Table(Seq<Seq<char>>, bool),
    Diagram(Seq<char>),
    Image(Seq<char>, Seq<char>, Option<Seq<char>>),
    Rule,
    Notice(Seq<char>),
}

pub struct BlockView {
    pub kind: KindView,
    pub indent: int,
    pub heading: u8,
    pub line: int,
}

pub struct BuildModel {
    pub blocks: Seq<BlockView>,
    pub diagrams: int,
}

pub open spec fn strings_view(v: Seq<String>) -> Seq<Seq<char>> {
    v.map_values(|s: String| s@)
}

pub open spec fn option_view(o: Option<String>) -> Option<Seq<char>> {
    match o {
        Some(s) => Some(s@),
        None => None,
    }
}

pub open spec fn kind_view(k: BlockKind) -> KindView {
    match k {
        BlockKind::Prose(p) => KindView::Prose(p.text@, spans_view(p.spans@), pairs_view(p.links@)),
        BlockKind::Code(lang, code) => KindView::Code(lang@, code@),
        BlockKind::Table(cells, header) => KindView::Table(strings_view(cells@), header),
        BlockKind::Diagram(source) => KindView::Diagram(source@),
        BlockKind::Image { destination, alt, error } => KindView::Image(
            destination@,
            alt@,
            option_view(error),
        ),
        BlockKind::Rule => KindView::Rule,
        BlockKind::Notice(m) => KindView::Notice(m@),
    }
}

pub open spec fn block_view(b: Block) -> BlockView {
    BlockView { kind: kind_view(b.kind), indent: b.indent as int, heading: b.heading, line: b.line as int }
}

pub open spec fn block_views(v: Seq<Block>) -> Seq<BlockView> {
    v.map_values(|b: Block| block_view(b))
}

impl View for BlockState {
    type V = BuildModel;

    open spec fn view(&self) -> BuildModel {
        BuildModel { blocks: block_views(self.blocks@), diagrams: self.diagrams as int }
    }
}

impl BlockState {
    /// The list holds no more blocks than its bound, and no more diagrams
    /// were asked for than are drawn.
    pub open spec fn wf(&self) -> bool {
        self.blocks@.len() <= MAX_BLOCKS && self.diagrams <= MAX_DIAGRAMS
    }

    pub fn new() -> (r: Self)
        ensures
            r.wf(),
            r@.blocks.len() == 0,
            r@.diagrams == 0,
    {
        BlockState { blocks: Vec::new(), diagrams: 0 }
    }
}

pub open spec fn unavailable_image_message() -> Seq<char> {
    "Local image is unavailable without a captured revision target. Remote resources are never loaded automatically."@
}

pub open spec fn mermaid_limit_message() -> Seq<char> {
    "Mermaid rendering is limited to four diagrams per side; this block is shown as source."@
}

pub open spec fn columns_message() -> Seq<char> {
    "Table columns beyond twelve are available in Source."@
}

pub open spec fn block_limit_message() -> Seq<char> {
    "Rendered block limit reached (2,048). Source contains the complete document."@
}

pub open spec fn html_language() -> Seq<char> {
    "HTML shown literally"@
}

pub open spec fn quote_bar() -> Seq<char> {
    "\u{258e} "@
}

/// The indent of the blocks inside a quote or list: one step in, and never
/// past the deepest indent a block is drawn at.
pub open spec fn deeper(indent: int) -> int {
    if indent >= MAX_INDENT {
        MAX_INDENT as int
    } else {
        indent + 1
    }
}

/// Adds a block unless the list is full. Blocks are drawn at most eight
/// steps in.
pub open spec fn push_view(st: BuildModel, kind: KindView, indent: int, heading: u8, line: int) -> BuildModel {
    if st.blocks.len() < MAX_BLOCKS {
        BuildModel {
            blocks: st.blocks.push(
                BlockView {
                    kind,
                    indent: if indent > MAX_INDENT {
                        MAX_INDENT as int
                    } else {
                        indent
                    },
                    heading,
                    line,
                },
            ),
            ..st
        }
    } else {
        st
    }
}

/// An image block for each image, in order.
pub open spec fn image_blocks(st: BuildModel, images: Seq<(Seq<char>, Seq<char>)>, indent: int, line: int) -> BuildModel
    decreases images.len(),
{
    if images.len() == 0 {
        st
    } else {
        push_view(
            image_blocks(st, images.drop_last(), indent, line),
            KindView::Image(images.last().0, images.last().1, Some(unavailable_image_message())),
            indent,
            0,
            line,
        )
    }
}

/// A paragraph or heading: its prose, unless that is empty, then a block
/// for each image it names.
pub open spec fn prose_blocks(
    body: Inline,
    indent: int,
    heading: u8,
    prefix: Seq<char>,
    line: int,
    references: Seq<(Seq<char>, Seq<char>)>,
    st: BuildModel,
) -> BuildModel {
    let m = read_node(
        body,
        plain(),
        ProseModel { text: prefix, spans: seq![], links: seq![], images: seq![] },
        references,
    );
    let shown = if m.text.len() > 0 {
        push_view(st, KindView::Prose(m.text, m.spans, m.links), indent, heading, line)
    } else {
        st
    };
    image_blocks(shown, m.images, indent, line)
}

/// Adds a block unless the list is full.
fn push_block(state: &mut BlockState, kind: BlockKind, indent: usize, heading: u8, line: usize)
    requires
        old(state).wf(),
    ensures
        final(state).wf(),
        final(state)@ == push_view(old(state)@, kind_view(kind), indent as int, heading, line as int),
{
    if state.blocks.len() < MAX_BLOCKS {
        let ghost before = block_views(state.blocks@);
        let b = Block {
            kind,
            indent: if indent > MAX_INDENT {
                MAX_INDENT
            } else {
                indent
            },
            heading,
            line,
        };
        state.blocks.push(b);
        proof {
            assert(block_views(state.blocks@) =~= before.push(block_view(b)));
        }
    }
}

/// Builds the blocks of a paragraph or heading.
fn build_prose(
    body: &Inline,
    indent: usize,
    heading: u8,
    prefix: &str,
    line: usize,
    references: &Vec<(String, String)>,
    state: &mut BlockState,
)
    requires
        old(state).wf(),
    ensures
        final(state).wf(),
        final(state)@ == prose_blocks(
            *body,
            indent as int,
            heading,
            prefix@,
            line as int,
            pairs_view(references@),
            old(state)@,
        ),
{
    let (prose, images) = prose_of(body, prefix, references);
    let ghost m = read_node(
        *body,
        plain(),
        ProseModel { text: prefix@, spans: seq![], links: seq![], images: seq![] },
        pairs_view(references@),
    );
    proof {
        assert(m.images == pairs_view(images@));
    }
    if !prose.text.as_str().is_empty() {
        push_block(state, BlockKind::Prose(prose), indent, heading, line);
    }
    let ghost shown = state@;
    let n = images.len();
    let mut i: usize = 0;
    proof {
        assert(m.images.take(0) =~= Seq::<(Seq<char>, Seq<char>)>::empty());
    }
    while i < n
        invariant
            i <= n,
            n == images@.len(),
            m.images == pairs_view(images@),
            state.wf(),
            state@ == image_blocks(shown, m.images.take(i as int), indent as int, line as int),
        decreases n - i,
    {
        proof {
            assert(m.images.take(i + 1).drop_last() =~= m.images.take(i as int));
            assert(m.images.take(i + 1).last() == m.images[i as int]);
        }
        let destination = images[i].0.clone();
        let alt = images[i].1.clone();
        let error = "Local image is unavailable without a captured revision target. Remote resources are never loaded automatically.".to_owned();
        push_block(state, BlockKind::Image { destination, alt, error: Some(error) }, indent, 0, line);
        i = i + 1;
    }
    proof {
        assert(m.images.take(n as int) =~= m.images);
    }
}

/// A line without the carriage return that ended it, if one did.
pub open spec fn strip_cr(line: Seq<char>) -> Seq<char> {
    if line.len() > 0 && line.last() == '\r' {
        line.drop_last()
    } else {
        line
    }
}

/// The finished lines of `s` and the line still open at its end.
pub open spec fn line_fold(s: Seq<char>) -> (Seq<Seq<char>>, Seq<char>)
    decreases s.len(),
{
    if s.len() == 0 {
        (seq![], seq![])
    } else {
        let (done, cur) = line_fold(s.drop_last());
        if s.last() == '\n' {
            (done.push(strip_cr(cur)), seq![])
        } else {
            (done, cur.push(s.last()))
        }
    }
}

/// `str::lines`: the text cut at each `\n`, a `\r` before it dropped; a
/// last line ending is optional, so it adds no empty line.
pub open spec fn text_lines(s: Seq<char>) -> Seq<Seq<char>> {
    let (done, cur) = line_fold(s);
    if cur.len() > 0 {
        done.push(cur)
    } else {
        done
    }
}

/// Lines joined by `\n`.
pub open spec fn joined(lines: Seq<Seq<char>>) -> Seq<char>
    decreases lines.len(),
{
    if lines.len() == 0 {
        seq![]
    } else if lines.len() == 1 {
        lines[0]
    } else {
        joined(lines.drop_last()) + seq!['\n'] + lines.last()
    }
}

/// Where the chunk of code that starts at line `j` of `n` ends.
pub open spec fn chunk_end(n: int, j: int) -> int {
    if n - j > CODE_CHUNK_LINES {
        j + CODE_CHUNK_LINES
    } else {
        n
    }
}

/// The code blocks from line `j` on, forty lines to a block, each at the
/// source line where it starts.
pub open spec fn code_chunks(
    st: BuildModel,
    lang: Seq<char>,
    lines: Seq<Seq<char>>,
    indent: int,
    line: int,
    j: int,
) -> BuildModel
    decreases lines.len() - j,
{
    if j < 0 || j >= lines.len() {
        st
    } else {
        let end = chunk_end(lines.len() as int, j);
        code_chunks(
            push_view(
                st,
                KindView::Code(lang, bounded_block_text(joined(lines.subrange(j, end)))),
                indent,
                0,
                line + j,
            ),
            lang,
            lines,
            indent,
            line,
            end,
        )
    }
}

/// A code block: Mermaid code first asks for a diagram, or says that the
/// diagrams are used up; then the code itself, in chunks.
pub open spec fn code_blocks(lang: Seq<char>, value: Seq<char>, indent: int, line: int, st: BuildModel) -> BuildModel {
    let asked = if spells_lower(lang, "mermaid"@) {
        if st.diagrams < MAX_DIAGRAMS {
            push_view(
                BuildModel { diagrams: st.diagrams + 1, ..st },
                KindView::Diagram(value),
                indent,
                0,
                line,
            )
        } else {
            push_view(st, KindView::Notice(mermaid_limit_message()), indent, 0, line)
        }
    } else {
        st
    };
    code_chunks(asked, lang, text_lines(value), indent, line, 0)
}

pub open spec fn lines_view(v: Seq<Vec<char>>) -> Seq<Seq<char>> {
    v.map_values(|l: Vec<char>| l@)
}

proof fn lemma_line_fold_len(s: Seq<char>)
    ensures
        line_fold(s).0.len() + line_fold(s).1.len() <= s.len(),
    decreases s.len(),
{
    if s.len() > 0 {
        lemma_line_fold_len(s.drop_last());
    }
}

/// The lines of `s`, as `str::lines` gives them.
fn text_lines_of(s: &str) -> (r: Vec<Vec<char>>)
    ensures
        lines_view(r@) == text_lines(s@),
        r@.len() <= s@.len(),
{
    let chars = chars_of(s);
    let n = chars.len();
    let mut done: Vec<Vec<char>> = Vec::new();
    let mut cur: Vec<char> = Vec::new();
    let mut i: usize = 0;
    proof {
        assert(chars@.take(0) =~= Seq::<char>::empty());
        assert(lines_view(done@) =~= Seq::<Seq<char>>::empty());
    }
    while i < n
        invariant
            i <= n,
            n == chars@.len(),
            chars@ == s@,
            (lines_view(done@), cur@) == line_fold(chars@.take(i as int)),
        decreases n - i,
    {
        proof {
            assert(chars@.take(i + 1).drop_last() =~= chars@.take(i as int));
            assert(chars@.take(i + 1).last() == chars@[i as int]);
        }
        let c = chars[i];
        if c == '\n' {
            let ghost open = cur@;
            if cur.len() > 0 && cur[cur.len() - 1] == '\r' {
                cur.pop();
            }
            proof {
                assert(cur@ =~= strip_cr(open));
            }
            let ghost before = lines_view(done@);
            done.push(cur);
            cur = Vec::new();
            proof {
                assert(lines_view(done@) =~= before.push(strip_cr(open)));
            }
        } else {
            cur.push(c);
        }
        i = i + 1;
    }
    proof {
        assert(chars@.take(n as int) =~= chars@);
        lemma_line_fold_len(s@);
    }
    if cur.len() > 0 {
        let ghost before = lines_view(done@);
        done.push(cur);
        proof {
            assert(lines_view(done@) =~= before.push(line_fold(s@).1));
        }
    }
    done
}

/// Lines `j` to `end` of `lines`, joined by `\n`.
fn join_lines(lines: &Vec<Vec<char>>, j: usize, end: usize) -> (r: String)
    requires
        j < end <= lines@.len(),
    ensures
        r@ == joined(lines_view(lines@).subrange(j as int, end as int)),
{
    let ghost all = lines_view(lines@);
    let mut r = String::new();
    let mut k: usize = j;
    proof {
        assert(all.subrange(j as int, j as int) =~= Seq::<Seq<char>>::empty());
    }
    while k < end
        invariant
            j <= k <= end,
            end <= lines@.len(),
            all == lines_view(lines@),
            r@ == joined(all.subrange(j as int, k as int)),
        decreases end - k,
    {
        let ghost start = r@;
        if k > j {
            push_char(&mut r, '\n');
        }
        let ghost base = r@;
        let line = &lines[k];
        let mut c: usize = 0;
        while c < line.len()
            invariant
                c <= line@.len(),
                r@ == base + line@.take(c as int),
            decreases line@.len() - c,
        {
            push_char(&mut r, line[c]);
            proof {
                assert(line@.take(c + 1) =~= line@.take(c as int).push(line@[c as int]));
            }
            c = c + 1;
        }
        proof {
            assert(line@.take(line@.len() as int) =~= line@);
            let next = all.subrange(j as int, k + 1);
            assert(next.drop_last() =~= all.subrange(j as int, k as int));
            assert(next.last() == line@);
            if k == j {
                assert(next.len() == 1);
                assert(start =~= Seq::<char>::empty());
                assert(r@ =~= next[0]);
            } else {
                assert(r@ =~= joined(next.drop_last()) + seq!['\n'] + next.last());
            }
        }
        k = k + 1;
    }
    r
}

/// Builds the blocks of a code node.
fn build_code(lang: &String, value: &String, indent: usize, line: usize, state: &mut BlockState)
    requires
        old(state).wf(),
        line + value@.len() <= usize::MAX,
    ensures
        final(state).wf(),
        final(state)@ == code_blocks(lang@, value@, indent as int, line as int, old(state)@),
{
    let lang_chars = chars_of(lang.as_str());
    if spells_word_lower(&lang_chars, "mermaid") {
        if state.diagrams < MAX_DIAGRAMS {
            state.diagrams = state.diagrams + 1;
            push_block(state, BlockKind::Diagram(value.clone()), indent, 0, line);
        } else {
            let message = "Mermaid rendering is limited to four diagrams per side; this block is shown as source.".to_owned();
            push_block(state, BlockKind::Notice(message), indent, 0, line);
        }
    }
    let lines = text_lines_of(value.as_str());
    let ghost all = lines_view(lines@);
    let ghost target = code_blocks(lang@, value@, indent as int, line as int, old(state)@);
    let n = lines.len();
    let mut j: usize = 0;
    while j < n
        invariant
            j <= n,
            n == lines@.len(),
            n <= value@.len(),
            line + value@.len() <= usize::MAX,
            all == lines_view(lines@),
            all == text_lines(value@),
            state.wf(),
            code_chunks(state@, lang@, all, indent as int, line as int, j as int) == target,
        decreases n - j,
    {
        let end = if n - j > CODE_CHUNK_LINES {
            j + CODE_CHUNK_LINES
        } else {
            n
        };
        let chunk = join_lines(&lines, j, end);
        let shown = bounded_block(chunk.as_str());
        push_block(state, BlockKind::Code(lang.clone(), shown), indent, 0, line + j);
        j = end;
    }
}

pub open spec fn rows_view(rows: Seq<Vec<String>>) -> Seq<Seq<Seq<char>>> {
    rows.map_values(|r: Vec<String>| strings_view(r@))
}

/// The cells of a row that are shown: the first twelve, each bounded.
pub open spec fn shown_cells(cells: Seq<Seq<char>>) -> Seq<Seq<char>> {
    let shown = if cells.len() > MAX_TABLE_COLUMNS {
        MAX_TABLE_COLUMNS as int
    } else {
        cells.len() as int
    };
    cells.take(shown).map_values(|c: Seq<char>| bounded_block_text(c))
}

/// A block for each row, the first marked as the header, each followed by
/// a notice when it has more than twelve cells.
pub open spec fn table_blocks(st: BuildModel, rows: Seq<Seq<Seq<char>>>, indent: int, line: int) -> BuildModel
    decreases rows.len(),
{
    if rows.len() == 0 {
        st
    } else {
        let i = rows.len() - 1;
        let cells = rows.last();
        let shown = push_view(
            table_blocks(st, rows.drop_last(), indent, line),
            KindView::Table(shown_cells(cells), i == 0),
            indent,
            0,
            line + i,
        );
        if cells.len() > MAX_TABLE_COLUMNS {
            push_view(shown, KindView::Notice(columns_message()), indent, 0, line + i)
        } else {
            shown
        }
    }
}

/// Builds the blocks of a table.
fn build_table(rows: &Vec<Vec<String>>, indent: usize, line: usize, state: &mut BlockState)
    requires
        old(state).wf(),
        line + rows@.len() <= usize::MAX,
    ensures
        final(state).wf(),
        final(state)@ == table_blocks(old(state)@, rows_view(rows@), indent as int, line as int),
{
    let ghost all = rows_view(rows@);
    let ghost start = state@;
    let n = rows.len();
    let mut i: usize = 0;
    proof {
        assert(all.take(0) =~= Seq::<Seq<Seq<char>>>::empty());
    }
    while i < n
        invariant
            i <= n,
            n == rows@.len(),
            line + n <= usize::MAX,
            all == rows_view(rows@),
            state.wf(),
            state@ == table_blocks(start, all.take(i as int), indent as int, line as int),
        decreases n - i,
    {
        proof {
            assert(all.take(i + 1).drop_last() =~= all.take(i as int));
            assert(all.take(i + 1).last() == all[i as int]);
        }
        let row = &rows[i];
        let ghost cells = all[i as int];
        let shown = if row.len() > MAX_TABLE_COLUMNS {
            MAX_TABLE_COLUMNS
        } else {
            row.len()
        };
        let mut out: Vec<String> = Vec::new();
        let mut c: usize = 0;
        while c < shown
            invariant
                c <= shown,
                shown <= row@.len(),
                cells == strings_view(row@),
                strings_view(out@) == cells.take(c as int).map_values(
                    |t: Seq<char>| bounded_block_text(t),
                ),
            decreases shown - c,
        {
            let ghost before = strings_view(out@);
            out.push(bounded_block(row[c].as_str()));
            proof {
                assert(strings_view(out@) =~= before.push(bounded_block_text(cells[c as int])));
                assert(cells.take(c + 1).map_values(|t: Seq<char>| bounded_block_text(t))
                    =~= before.push(bounded_block_text(cells[c as int])));
            }
            c = c + 1;
        }
        proof {
            assert(strings_view(out@) == shown_cells(cells));
        }
        push_block(state, BlockKind::Table(out, i == 0), indent, 0, line + i);
        if row.len() > MAX_TABLE_COLUMNS {
            let message = "Table columns beyond twelve are available in Source.".to_owned();
            push_block(state, BlockKind::Notice(message), indent, 0, line + i);
        }
        i = i + 1;
    }
    proof {
        assert(all.take(n as int) =~= all);
    }
}

pub open spec fn digit_char(d: int) -> char {
    if d == 0 {
        '0'
    } else if d == 1 {
        '1'
    } else if d == 2 {
        '2'
    } else if d == 3 {
        '3'
    } else if d == 4 {
        '4'
    } else if d == 5 {
        '5'
    } else if d == 6 {
        '6'
    } else if d == 7 {
        '7'
    } else if d == 8 {
        '8'
    } else {
        '9'
    }
}

/// The decimal digits of `n`.
pub open spec fn decimal(n: nat) -> Seq<char>
    decreases n,
{
    if n < 10 {
        seq![digit_char(n as int)]
    } else {
        decimal(n / 10).push(digit_char((n % 10) as int))
    }
}

/// Appends the decimal digits of `n`.
pub(crate) fn push_decimal(s: &mut String, n: usize)
    ensures
        final(s)@ == old(s)@ + decimal(n as nat),
    decreases n,
{
    if n >= 10 {
        push_decimal(s, n / 10);
    }
    let d = n % 10;
    let c = if d == 0 {
        '0'
    } else if d == 1 {
        '1'
    } else if d == 2 {
        '2'
    } else if d == 3 {
        '3'
    } else if d == 4 {
        '4'
    } else if d == 5 {
        '5'
    } else if d == 6 {
        '6'
    } else if d == 7 {
        '7'
    } else if d == 8 {
        '8'
    } else {
        '9'
    };
    let ghost before = s@;
    push_char(s, c);
    proof {
        if n < 10 {
            assert(decimal(n as nat) == seq![digit_char(n as int)]);
        }
    }
}

/// The number of the list's first item: its start, or one.
pub open spec fn first_number(start: Option<u32>) -> int {
    match start {
        Some(s) => s as int,
        None => 1,
    }
}

/// The marker before item `index` of a list: a task box, the item's number
/// or a bullet.
pub open spec fn marker(checked: Option<bool>, ordered: bool, start: Option<u32>, index: int) -> Seq<char> {
    match checked {
        Some(true) => "\u{2611} "@,
        Some(false) => "\u{2610} "@,
        None => if ordered {
            decimal((first_number(start) + index) as nat) + ". "@
        } else {
            "\u{2022} "@
        },
    }
}

/// A finished task is marked with a checked box and an open one with an
/// empty box, so the two never look alike; an unordered item without a task
/// box shows a bullet, and a numbered item ends its number with a dot.
pub proof fn law_list_markers(ordered: bool, start: Option<u32>, index: int)
    ensures
        marker(Some(true), ordered, start, index) == seq!['\u{2611}', ' '],
        marker(Some(false), ordered, start, index) == seq!['\u{2610}', ' '],
        marker(Some(true), ordered, start, index) != marker(Some(false), ordered, start, index),
        marker(None, false, start, index) == seq!['\u{2022}', ' '],
        ordered ==> {
            let m = marker(None, true, start, index);
            m.len() >= 3 && m[m.len() - 2] == '.' && m[m.len() - 1] == ' '
        },
{
    reveal_strlit("\u{2611} ");
    reveal_strlit("\u{2610} ");
    reveal_strlit("\u{2022} ");
    reveal_strlit(". ");
    assert(marker(Some(true), ordered, start, index)[0] != marker(Some(false), ordered, start, index)[0]);
    if ordered {
        lemma_decimal_nonempty((first_number(start) + index) as nat);
    }
}

proof fn lemma_decimal_nonempty(n: nat)
    ensures
        decimal(n).len() >= 1,
    decreases n,
{
    if n >= 10 {
        lemma_decimal_nonempty(n / 10);
    }
}

/// The marker before item `index` of a list.
fn item_marker(checked: Option<bool>, ordered: bool, start: Option<u32>, index: usize) -> (r: String)
    requires
        first_number(start) + index <= usize::MAX,
    ensures
        r@ == marker(checked, ordered, start, index as int),
{
    match checked {
        Some(true) => "\u{2611} ".to_owned(),
        Some(false) => "\u{2610} ".to_owned(),
        None => if ordered {
            let first: usize = match start {
                Some(s) => s as usize,
                None => 1,
            };
            let mut r = String::new();
            push_decimal(&mut r, first + index);
            push_text(&mut r, ". ");
            r
        } else {
            "\u{2022} ".to_owned()
        },
    }
}

/// The notice for a node shown only as source: its source text, bounded,
/// or a pointer to the source when the parser kept none.
pub open spec fn construct_notice(source: Option<Seq<char>>) -> Seq<char> {
    "Source construct: "@ + bounded_block_text(
        match source {
            Some(s) => s,
            None => "Use Source to inspect this construct"@,
        },
    )
}

/// The line numbers a node gives its blocks fit in `usize`, and so do the
/// numbers of its list items.
pub open spec fn lines_fit(node: BlockNode) -> bool
    decreases node, 0nat,
{
    match node {
        BlockNode::Root(c) => all_fit(c@),
        BlockNode::Blockquote(c) => all_fit(c@),
        BlockNode::List { start, items, .. } => first_number(start) + items@.len() <= usize::MAX
            && items_fit(items@),
        BlockNode::Code { value, line, .. } => line + value@.len() <= usize::MAX,
        BlockNode::Table { rows, line } => line + rows@.len() <= usize::MAX,
        _ => true,
    }
}

pub open spec fn all_fit(nodes: Seq<BlockNode>) -> bool
    decreases nodes, 1nat,
{
    if nodes.len() == 0 {
        true
    } else {
        all_fit(nodes.drop_last()) && lines_fit(nodes.last())
    }
}

pub open spec fn items_fit(items: Seq<ListItem>) -> bool
    decreases items, 1nat,
{
    if items.len() == 0 {
        true
    } else {
        items_fit(items.drop_last()) && all_fit(items.last().children@)
    }
}

/// The blocks of `node`, added to `st`: nothing once the list is full;
/// the children of the root in order; prose for a paragraph or heading,
/// after `prefix`; the children of a quote one step in, each after a quote
/// bar; the items of a list one step in, the first block of each after its
/// marker; code, tables, rules, HTML shown as code, and a notice for
/// anything else. Definitions add nothing.
pub open spec fn built(
    node: BlockNode,
    indent: int,
    prefix: Seq<char>,
    references: Seq<(Seq<char>, Seq<char>)>,
    st: BuildModel,
) -> BuildModel
    decreases node, 0nat,
{
    if st.blocks.len() >= MAX_BLOCKS {
        st
    } else {
        match node {
            BlockNode::Root(children) => built_all(children@, indent, ""@, ""@, references, st),
            BlockNode::Heading { depth, body, line } => prose_blocks(
                body,
                indent,
                depth,
                prefix,
                line as int,
                references,
                st,
            ),
            BlockNode::Paragraph { body, line } => prose_blocks(
                body,
                indent,
                0,
                prefix,
                line as int,
                references,
                st,
            ),
            BlockNode::Blockquote(children) => built_all(
                children@,
                deeper(indent),
                quote_bar(),
                quote_bar(),
                references,
                st,
            ),
            BlockNode::List { ordered, start, items, .. } => built_items(
                items@,
                ordered,
                start,
                deeper(indent),
                references,
                st,
            ),
            BlockNode::Code { lang, value, line } => code_blocks(lang@, value@, indent, line as int, st),
            BlockNode::Table { rows, line } => table_blocks(st, rows_view(rows@), indent, line as int),
            BlockNode::ThematicBreak { line } => push_view(st, KindView::Rule, indent, 0, line as int),
            BlockNode::Definition { .. } => st,
            BlockNode::Html { value, line } => push_view(
                st,
                KindView::Code(html_language(), bounded_block_text(value@)),
                indent,
                0,
                line as int,
            ),
            BlockNode::Other { source, line } => push_view(
                st,
                KindView::Notice(construct_notice(option_view(source))),
                indent,
                0,
                line as int,
            ),
        }
    }
}

/// The blocks of `nodes` in order, the first after `first`, the others
/// after `rest`.
pub open spec fn built_all(
    nodes: Seq<BlockNode>,
    indent: int,
    first: Seq<char>,
    rest: Seq<char>,
    references: Seq<(Seq<char>, Seq<char>)>,
    st: BuildModel,
) -> BuildModel
    decreases nodes, 1nat,
{
    if nodes.len() == 0 {
        st
    } else {
        built(
            nodes.last(),
            indent,
            if nodes.len() == 1 {
                first
            } else {
                rest
            },
            references,
            built_all(nodes.drop_last(), indent, first, rest, references, st),
        )
    }
}

/// The blocks of the items of a list in order, each item's first block
/// after its marker.
pub open spec fn built_items(
    items: Seq<ListItem>,
    ordered: bool,
    start: Option<u32>,
    indent: int,
    references: Seq<(Seq<char>, Seq<char>)>,
    st: BuildModel,
) -> BuildModel
    decreases items, 1nat,
{
    if items.len() == 0 {
        st
    } else {
        built_all(
            items.last().children@,
            indent,
            marker(items.last().checked, ordered, start, items.len() - 1),
            ""@,
            references,
            built_items(items.drop_last(), ordered, start, indent, references, st),
        )
    }
}

proof fn lemma_all_fit(nodes: Seq<BlockNode>, i: int)
    requires
        all_fit(nodes),
        0 <= i < nodes.len(),
    ensures
        lines_fit(nodes[i]),
    decreases nodes.len(),
{
    if i < nodes.len() - 1 {
        lemma_all_fit(nodes.drop_last(), i);
    }
}

proof fn lemma_items_fit(items: Seq<ListItem>, i: int)
    requires
        items_fit(items),
        0 <= i < items.len(),
    ensures
        all_fit(items[i].children@),
    decreases items.len(),
{
    if i < items.len() - 1 {
        lemma_items_fit(items.drop_last(), i);
    }
}

/// The indent one step in, never past the deepest.
fn deeper_indent(indent: usize) -> (r: usize)
    ensures
        r as int == deeper(indent as int),
{
    if indent >= MAX_INDENT {
        MAX_INDENT
    } else {
        indent + 1
    }
}

/// Adds the blocks of `node`, drawn `indent` steps in, its first prose
/// after `prefix`; references resolve through the document's definitions.
pub fn build_blocks(
    node: &BlockNode,
    indent: usize,
    prefix: &str,
    references: &Vec<(String, String)>,
    state: &mut BlockState,
)
    requires
        old(state).wf(),
        lines_fit(*node),
    ensures
        final(state).wf(),
        final(state)@ == built(*node, indent as int, prefix@, pairs_view(references@), old(state)@),
    decreases node,
{
    if state.blocks.len() >= MAX_BLOCKS {
        return;
    }
    match node {
        BlockNode::Root(children) => build_all(children, indent, "", "", references, state),
        BlockNode::Heading { depth, body, line } => build_prose(
            body,
            indent,
            *depth,
            prefix,
            *line,
            references,
            state,
        ),
        BlockNode::Paragraph { body, line } => build_prose(body, indent, 0, prefix, *line, references, state),
        BlockNode::Blockquote(children) => {
            let inner = deeper_indent(indent);
            build_all(children, inner, "\u{258e} ", "\u{258e} ", references, state)
        },
        BlockNode::List { ordered, start, items, .. } => {
            let inner = deeper_indent(indent);
            build_items(items, *ordered, *start, inner, references, state)
        },
        BlockNode::Code { lang, value, line } => build_code(lang, value, indent, *line, state),
        BlockNode::Table { rows, line } => build_table(rows, indent, *line, state),
        BlockNode::ThematicBreak { line } => push_block(state, BlockKind::Rule, indent, 0, *line),
        BlockNode::Definition { .. } => {},
        BlockNode::Html { value, line } => {
            let language = "HTML shown literally".to_owned();
            let shown = bounded_block(value.as_str());
            push_block(state, BlockKind::Code(language, shown), indent, 0, *line);
        },
        BlockNode::Other { source, line } => {
            let mut message = "Source construct: ".to_owned();
            let shown = match source {
                Some(s) => bounded_block(s.as_str()),
                None => bounded_block("Use Source to inspect this construct"),
            };
            push_text(&mut message, shown.as_str());
            push_block(state, BlockKind::Notice(message), indent, 0, *line);
        },
    }
}

/// Adds the blocks of `nodes` in order, the first after `first`, the
/// others after `rest`.
fn build_all(
    nodes: &Vec<BlockNode>,
    indent: usize,
    first: &str,
    rest: &str,
    references: &Vec<(String, String)>,
    state: &mut BlockState,
)
    requires
        old(state).wf(),
        all_fit(nodes@),
    ensures
        final(state).wf(),
        final(state)@ == built_all(
            nodes@,
            indent as int,
            first@,
            rest@,
            pairs_view(references@),
            old(state)@,
        ),
    decreases nodes,
{
    let ghost start = state@;
    let n = nodes.len();
    let mut i: usize = 0;
    proof {
        assert(nodes@.take(0) =~= Seq::<BlockNode>::empty());
    }
    while i < n
        invariant
            i <= n,
            n == nodes@.len(),
            all_fit(nodes@),
            state.wf(),
            state@ == built_all(
                nodes@.take(i as int),
                indent as int,
                first@,
                rest@,
                pairs_view(references@),
                start,
            ),
        decreases n - i,
    {
        proof {
            assert(nodes@.take(i + 1).drop_last() =~= nodes@.take(i as int));
            assert(nodes@.take(i + 1).last() == nodes@[i as int]);
            lemma_all_fit(nodes@, i as int);
        }
        let prefix = if i == 0 {
            first
        } else {
            rest
        };
        build_blocks(&nodes[i], indent, prefix, references, state);
        i = i + 1;
    }
    proof {
        assert(nodes@.take(n as int) =~= nodes@);
    }
}

/// Adds the blocks of the items of a list in order.
fn build_items(
    items: &Vec<ListItem>,
    ordered: bool,
    start: Option<u32>,
    indent: usize,
    references: &Vec<(String, String)>,
    state: &mut BlockState,
)
    requires
        old(state).wf(),
        items_fit(items@),
        first_number(start) + items@.len() <= usize::MAX,
    ensures
        final(state).wf(),
        final(state)@ == built_items(
            items@,
            ordered,
            start,
            indent as int,
            pairs_view(references@),
            old(state)@,
        ),
    decreases items,
{
    let ghost begin = state@;
    let n = items.len();
    let mut i: usize = 0;
    proof {
        assert(items@.take(0) =~= Seq::<ListItem>::empty());
    }
    while i < n
        invariant
            i <= n,
            n == items@.len(),
            items_fit(items@),
            first_number(start) + n <= usize::MAX,
            state.wf(),
            state@ == built_items(
                items@.take(i as int),
                ordered,
                start,
                indent as int,
                pairs_view(references@),
                begin,
            ),
        decreases n - i,
    {
        proof {
            assert(items@.take(i + 1).drop_last() =~= items@.take(i as int));
            assert(items@.take(i + 1).last() == items@[i as int]);
            lemma_items_fit(items@, i as int);
        }
        let mark = item_marker(items[i].checked, ordered, start, i);
        build_all(&items[i].children, indent, mark.as_str(), "", references, state);
        i = i + 1;
    }
    proof {
        assert(items@.take(n as int) =~= items@);
    }
}

/// The finished list: when the blocks reached the bound, the last one
/// gives way to a notice that the list is cut short.
pub open spec fn finished(blocks: Seq<BlockView>) -> Seq<BlockView> {
    if blocks.len() >= MAX_BLOCKS {
        blocks.take(MAX_BLOCKS - 1).push(
            BlockView { kind: KindView::Notice(block_limit_message()), indent: 0, heading: 0, line: 1 },
        )
    } else {
        blocks
    }
}

/// The blocks of a whole document, parsed into `root`, with the
/// definitions that references resolve through.
pub fn document_blocks(root: &BlockNode, references: &Vec<(String, String)>) -> (r: Vec<Block>)
    requires
        lines_fit(*root),
    ensures
        block_views(r@) == finished(
            built(
                *root,
                0,
                ""@,
                pairs_view(references@),
                BuildModel { blocks: seq![], diagrams: 0 },
            ).blocks,
        ),
        r@.len() <= MAX_BLOCKS,
{
    let mut state = BlockState::new();
    proof {
        assert(state@.blocks =~= Seq::<BlockView>::empty());
    }
    build_blocks(root, 0, "", references, &mut state);
    let mut blocks = state.blocks;
    if blocks.len() >= MAX_BLOCKS {
        let ghost all = block_views(blocks@);
        blocks.truncate(MAX_BLOCKS - 1);
        let notice = Block {
            kind: BlockKind::Notice(
                "Rendered block limit reached (2,048). Source contains the complete document.".to_owned(),
            ),
            indent: 0,
            heading: 0,
            line: 1,
        };
        proof {
            assert(block_views(blocks@) =~= all.take(MAX_BLOCKS - 1));
        }
        let ghost cut = block_views(blocks@);
        blocks.push(notice);
        proof {
            assert(block_views(blocks@) =~= cut.push(block_view(notice)));
        }
    }
    blocks
}

/// The definitions of a document, keyed by lowercase identifier. A
/// reference resolves through the first definition of its key, so the
/// order in which definitions are listed decides which one wins.
pub fn reference_table(definitions: &Vec<(String, String)>) -> (r: Vec<(String, String)>)
    ensures
        r@.len() == definitions@.len(),
        forall|i: int|
            0 <= i < r@.len() ==> (#[trigger] r@[i]).0@ == lowercase(definitions@[i].0@) && r@[i].1@
                == definitions@[i].1@,
{
    let mut r: Vec<(String, String)> = Vec::new();
    let n = definitions.len();
    let mut i: usize = 0;
    while i < n
        invariant
            i <= n,
            n == definitions@.len(),
            r@.len() == i,
            forall|k: int|
                0 <= k < i ==> (#[trigger] r@[k]).0@ == lowercase(definitions@[k].0@) && r@[k].1@
                    == definitions@[k].1@,
        decreases n - i,
    {
        let key = to_lowercase(definitions[i].0.as_str());
        let url = definitions[i].1.clone();
        r.push((key, url));
        i = i + 1;
    }
    r
}

/// The largest source that is rendered, in bytes.
pub const MAX_SOURCE: usize = 262_144;

pub open spec fn absent_message() -> Seq<char> {
    "No file on this side"@
}

pub open spec fn large_source_message() -> Seq<char> {
    "Rendered Markdown supports documents up to 256 KiB. Exact source and diff remain available."@
}

/// A side is not rendered when it has no file, or when its source is over
/// the bound; it then shows one notice that says why.
pub open spec fn gate_notice(present: bool, source_bytes: int) -> Option<Seq<char>> {
    if !present {
        Some(absent_message())
    } else if source_bytes > MAX_SOURCE {
        Some(large_source_message())
    } else {
        None
    }
}

/// The blocks of a side that is not rendered, or `None` when its source is
/// to be parsed and rendered.
pub fn document_gate(present: bool, source_bytes: usize) -> (r: Option<Vec<Block>>)
    ensures
        match gate_notice(present, source_bytes as int) {
            None => r is None,
            Some(m) => r matches Some(blocks) && block_views(blocks@) == seq![
                BlockView { kind: KindView::Notice(m), indent: 0, heading: 0, line: 1 },
            ],
        },
{
    let message = if !present {
        "No file on this side".to_owned()
    } else if source_bytes > MAX_SOURCE {
        "Rendered Markdown supports documents up to 256 KiB. Exact source and diff remain available.".to_owned()
    } else {
        return None;
    };
    let notice = Block { kind: BlockKind::Notice(message), indent: 0, heading: 0, line: 1 };
    let mut blocks: Vec<Block> = Vec::new();
    blocks.push(notice);
    proof {
        assert(block_views(blocks@) =~= seq![block_view(notice)]);
    }
    Some(blocks)
}

/// The definitions of a node in the order a search of the document meets
/// them: the node itself, then its children from the last to the first.
pub open spec fn definitions_of(node: BlockNode) -> Seq<(Seq<char>, Seq<char>)>
    decreases node, 0nat,
{
    match node {
        BlockNode::Definition { identifier, url } => seq![(identifier@, url@)],
        BlockNode::Root(c) => definitions_in(c@),
        BlockNode::Blockquote(c) => definitions_in(c@),
        BlockNode::List { items, .. } => definitions_in_items(items@),
        _ => seq![],
    }
}

/// The definitions of `nodes`, the last node's first.
pub open spec fn definitions_in(nodes: Seq<BlockNode>) -> Seq<(Seq<char>, Seq<char>)>
    decreases nodes, 1nat,
{
    if nodes.len() == 0 {
        seq![]
    } else {
        definitions_of(nodes.last()) + definitions_in(nodes.drop_last())
    }
}

/// The definitions of the items of a list, the last item's first.
pub open spec fn definitions_in_items(items: Seq<ListItem>) -> Seq<(Seq<char>, Seq<char>)>
    decreases items, 1nat,
{
    if items.len() == 0 {
        seq![]
    } else {
        definitions_in(items.last().children@) + definitions_in_items(items.drop_last())
    }
}

/// Appends the definitions of `node` in search order.
fn collect_definitions(node: &BlockNode, acc: &mut Vec<(String, String)>)
    ensures
        pairs_view(final(acc)@) == pairs_view(old(acc)@) + definitions_of(*node),
    decreases node,
{
    match node {
        BlockNode::Definition { identifier, url } => {
            let ghost before = pairs_view(acc@);
            acc.push((identifier.clone(), url.clone()));
            proof {
                assert(pairs_view(acc@) =~= before + seq![(identifier@, url@)]);
            }
        },
        BlockNode::Root(c) => collect_in(c, acc),
        BlockNode::Blockquote(c) => collect_in(c, acc),
        BlockNode::List { items, .. } => collect_in_items(items, acc),
        _ => {
            proof {
                assert(pairs_view(acc@) =~= pairs_view(acc@) + definitions_of(*node));
            }
        },
    }
}

fn collect_in(nodes: &Vec<BlockNode>, acc: &mut Vec<(String, String)>)
    ensures
        pairs_view(final(acc)@) == pairs_view(old(acc)@) + definitions_in(nodes@),
    decreases nodes,
{
    let ghost start = pairs_view(acc@);
    let mut m: usize = nodes.len();
    proof {
        assert(nodes@.take(m as int) =~= nodes@);
        assert(start + definitions_in(nodes@) =~= pairs_view(acc@) + definitions_in(nodes@.take(m as int)));
    }
    while m > 0
        invariant
            m <= nodes@.len(),
            pairs_view(acc@) + definitions_in(nodes@.take(m as int)) == start + definitions_in(nodes@),
        decreases m,
    {
        let ghost before = pairs_view(acc@);
        proof {
            assert(nodes@.take(m as int).drop_last() =~= nodes@.take(m - 1));
            assert(nodes@.take(m as int).last() == nodes@[m - 1]);
        }
        collect_definitions(&nodes[m - 1], acc);
        proof {
            assert(pairs_view(acc@) + definitions_in(nodes@.take(m - 1)) =~= before + definitions_in(
                nodes@.take(m as int),
            ));
        }
        m = m - 1;
    }
    proof {
        assert(nodes@.take(0) =~= Seq::<BlockNode>::empty());
        assert(pairs_view(acc@) + definitions_in(nodes@.take(0)) =~= pairs_view(acc@));
    }
}

fn collect_in_items(items: &Vec<ListItem>, acc: &mut Vec<(String, String)>)
    ensures
        pairs_view(final(acc)@) == pairs_view(old(acc)@) + definitions_in_items(items@),
    decreases items,
{
    let ghost start = pairs_view(acc@);
    let mut m: usize = items.len();
    proof {
        assert(items@.take(m as int) =~= items@);
        assert(start + definitions_in_items(items@) =~= pairs_view(acc@) + definitions_in_items(
            items@.take(m as int),
        ));
    }
    while m > 0
        invariant
            m <= items@.len(),
            pairs_view(acc@) + definitions_in_items(items@.take(m as int)) == start
                + definitions_in_items(items@),
        decreases m,
    {
        let ghost before = pairs_view(acc@);
        proof {
            assert(items@.take(m as int).drop_last() =~= items@.take(m - 1));
            assert(items@.take(m as int).last() == items@[m - 1]);
        }
        collect_in(&items[m - 1].children, acc);
        proof {
            assert(pairs_view(acc@) + definitions_in_items(items@.take(m - 1)) =~= before
                + definitions_in_items(items@.take(m as int)));
        }
        m = m - 1;
    }
    proof {
        assert(items@.take(0) =~= Seq::<ListItem>::empty());
        assert(pairs_view(acc@) + definitions_in_items(items@.take(0)) =~= pairs_view(acc@));
    }
}

/// The definitions a document's references resolve through, keyed by
/// lowercase identifier, in the order a search of the document meets them.
/// A reference takes the first definition of its key, so of two sibling
/// definitions with one key the later wins.
pub fn document_references(root: &BlockNode) -> (r: Vec<(String, String)>)
    ensures
        r@.len() == definitions_of(*root).len(),
        forall|i: int|
            0 <= i < r@.len() ==> (#[trigger] r@[i]).0@ == lowercase(definitions_of(*root)[i].0)
                && r@[i].1@ == definitions_of(*root)[i].1,
{
    let mut found: Vec<(String, String)> = Vec::new();
    proof {
        assert(pairs_view(found@) =~= Seq::<(Seq<char>, Seq<char>)>::empty());
    }
    collect_definitions(root, &mut found);
    proof {
        assert(pairs_view(found@) =~= definitions_of(*root));
        assert forall|i: int| 0 <= i < found@.len() implies (#[trigger] found@[i]).0@ == definitions_of(
            *root,
        )[i].0 && found@[i].1@ == definitions_of(*root)[i].1 by {
            assert(pairs_view(found@)[i] == (found@[i].0@, found@[i].1@));
        }
    }
    reference_table(&found)
}

/// `after` holds the blocks of `before` first, in order.
pub open spec fn extends(after: Seq<BlockView>, before: Seq<BlockView>) -> bool {
    before.len() <= after.len() && after.take(before.len() as int) == before
}

proof fn lemma_extends_trans(a: Seq<BlockView>, b: Seq<BlockView>, c: Seq<BlockView>)
    requires
        extends(a, b),
        extends(b, c),
    ensures
        extends(a, c),
{
    assert(a.take(c.len() as int) =~= a.take(b.len() as int).take(c.len() as int));
}

proof fn lemma_push_extends(st: BuildModel, kind: KindView, indent: int, heading: u8, line: int)
    ensures
        extends(push_view(st, kind, indent, heading, line).blocks, st.blocks),
{
    let after = push_view(st, kind, indent, heading, line).blocks;
    assert(after.take(st.blocks.len() as int) =~= st.blocks);
}

proof fn lemma_image_blocks_extend(st: BuildModel, images: Seq<(Seq<char>, Seq<char>)>, indent: int, line: int)
    ensures
        extends(image_blocks(st, images, indent, line).blocks, st.blocks),
    decreases images.len(),
{
    if images.len() == 0 {
        assert(st.blocks.take(st.blocks.len() as int) =~= st.blocks);
    } else {
        let mid = image_blocks(st, images.drop_last(), indent, line);
        lemma_image_blocks_extend(st, images.drop_last(), indent, line);
        lemma_push_extends(
            mid,
            KindView::Image(images.last().0, images.last().1, Some(unavailable_image_message())),
            indent,
            0,
            line,
        );
        lemma_extends_trans(image_blocks(st, images, indent, line).blocks, mid.blocks, st.blocks);
    }
}

proof fn lemma_prose_blocks_extend(
    body: Inline,
    indent: int,
    heading: u8,
    prefix: Seq<char>,
    line: int,
    references: Seq<(Seq<char>, Seq<char>)>,
    st: BuildModel,
)
    ensures
        extends(prose_blocks(body, indent, heading, prefix, line, references, st).blocks, st.blocks),
{
    let m = read_node(
        body,
        plain(),
        ProseModel { text: prefix, spans: seq![], links: seq![], images: seq![] },
        references,
    );
    let shown = if m.text.len() > 0 {
        push_view(st, KindView::Prose(m.text, m.spans, m.links), indent, heading, line)
    } else {
        st
    };
    lemma_push_extends(st, KindView::Prose(m.text, m.spans, m.links), indent, heading, line);
    assert(st.blocks.take(st.blocks.len() as int) =~= st.blocks);
    lemma_image_blocks_extend(shown, m.images, indent, line);
    lemma_extends_trans(
        prose_blocks(body, indent, heading, prefix, line, references, st).blocks,
        shown.blocks,
        st.blocks,
    );
}

proof fn lemma_code_chunks_extend(
    st: BuildModel,
    lang: Seq<char>,
    lines: Seq<Seq<char>>,
    indent: int,
    line: int,
    j: int,
)
    ensures
        extends(code_chunks(st, lang, lines, indent, line, j).blocks, st.blocks),
    decreases lines.len() - j,
{
    if j < 0 || j >= lines.len() {
        assert(st.blocks.take(st.blocks.len() as int) =~= st.blocks);
    } else {
        let end = chunk_end(lines.len() as int, j);
        let kind = KindView::Code(lang, bounded_block_text(joined(lines.subrange(j, end))));
        let next = push_view(st, kind, indent, 0, line + j);
        lemma_push_extends(st, kind, indent, 0, line + j);
        lemma_code_chunks_extend(next, lang, lines, indent, line, end);
        lemma_extends_trans(code_chunks(st, lang, lines, indent, line, j).blocks, next.blocks, st.blocks);
    }
}

proof fn lemma_code_blocks_extend(lang: Seq<char>, value: Seq<char>, indent: int, line: int, st: BuildModel)
    ensures
        extends(code_blocks(lang, value, indent, line, st).blocks, st.blocks),
{
    let asked = if spells_lower(lang, "mermaid"@) {
        if st.diagrams < MAX_DIAGRAMS {
            push_view(
                BuildModel { diagrams: st.diagrams + 1, ..st },
                KindView::Diagram(value),
                indent,
                0,
                line,
            )
        } else {
            push_view(st, KindView::Notice(mermaid_limit_message()), indent, 0, line)
        }
    } else {
        st
    };
    lemma_push_extends(
        BuildModel { diagrams: st.diagrams + 1, ..st },
        KindView::Diagram(value),
        indent,
        0,
        line,
    );
    lemma_push_extends(st, KindView::Notice(mermaid_limit_message()), indent, 0, line);
    assert(st.blocks.take(st.blocks.len() as int) =~= st.blocks);
    lemma_code_chunks_extend(asked, lang, text_lines(value), indent, line, 0);
    lemma_extends_trans(code_blocks(lang, value, indent, line, st).blocks, asked.blocks, st.blocks);
}

proof fn lemma_table_blocks_extend(st: BuildModel, rows: Seq<Seq<Seq<char>>>, indent: int, line: int)
    ensures
        extends(table_blocks(st, rows, indent, line).blocks, st.blocks),
    decreases rows.len(),
{
    if rows.len() == 0 {
        assert(st.blocks.take(st.blocks.len() as int) =~= st.blocks);
    } else {
        let i = rows.len() - 1;
        let cells = rows.last();
        let before = table_blocks(st, rows.drop_last(), indent, line);
        lemma_table_blocks_extend(st, rows.drop_last(), indent, line);
        let kind = KindView::Table(shown_cells(cells), i == 0);
        let shown = push_view(before, kind, indent, 0, line + i);
        lemma_push_extends(before, kind, indent, 0, line + i);
        lemma_push_extends(shown, KindView::Notice(columns_message()), indent, 0, line + i);
        assert(shown.blocks.take(shown.blocks.len() as int) =~= shown.blocks);
        lemma_extends_trans(shown.blocks, before.blocks, st.blocks);
        lemma_extends_trans(table_blocks(st, rows, indent, line).blocks, shown.blocks, st.blocks);
    }
}

/// Building never changes the blocks already built; it only adds after them.
proof fn lemma_built_extends(
    node: BlockNode,
    indent: int,
    prefix: Seq<char>,
    references: Seq<(Seq<char>, Seq<char>)>,
    st: BuildModel,
)
    ensures
        extends(built(node, indent, prefix, references, st).blocks, st.blocks),
    decreases node, 0nat,
{
    assert(st.blocks.take(st.blocks.len() as int) =~= st.blocks);
    if st.blocks.len() < MAX_BLOCKS {
        match node {
            BlockNode::Root(children) => lemma_built_all_extends(children@, indent, ""@, ""@, references, st),
            BlockNode::Heading { depth, body, line } => lemma_prose_blocks_extend(
                body,
                indent,
                depth,
                prefix,
                line as int,
                references,
                st,
            ),
            BlockNode::Paragraph { body, line } => lemma_prose_blocks_extend(
                body,
                indent,
                0,
                prefix,
                line as int,
                references,
                st,
            ),
            BlockNode::Blockquote(children) => lemma_built_all_extends(
                children@,
                deeper(indent),
                quote_bar(),
                quote_bar(),
                references,
                st,
            ),
            BlockNode::List { ordered, start, items, .. } => lemma_built_items_extend(
                items@,
                ordered,
                start,
                deeper(indent),
                references,
                st,
            ),
            BlockNode::Code { lang, value, line } => lemma_code_blocks_extend(lang@, value@, indent, line as int, st),
            BlockNode::Table { rows, line } => lemma_table_blocks_extend(st, rows_view(rows@), indent, line as int),
            BlockNode::ThematicBreak { line } => lemma_push_extends(st, KindView::Rule, indent, 0, line as int),
            BlockNode::Definition { .. } => {},
            BlockNode::Html { value, line } => lemma_push_extends(
                st,
                KindView::Code(html_language(), bounded_block_text(value@)),
                indent,
                0,
                line as int,
            ),
            BlockNode::Other { source, line } => lemma_push_extends(
                st,
                KindView::Notice(construct_notice(option_view(source))),
                indent,
                0,
                line as int,
            ),
        }
    }
}

proof fn lemma_built_all_extends(
    nodes: Seq<BlockNode>,
    indent: int,
    first: Seq<char>,
    rest: Seq<char>,
    references: Seq<(Seq<char>, Seq<char>)>,
    st: BuildModel,
)
    ensures
        extends(built_all(nodes, indent, first, rest, references, st).blocks, st.blocks),
    decreases nodes, 1nat,
{
    if nodes.len() == 0 {
        assert(st.blocks.take(st.blocks.len() as int) =~= st.blocks);
    } else {
        let mid = built_all(nodes.drop_last(), indent, first, rest, references, st);
        lemma_built_all_extends(nodes.drop_last(), indent, first, rest, references, st);
        let p = if nodes.len() == 1 {
            first
        } else {
            rest
        };
        lemma_built_extends(nodes.last(), indent, p, references, mid);
        lemma_extends_trans(
            built_all(nodes, indent, first, rest, references, st).blocks,
            mid.blocks,
            st.blocks,
        );
    }
}

proof fn lemma_built_items_extend(
    items: Seq<ListItem>,
    ordered: bool,
    start: Option<u32>,
    indent: int,
    references: Seq<(Seq<char>, Seq<char>)>,
    st: BuildModel,
)
    ensures
        extends(built_items(items, ordered, start, indent, references, st).blocks, st.blocks),
    decreases items, 1nat,
{
    if items.len() == 0 {
        assert(st.blocks.take(st.blocks.len() as int) =~= st.blocks);
    } else {
        let mid = built_items(items.drop_last(), ordered, start, indent, references, st);
        lemma_built_items_extend(items.drop_last(), ordered, start, indent, references, st);
        lemma_built_all_extends(
            items.last().children@,
            indent,
            marker(items.last().checked, ordered, start, items.len() - 1),
            ""@,
            references,
            mid,
        );
        lemma_extends_trans(
            built_items(items, ordered, start, indent, references, st).blocks,
            mid.blocks,
            st.blocks,
        );
    }
}

proof fn lemma_built_items_first(
    items: Seq<ListItem>,
    ordered: bool,
    start: Option<u32>,
    indent: int,
    references: Seq<(Seq<char>, Seq<char>)>,
    st: BuildModel,
)
    requires
        items.len() > 0,
    ensures
        extends(
            built_items(items, ordered, start, indent, references, st).blocks,
            built_items(items.take(1), ordered, start, indent, references, st).blocks,
        ),
    decreases items.len(),
{
    if items.len() == 1 {
        assert(items.take(1) =~= items);
        let b = built_items(items, ordered, start, indent, references, st).blocks;
        assert(b.take(b.len() as int) =~= b);
    } else {
        let rest = items.drop_last();
        lemma_built_items_first(rest, ordered, start, indent, references, st);
        assert(rest.take(1) =~= items.take(1));
        let mid = built_items(rest, ordered, start, indent, references, st);
        lemma_built_all_extends(
            items.last().children@,
            indent,
            marker(items.last().checked, ordered, start, items.len() - 1),
            ""@,
            references,
            mid,
        );
        lemma_extends_trans(
            built_items(items, ordered, start, indent, references, st).blocks,
            mid.blocks,
            built_items(items.take(1), ordered, start, indent, references, st).blocks,
        );
    }
}

proof fn lemma_built_all_first(
    nodes: Seq<BlockNode>,
    indent: int,
    first: Seq<char>,
    rest: Seq<char>,
    references: Seq<(Seq<char>, Seq<char>)>,
    st: BuildModel,
)
    requires
        nodes.len() > 0,
    ensures
        extends(
            built_all(nodes, indent, first, rest, references, st).blocks,
            built(nodes[0], indent, first, references, st).blocks,
        ),
    decreases nodes.len(),
{
    if nodes.len() == 1 {
        assert(nodes.drop_last() =~= Seq::<BlockNode>::empty());
        assert(built_all(nodes.drop_last(), indent, first, rest, references, st) == st);
        assert(nodes.last() == nodes[0]);
        let b = built_all(nodes, indent, first, rest, references, st).blocks;
        assert(b.take(b.len() as int) =~= b);
    } else {
        let shorter = nodes.drop_last();
        lemma_built_all_first(shorter, indent, first, rest, references, st);
        assert(shorter[0] == nodes[0]);
        let mid = built_all(shorter, indent, first, rest, references, st);
        lemma_built_extends(nodes.last(), indent, rest, references, mid);
        lemma_extends_trans(
            built_all(nodes, indent, first, rest, references, st).blocks,
            mid.blocks,
            built(nodes[0], indent, first, references, st).blocks,
        );
    }
}

/// A task item shows its box: when a list's first item is a task whose
/// first block is a paragraph, the first block the list adds is that
/// paragraph's prose, and it begins with a checked box for a finished task
/// and an empty box for an open one.
pub proof fn law_task_items_show_their_box(
    node: BlockNode,
    indent: int,
    prefix: Seq<char>,
    references: Seq<(Seq<char>, Seq<char>)>,
    st: BuildModel,
)
    requires
        st.blocks.len() < MAX_BLOCKS,
        node is List,
        node->items@.len() > 0,
        node->items@[0].checked is Some,
        node->items@[0].children@.len() > 0,
        node->items@[0].children@[0] is Paragraph,
    ensures
        ({
            let blocks = built(node, indent, prefix, references, st).blocks;
            let at = st.blocks.len() as int;
            &&& at < blocks.len()
            &&& blocks[at].kind is Prose
            &&& blocks[at].kind->Prose_0.len() >= 2
            &&& blocks[at].kind->Prose_0[0] == (if node->items@[0].checked == Some(true) {
                '\u{2611}'
            } else {
                '\u{2610}'
            })
            &&& blocks[at].kind->Prose_0[1] == ' '
        }),
{
    let items = node->items@;
    let ordered = node->ordered;
    let start = node->start;
    let d = deeper(indent);
    let item = items[0];
    let mark = marker(item.checked, ordered, start, 0);
    law_list_markers(ordered, start, 0);
    assert(mark == seq!['\u{2611}', ' '] || mark == seq!['\u{2610}', ' ']);
    assert(built(node, indent, prefix, references, st) == built_items(items, ordered, start, d, references, st));
    lemma_built_items_first(items, ordered, start, d, references, st);
    let one = items.take(1);
    assert(one.drop_last() =~= Seq::<ListItem>::empty());
    assert(one.last() == item);
    assert(built_items(one.drop_last(), ordered, start, d, references, st) == st);
    let after_one = built_items(one, ordered, start, d, references, st);
    assert(after_one == built_all(item.children@, d, mark, ""@, references, st));
    lemma_built_all_first(item.children@, d, mark, ""@, references, st);
    let para = item.children@[0];
    let body = para->Paragraph_body;
    let line = para->Paragraph_line;
    let first_built = built(para, d, mark, references, st);
    assert(first_built == prose_blocks(body, d, 0, mark, line as int, references, st));
    let start_prose = ProseModel { text: mark, spans: seq![], links: seq![], images: seq![] };
    assert(spans_within(start_prose));
    law_spans_stay_within_the_text(body, plain(), start_prose, references);
    let m = read_node(body, plain(), start_prose, references);
    assert(m.text.len() >= 2);
    assert(m.text[0] == m.text.subrange(0, 2)[0]);
    assert(m.text[1] == m.text.subrange(0, 2)[1]);
    let shown = push_view(st, KindView::Prose(m.text, m.spans, m.links), d, 0, line as int);
    assert(shown.blocks[st.blocks.len() as int].kind == KindView::Prose(m.text, m.spans, m.links));
    lemma_image_blocks_extend(shown, m.images, d, line as int);
    assert(first_built == image_blocks(shown, m.images, d, line as int));
    let all = built(node, indent, prefix, references, st).blocks;
    lemma_extends_trans(all, after_one.blocks, first_built.blocks);
    lemma_extends_trans(all, first_built.blocks, shown.blocks);
    assert(all.take(shown.blocks.len() as int)[st.blocks.len() as int] == shown.blocks[st.blocks.len() as int]);
}

} // verus!
