//! Line and hunk actions for a displayed unified patch.
//!
//! Selection identifiers come from the core's captured index and worktree
//! snapshot, never from copied text. Each displayed row that shows a change
//! is matched to exactly one captured change, and each displayed hunk header
//! acts on the identifiers of the changes shown beneath it, whatever grouping
//! the core used.
use vstd::prelude::*;
use crate::text::chars_of;

verus! {

/// One line of the core's captured diff.
#[derive(Clone, Debug, PartialEq, Eq)]
pub struct PartialLine {
    /// Whether the core marks the line as added (otherwise removed or kept).
    pub addition: bool,
    pub old_line: Option<usize>,
    pub new_line: Option<usize>,
    pub text: String,
    /// The identifier to select the change by; `None` for context.
    pub change_id: Option<usize>,
}

/// One hunk of the core's captured diff.
#[derive(Clone, Debug, PartialEq, Eq)]
pub struct PartialHunk {
    pub header: String,
    pub lines: Vec<PartialLine>,
}

/// The old and new line numbers that one displayed patch row shows.
#[derive(Clone, Copy, Debug, PartialEq, Eq)]
pub struct RowNumbers {
    pub old: Option<u32>,
    pub new: Option<u32>,
}

/// What a displayed patch row can act on.
#[derive(Clone, Debug, Default, PartialEq, Eq)]
pub enum PartialRow {
    #[default]
    NoAction,
    /// A hunk header, acting on the changes shown beneath it.
    Hunk(Vec<usize>),
    /// A changed line.
    Change { id: usize, added: bool, line: usize },
}

/// The captured diff together with the actions of each displayed row.
pub struct PartialActions {
    pub hunks: Vec<PartialHunk>,
    pub rows: Vec<PartialRow>,
}

pub enum RowModel {
    NoAction,
    Hunk(Seq<usize>),
    Change { id: usize, added: bool, line: usize },
}

impl View for PartialRow {
    type V = RowModel;

    open spec fn view(&self) -> RowModel {
        match self {
            PartialRow::NoAction => RowModel::NoAction,
            PartialRow::Hunk(ids) => RowModel::Hunk(ids@),
            PartialRow::Change { id, added, line } => RowModel::Change {
                id: *id,
                added: *added,
                line: *line,
            },
        }
    }
}

pub open spec fn rows_view(rows: Seq<PartialRow>) -> Seq<RowModel> {
    rows.map_values(|r: PartialRow| r@)
}

pub open spec fn rows_moved_message() -> Seq<char> {
    "Patch rows no longer match the prepared comparison."@
}

pub open spec fn lines_moved_message() -> Seq<char> {
    "Changed lines no longer match the working snapshot. Refresh to select lines."@
}

pub open spec fn text_moved_message() -> Seq<char> {
    "Changed text no longer matches the working snapshot. Refresh to select lines."@
}

pub open spec fn no_hunk_message() -> Seq<char> {
    "A changed line has no matching diff hunk."@
}

pub open spec fn incomplete_message() -> Seq<char> {
    "The complete set of changed lines is unavailable. Use the whole-file action."@
}

/// The number a captured line is found by: its old number, else its new one.
pub open spec fn line_number(l: PartialLine) -> Option<usize> {
    if l.old_line is Some {
        l.old_line
    } else {
        l.new_line
    }
}

/// Every captured line, hunk after hunk.
pub open spec fn hunk_lines(hunks: Seq<PartialHunk>) -> Seq<PartialLine>
    decreases hunks.len(),
{
    if hunks.len() == 0 {
        seq![]
    } else {
        hunk_lines(hunks.drop_last()) + hunks.last().lines@
    }
}

/// The captured changes by side (added or not) and number, each with its
/// identifier and text; a later line replaces an earlier one at the same
/// side and number.
pub open spec fn change_table(lines: Seq<PartialLine>) -> Map<(bool, usize), (usize, Seq<char>)>
    decreases lines.len(),
{
    if lines.len() == 0 {
        Map::empty()
    } else {
        let table = change_table(lines.drop_last());
        let l = lines.last();
        if l.change_id is Some && line_number(l) is Some {
            table.insert((l.addition, line_number(l)->0), (l.change_id->0, l.text@))
        } else {
            table
        }
    }
}

/// The patch cut after every line feed: each piece ends with its line feed,
/// but the last, which may lack one; no piece is empty.
pub open spec fn patch_lines(s: Seq<char>) -> Seq<Seq<char>>
    decreases s.len(),
{
    if s.len() == 0 {
        seq![]
    } else {
        let before = patch_lines(s.drop_last());
        if before.len() > 0 && before.last().last() != '\n' {
            before.drop_last().push(before.last().push(s.last()))
        } else {
            before.push(seq![s.last()])
        }
    }
}

pub open spec fn is_hunk_header(l: Seq<char>) -> bool {
    l.len() >= 3 && l[0] == '@' && l[1] == '@' && l[2] == ' '
}

/// The side and number of the change a row shows: an added row shows only
/// a new number and starts with `+`, a removed row only an old number and
/// starts with `-`.
pub open spec fn row_change(numbers: RowNumbers, l: Seq<char>) -> Option<(bool, usize)> {
    match (numbers.old, numbers.new) {
        (None, Some(n)) => if l.len() > 0 && l[0] == '+' {
            Some((true, n as usize))
        } else {
            None
        },
        (Some(n), None) => if l.len() > 0 && l[0] == '-' {
            Some((false, n as usize))
        } else {
            None
        },
        _ => None,
    }
}

pub open spec fn ends_with_feed(s: Seq<char>) -> bool {
    s.len() > 0 && s.last() == '\n'
}

/// Whether a row's text after its marker is the captured text, allowing only
/// the line feed that a captured last line lacks.
pub open spec fn same_text(actual: Seq<char>, source: Seq<char>) -> bool {
    actual == source || (!ends_with_feed(source) && ends_with_feed(actual) && actual.drop_last()
        == source)
}

/// What is known after some rows: the captured changes not yet shown, the
/// hunk headers with the identifiers shown beneath each, the actions so far
/// and how many changes were shown.
pub struct ScanState {
    pub table: Map<(bool, usize), (usize, Seq<char>)>,
    pub headers: Seq<(int, Seq<usize>)>,
    pub rows: Seq<RowModel>,
    pub selected: nat,
}

/// Reading row `r`, whose text is `l`.
pub open spec fn scan_row(st: ScanState, r: int, l: Seq<char>, numbers: Seq<RowNumbers>) -> Result<
    ScanState,
    Seq<char>,
> {
    if is_hunk_header(l) {
        Ok(ScanState { headers: st.headers.push((r, seq![])), ..st })
    } else if r >= numbers.len() {
        Err(rows_moved_message())
    } else {
        match row_change(numbers[r], l) {
            None => Ok(st),
            Some(key) => if !st.table.contains_key(key) {
                Err(lines_moved_message())
            } else if !same_text(l.subrange(1, l.len() as int), st.table[key].1) {
                Err(text_moved_message())
            } else if st.headers.len() == 0 {
                Err(no_hunk_message())
            } else {
                let id = st.table[key].0;
                let h = st.headers.last();
                Ok(
                    ScanState {
                        table: st.table.remove(key),
                        headers: st.headers.update(st.headers.len() - 1, (h.0, h.1.push(id))),
                        rows: st.rows.update(r, RowModel::Change { id: id, added: key.0, line: key.1 }),
                        selected: st.selected + 1,
                    },
                )
            },
        }
    }
}

/// Reading the rows in order, stopping at the first refusal.
pub open spec fn scan_rows(lines: Seq<Seq<char>>, numbers: Seq<RowNumbers>, start: ScanState) -> Result<
    ScanState,
    Seq<char>,
>
    decreases lines.len(),
{
    if lines.len() == 0 {
        Ok(start)
    } else {
        match scan_rows(lines.drop_last(), numbers, start) {
            Err(e) => Err(e),
            Ok(st) => scan_row(st, lines.len() - 1, lines.last(), numbers),
        }
    }
}

/// Each hunk header that shows changes beneath it acts on them.
pub open spec fn mark_hunks(rows: Seq<RowModel>, headers: Seq<(int, Seq<usize>)>) -> Seq<RowModel>
    decreases headers.len(),
{
    if headers.len() == 0 {
        rows
    } else {
        let marked = mark_hunks(rows, headers.drop_last());
        let h = headers.last();
        if h.1.len() > 0 && 0 <= h.0 < marked.len() {
            marked.update(h.0, RowModel::Hunk(h.1))
        } else {
            marked
        }
    }
}

pub open spec fn start_state(numbers: Seq<RowNumbers>, hunks: Seq<PartialHunk>) -> ScanState {
    ScanState {
        table: change_table(hunk_lines(hunks)),
        headers: seq![],
        rows: Seq::new(numbers.len(), |i: int| RowModel::NoAction),
        selected: 0,
    }
}

/// The actions of each displayed row, or why none can be offered: every
/// captured change must be shown exactly once, at its side and number, with
/// its text, beneath a hunk header.
pub open spec fn partial_rows(patch: Seq<char>, numbers: Seq<RowNumbers>, hunks: Seq<PartialHunk>) -> Result<
    Seq<RowModel>,
    Seq<char>,
> {
    match scan_rows(patch_lines(patch), numbers, start_state(numbers, hunks)) {
        Err(e) => Err(e),
        Ok(st) => if st.selected > 0 && st.table == Map::<(bool, usize), (usize, Seq<char>)>::empty() {
            Ok(mark_hunks(st.rows, st.headers))
        } else {
            Err(incomplete_message())
        },
    }
}

pub open spec fn pieces_view(v: Seq<Vec<char>>) -> Seq<Seq<char>> {
    v.map_values(|l: Vec<char>| l@)
}

/// Cuts the patch after every line feed.
fn split_patch(patch: &str) -> (r: Vec<Vec<char>>)
    ensures
        pieces_view(r@) == patch_lines(patch@),
{
    let chars = chars_of(patch);
    let n = chars.len();
    let mut done: Vec<Vec<char>> = Vec::new();
    let mut current: Vec<char> = Vec::new();
    let mut i: usize = 0;
    while i < n
        invariant
            i <= n,
            n == chars@.len(),
            chars@ == patch@,
            forall|k: int| 0 <= k < current@.len() ==> current@[k] != '\n',
            forall|k: int| 0 <= k < done@.len() ==> ends_with_feed(#[trigger] done@[k]@),
            patch_lines(chars@.take(i as int)) == if current@.len() > 0 {
                pieces_view(done@).push(current@)
            } else {
                pieces_view(done@)
            },
        decreases n - i,
    {
        let c = chars[i];
        let ghost before = patch_lines(chars@.take(i as int));
        proof {
            assert(chars@.take(i + 1).drop_last() =~= chars@.take(i as int));
            assert(chars@.take(i + 1).last() == c);
            if done@.len() > 0 {
                assert(ends_with_feed(done@[done@.len() - 1]@));
            }
        }
        let ghost old_done = done@;
        let ghost old_current = current@;
        if c == '\n' {
            current.push(c);
            let mut finished: Vec<char> = Vec::new();
            std::mem::swap(&mut finished, &mut current);
            done.push(finished);
            proof {
                assert(pieces_view(done@) =~= pieces_view(old_done).push(old_current.push(c)));
                if old_current.len() > 0 {
                    assert(before.drop_last() =~= pieces_view(old_done));
                } else {
                    assert(old_current.push(c) =~= seq![c]);
                }
            }
        } else {
            current.push(c);
            proof {
                if old_current.len() > 0 {
                    assert(before.drop_last() =~= pieces_view(old_done));
                } else {
                    assert(old_current.push(c) =~= seq![c]);
                }
            }
        }
        i = i + 1;
    }
    proof {
        assert(chars@.take(n as int) =~= chars@);
    }
    if current.len() > 0 {
        let ghost old_done = done@;
        done.push(current);
        proof {
            assert(pieces_view(done@) =~= pieces_view(old_done).push(done@[done@.len() - 1]@));
        }
    }
    done
}

/// A captured change waiting to be shown: its side and number, identifier
/// and text.
type Pending = ((bool, usize), (usize, Vec<char>));

/// The pending changes stand for the table: one entry per key, each with
/// the table's identifier and text.
pub open spec fn represents(v: Seq<((bool, usize), (usize, Vec<char>))>, m: Map<(bool, usize), (usize, Seq<char>)>) -> bool {
    &&& forall|i: int, j: int| 0 <= i < j < v.len() ==> #[trigger] v[i].0 != #[trigger] v[j].0
    &&& forall|i: int|
        0 <= i < v.len() ==> m.contains_key(#[trigger] v[i].0) && m[v[i].0] == (
            v[i].1.0,
            v[i].1.1@,
        )
    &&& forall|k: (bool, usize)|
        #![trigger m.contains_key(k)]
        m.contains_key(k) ==> exists|i: int| #![trigger v[i]] 0 <= i < v.len() && v[i].0 == k
}

fn find_pending(table: &Vec<Pending>, key: (bool, usize)) -> (r: Option<usize>)
    ensures
        match r {
            Some(i) => i < table@.len() && table@[i as int].0 == key,
            None => forall|i: int| 0 <= i < table@.len() ==> table@[i].0 != key,
        },
{
    let n = table.len();
    let mut i: usize = 0;
    while i < n
        invariant
            i <= n,
            n == table@.len(),
            forall|j: int| 0 <= j < i ==> table@[j].0 != key,
        decreases n - i,
    {
        if table[i].0.0 == key.0 && table[i].0.1 == key.1 {
            return Some(i);
        }
        i = i + 1;
    }
    None
}

/// Records a captured change, replacing one at the same side and number.
fn insert_pending(table: &mut Vec<Pending>, key: (bool, usize), id: usize, text: Vec<char>, Ghost(m): Ghost<Map<(bool, usize), (usize, Seq<char>)>>)
    requires
        represents(old(table)@, m),
    ensures
        represents(final(table)@, m.insert(key, (id, text@))),
        final(table)@.len() <= old(table)@.len() + 1,
{
    let ghost v = table@;
    let ghost m2 = m.insert(key, (id, text@));
    match find_pending(table, key) {
        Some(i) => {
            table.set(i, (key, (id, text)));
            proof {
                let w = table@;
                assert forall|a: int, b: int| 0 <= a < b < w.len() implies #[trigger] w[a].0 != #[trigger] w[b].0 by {
                    assert(v[a].0 != v[b].0);
                }
                assert forall|k: (bool, usize)| m2.contains_key(k) implies exists|j: int| #![trigger w[j]] 0 <= j < w.len() && w[j].0 == k by {
                    if k == key {
                        assert(w[i as int].0 == k);
                    } else {
                        assert(m.contains_key(k));
                        let j = choose|j: int| #![trigger v[j]] 0 <= j < v.len() && v[j].0 == k;
                        assert(w[j].0 == k);
                    }
                }
                assert forall|a: int| 0 <= a < w.len() implies m2.contains_key(#[trigger] w[a].0) && m2[w[a].0] == (w[a].1.0, w[a].1.1@) by {
                    if a != i {
                        assert(w[a] == v[a]);
                        assert(v[a].0 != v[i as int].0 || a == i);
                        if a < i {
                            assert(v[a].0 != v[i as int].0);
                        } else {
                            assert(v[i as int].0 != v[a].0);
                        }
                    }
                }
            }
        },
        None => {
            table.push((key, (id, text)));
            proof {
                let w = table@;
                assert forall|a: int, b: int| 0 <= a < b < w.len() implies #[trigger] w[a].0 != #[trigger] w[b].0 by {
                    if b < v.len() {
                        assert(v[a].0 != v[b].0);
                    } else {
                        assert(v[a].0 != key);
                    }
                }
                assert forall|k: (bool, usize)| m2.contains_key(k) implies exists|j: int| #![trigger w[j]] 0 <= j < w.len() && w[j].0 == k by {
                    if k == key {
                        assert(w[v.len() as int].0 == k);
                    } else {
                        assert(m.contains_key(k));
                        let j = choose|j: int| #![trigger v[j]] 0 <= j < v.len() && v[j].0 == k;
                        assert(w[j].0 == k);
                    }
                }
                assert forall|a: int| 0 <= a < w.len() implies m2.contains_key(#[trigger] w[a].0) && m2[w[a].0] == (w[a].1.0, w[a].1.1@) by {
                    if a < v.len() {
                        assert(w[a] == v[a]);
                        assert(v[a].0 != key);
                    }
                }
            }
        },
    }
}

/// Takes out the captured change at index `i`.
fn remove_pending(table: &mut Vec<Pending>, i: usize, Ghost(m): Ghost<Map<(bool, usize), (usize, Seq<char>)>>) -> (r: Pending)
    requires
        represents(old(table)@, m),
        i < old(table)@.len(),
    ensures
        r == old(table)@[i as int],
        final(table)@ == old(table)@.remove(i as int),
        represents(final(table)@, m.remove(r.0)),
{
    let ghost v = table@;
    let r = table.remove(i);
    proof {
        let w = table@;
        let key = r.0;
        let m2 = m.remove(key);
        assert forall|a: int, b: int| 0 <= a < b < w.len() implies #[trigger] w[a].0 != #[trigger] w[b].0 by {
            let a2 = if a < i { a } else { a + 1 };
            let b2 = if b < i { b } else { b + 1 };
            assert(w[a] == v[a2]);
            assert(w[b] == v[b2]);
            assert(v[a2].0 != v[b2].0);
        }
        assert forall|a: int| 0 <= a < w.len() implies m2.contains_key(#[trigger] w[a].0) && m2[w[a].0] == (w[a].1.0, w[a].1.1@) by {
            let a2 = if a < i { a } else { a + 1 };
            assert(w[a] == v[a2]);
            assert(m.contains_key(v[a2].0));
            if a2 < i {
                assert(v[a2].0 != v[i as int].0);
            } else {
                assert(v[i as int].0 != v[a2].0);
            }
        }
        assert forall|k: (bool, usize)| m2.contains_key(k) implies exists|j: int| #![trigger w[j]] 0 <= j < w.len() && w[j].0 == k by {
            assert(m.contains_key(k));
            let j = choose|j: int| #![trigger v[j]] 0 <= j < v.len() && v[j].0 == k;
            assert(j != i);
            if j < i {
                assert(w[j] == v[j]);
            } else {
                assert(w[j - 1] == v[j]);
            }
        }
    }
    r
}

/// The captured changes of every hunk, by side and number.
fn pending_changes(hunks: &Vec<PartialHunk>) -> (r: Vec<Pending>)
    ensures
        represents(r@, change_table(hunk_lines(hunks@))),
{
    let mut table: Vec<Pending> = Vec::new();
    let nh = hunks.len();
    let mut h: usize = 0;
    proof {
        assert(hunk_lines(hunks@.take(0)) =~= Seq::<PartialLine>::empty());
    }
    while h < nh
        invariant
            h <= nh,
            nh == hunks@.len(),
            represents(table@, change_table(hunk_lines(hunks@.take(h as int)))),
        decreases nh - h,
    {
        let lines = &hunks[h].lines;
        let nl = lines.len();
        let ghost done = hunk_lines(hunks@.take(h as int));
        let mut j: usize = 0;
        proof {
            assert(done + lines@.take(0) =~= done);
        }
        while j < nl
            invariant
                j <= nl,
                nl == lines@.len(),
                represents(table@, change_table(done + lines@.take(j as int))),
            decreases nl - j,
        {
            let line = &lines[j];
            let ghost before = done + lines@.take(j as int);
            proof {
                let after = done + lines@.take(j + 1);
                assert(after.drop_last() =~= before);
                assert(after.last() == *line);
            }
            match line.change_id {
                Some(id) => {
                    let number = match line.old_line {
                        Some(n) => Some(n),
                        None => line.new_line,
                    };
                    match number {
                        Some(n) => {
                            let text = chars_of(line.text.as_str());
                            insert_pending(&mut table, (line.addition, n), id, text, Ghost(change_table(before)));
                        },
                        None => {},
                    }
                },
                None => {},
            }
            j = j + 1;
        }
        proof {
            assert(lines@.take(nl as int) =~= lines@);
            assert(hunks@.take(h + 1).drop_last() =~= hunks@.take(h as int));
            assert(hunks@.take(h + 1).last() == hunks@[h as int]);
        }
        h = h + 1;
    }
    proof {
        assert(hunks@.take(nh as int) =~= hunks@);
    }
    table
}

/// Whether a row's text after its marker is the captured text.
fn matches_source(line: &Vec<char>, source: &Vec<char>) -> (r: bool)
    requires
        line@.len() >= 1,
    ensures
        r == same_text(line@.subrange(1, line@.len() as int), source@),
{
    let n = line.len();
    let m = source.len();
    let mut k: usize = 0;
    while k < m && k + 1 < n && line[k + 1] == source[k]
        invariant
            k <= m,
            k + 1 <= n,
            n == line@.len(),
            m == source@.len(),
            forall|t: int| 0 <= t < k ==> line@[t + 1] == source@[t],
        decreases m - k,
    {
        k = k + 1;
    }
    let whole = k == m;
    let ghost actual = line@.subrange(1, n as int);
    proof {
        if actual == source@ {
            assert(actual.len() == m);
            if k < m && k + 1 < n {
                assert(actual[k as int] == line@[k + 1]);
            }
        }
        if ends_with_feed(actual) && actual.drop_last() == source@ {
            if k < m && k + 1 < n {
                assert(actual.drop_last()[k as int] == line@[k + 1]);
            }
        }
    }
    if whole && n - 1 == m {
        proof {
            assert(actual =~= source@);
        }
        true
    } else if whole && n - 1 == m + 1 && line[n - 1] == '\n' && !(m > 0 && source[m - 1] == '\n') {
        proof {
            assert(actual.drop_last() =~= source@);
        }
        true
    } else {
        false
    }
}

pub open spec fn headers_view(v: Seq<(usize, Vec<usize>)>) -> Seq<(int, Seq<usize>)> {
    v.map_values(|h: (usize, Vec<usize>)| (h.0 as int, h.1@))
}

/// Once some rows are refused, so is the whole patch, for the same reason.
proof fn lemma_scan_fails(lines: Seq<Seq<char>>, numbers: Seq<RowNumbers>, start: ScanState, k: int)
    requires
        0 <= k <= lines.len(),
        scan_rows(lines.take(k), numbers, start) is Err,
    ensures
        scan_rows(lines, numbers, start) == scan_rows(lines.take(k), numbers, start),
    decreases lines.len() - k,
{
    if k < lines.len() {
        assert(lines.take(k + 1).drop_last() =~= lines.take(k));
        lemma_scan_fails(lines, numbers, start, k + 1);
    } else {
        assert(lines.take(k) =~= lines);
    }
}

/// The actions of each displayed row of `patch`, whose rows show the line
/// numbers in `numbers`, for the captured `hunks`; refused unless every
/// captured change is shown exactly once, at its side and number, with its
/// text, beneath a hunk header.
pub fn prepare_rows(patch: &str, numbers: &Vec<RowNumbers>, hunks: &Vec<PartialHunk>) -> (r: Result<
    Vec<PartialRow>,
    String,
>)
    ensures
        match r {
            Ok(rows) => partial_rows(patch@, numbers@, hunks@) == Ok::<Seq<RowModel>, Seq<char>>(
                rows_view(rows@),
            ),
            Err(e) => partial_rows(patch@, numbers@, hunks@) == Err::<Seq<RowModel>, Seq<char>>(e@),
        },
{
    let mut table = pending_changes(hunks);
    let ghost mut m = change_table(hunk_lines(hunks@));
    let expected = table.len();
    let lines = split_patch(patch);
    let ghost pieces = pieces_view(lines@);
    let nl = lines.len();
    let nn = numbers.len();
    let mut rows: Vec<PartialRow> = Vec::new();
    let mut t: usize = 0;
    while t < nn
        invariant
            t <= nn,
            rows@.len() == t,
            forall|k: int| 0 <= k < t ==> rows@[k] == PartialRow::NoAction,
        decreases nn - t,
    {
        rows.push(PartialRow::NoAction);
        t = t + 1;
    }
    let ghost start = start_state(numbers@, hunks@);
    let mut headers: Vec<(usize, Vec<usize>)> = Vec::new();
    let mut selected: usize = 0;
    let mut row: usize = 0;
    proof {
        assert(pieces.take(0) =~= Seq::<Seq<char>>::empty());
        assert(headers_view(headers@) =~= Seq::<(int, Seq<usize>)>::empty());
        assert(rows_view(rows@) =~= start.rows);
    }
    while row < nl
        invariant
            row <= nl,
            nl == lines@.len(),
            nn == numbers@.len(),
            pieces == pieces_view(lines@),
            pieces == patch_lines(patch@),
            start == start_state(numbers@, hunks@),
            rows@.len() == nn,
            represents(table@, m),
            selected + table@.len() == expected,
            selected <= row,
            forall|h: int| 0 <= h < headers@.len() ==> #[trigger] headers@[h].0 < row,
            forall|h: int|
                0 <= h < headers@.len() && #[trigger] headers@[h].1@.len() > 0 ==> headers@[h].0 < nn,
            scan_rows(pieces.take(row as int), numbers@, start) == Ok::<ScanState, Seq<char>>(
                ScanState {
                    table: m,
                    headers: headers_view(headers@),
                    rows: rows_view(rows@),
                    selected: selected as nat,
                },
            ),
        decreases nl - row,
    {
        let l = &lines[row];
        let ghost st = ScanState {
            table: m,
            headers: headers_view(headers@),
            rows: rows_view(rows@),
            selected: selected as nat,
        };
        proof {
            assert(pieces.take(row + 1).drop_last() =~= pieces.take(row as int));
            assert(pieces.take(row + 1).last() == l@);
            assert(pieces.take(row + 1).len() - 1 == row);
        }
        if l.len() >= 3 && l[0] == '@' && l[1] == '@' && l[2] == ' ' {
            let ghost old_headers = headers@;
            headers.push((row, Vec::new()));
            proof {
                assert(headers_view(headers@) =~= headers_view(old_headers).push((row as int, Seq::<usize>::empty())));
            }
            row = row + 1;
        } else if row >= nn {
            proof {
                lemma_scan_fails(pieces, numbers@, start, row + 1);
            }
            return Err("Patch rows no longer match the prepared comparison.".to_owned());
        } else {
            let shown = numbers[row];
            let change = match (shown.old, shown.new) {
                (None, Some(n)) => if l.len() > 0 && l[0] == '+' {
                    Some((true, n as usize))
                } else {
                    None
                },
                (Some(n), None) => if l.len() > 0 && l[0] == '-' {
                    Some((false, n as usize))
                } else {
                    None
                },
                _ => None,
            };
            match change {
                None => {
                    row = row + 1;
                },
                Some(key) => {
                    match find_pending(&table, key) {
                        None => {
                            proof {
                                if m.contains_key(key) {
                                    let j = choose|j: int| #![trigger table@[j]] 0 <= j < table@.len() && table@[j].0 == key;
                                    assert(table@[j].0 != key);
                                }
                                lemma_scan_fails(pieces, numbers@, start, row + 1);
                            }
                            return Err(
                                "Changed lines no longer match the working snapshot. Refresh to select lines.".to_owned(),
                            );
                        },
                        Some(i) => {
                            proof {
                                assert(m.contains_key(table@[i as int].0));
                            }
                            if !matches_source(l, &table[i].1.1) {
                                proof {
                                    lemma_scan_fails(pieces, numbers@, start, row + 1);
                                }
                                return Err(
                                    "Changed text no longer matches the working snapshot. Refresh to select lines.".to_owned(),
                                );
                            }
                            if headers.len() == 0 {
                                proof {
                                    lemma_scan_fails(pieces, numbers@, start, row + 1);
                                }
                                return Err("A changed line has no matching diff hunk.".to_owned());
                            }
                            let ghost old_headers = headers@;
                            let ghost old_rows = rows@;
                            let taken = remove_pending(&mut table, i, Ghost(m));
                            let id = taken.1.0;
                            let (hrow, mut ids) = headers.pop().unwrap();
                            ids.push(id);
                            headers.push((hrow, ids));
                            rows.set(row, PartialRow::Change { id: id, added: key.0, line: key.1 });
                            proof {
                                m = m.remove(key);
                                let hv = headers_view(old_headers);
                                assert(headers_view(headers@) =~= hv.update(
                                    hv.len() - 1,
                                    (hv.last().0, hv.last().1.push(id)),
                                ));
                                assert(rows_view(rows@) =~= rows_view(old_rows).update(
                                    row as int,
                                    RowModel::Change { id: id, added: key.0, line: key.1 },
                                ));
                                assert forall|h: int| 0 <= h < headers@.len() implies #[trigger] headers@[h].0 < row + 1 by {
                                    if h < headers@.len() - 1 {
                                        assert(headers@[h] == old_headers[h]);
                                    } else {
                                        assert(hrow == old_headers[h].0);
                                    }
                                }
                                assert forall|h: int|
                                    0 <= h < headers@.len() && #[trigger] headers@[h].1@.len() > 0 implies headers@[h].0 < nn by {
                                    if h < headers@.len() - 1 {
                                        assert(headers@[h] == old_headers[h]);
                                    } else {
                                        assert(hrow == old_headers[h].0);
                                    }
                                }
                            }
                            selected = selected + 1;
                            row = row + 1;
                        },
                    }
                },
            }
        }
    }
    proof {
        assert(pieces.take(nl as int) =~= pieces);
    }
    if !(selected > 0 && selected == expected && table.len() == 0) {
        proof {
            if m == Map::<(bool, usize), (usize, Seq<char>)>::empty() && table@.len() > 0 {
                assert(m.contains_key(table@[0].0));
            }
        }
        return Err("The complete set of changed lines is unavailable. Use the whole-file action.".to_owned());
    }
    proof {
        assert(m =~= Map::<(bool, usize), (usize, Seq<char>)>::empty()) by {
            assert forall|k: (bool, usize)| !m.contains_key(k) by {
                if m.contains_key(k) {
                    let j = choose|j: int| #![trigger table@[j]] 0 <= j < table@.len() && table@[j].0 == k;
                }
            }
        }
    }
    let ghost hv = headers_view(headers@);
    let ghost scanned = rows_view(rows@);
    let ghost all_headers = headers@;
    let mut rest = headers;
    let mut d: usize = 0;
    let nh = rest.len();
    proof {
        assert(hv.take(0) =~= Seq::<(int, Seq<usize>)>::empty());
        assert(rest@ =~= all_headers.skip(0));
    }
    while rest.len() > 0
        invariant
            d <= nh,
            nh == hv.len(),
            hv == headers_view(all_headers),
            rest@.len() + d == nh,
            all_headers.len() == nh,
            rest@ == all_headers.skip(d as int),
            forall|h: int|
                0 <= h < all_headers.len() && #[trigger] all_headers[h].1@.len() > 0 ==> all_headers[h].0 < nn,
            rows@.len() == nn,
            rows_view(rows@) == mark_hunks(scanned, hv.take(d as int)),
        decreases rest.len(),
    {
        let ghost before = rest@;
        let (hrow, ids) = rest.remove(0);
        proof {
            assert(hv.take(d + 1).drop_last() =~= hv.take(d as int));
            assert(all_headers[d as int] == before[0]);
            assert(hv[d as int] == (hrow as int, ids@));
            assert(hv.take(d + 1).last() == hv[d as int]);
            assert(rest@ =~= all_headers.skip(d + 1));
            assert(mark_hunks(scanned, hv.take(d as int)).len() == rows_view(rows@).len());
        }
        if ids.len() > 0 {
            let ghost old_rows = rows@;
            rows.set(hrow, PartialRow::Hunk(ids));
            proof {
                assert(rows_view(rows@) =~= rows_view(old_rows).update(hrow as int, RowModel::Hunk(hv[d as int].1)));
            }
        }
        d = d + 1;
    }
    proof {
        assert(hv.take(nh as int) =~= hv);
    }
    Ok(rows)
}

/// The row actions for `patch`, kept with the captured diff they act on.
pub fn prepare(patch: &str, numbers: &Vec<RowNumbers>, hunks: Vec<PartialHunk>) -> (r: Result<
    PartialActions,
    String,
>)
    ensures
        match r {
            Ok(actions) => actions.hunks@ == hunks@ && partial_rows(patch@, numbers@, hunks@) == Ok::<
                Seq<RowModel>,
                Seq<char>,
            >(rows_view(actions.rows@)),
            Err(e) => partial_rows(patch@, numbers@, hunks@) == Err::<Seq<RowModel>, Seq<char>>(e@),
        },
{
    let rows = prepare_rows(patch, numbers, &hunks)?;
    Ok(PartialActions { hunks: hunks, rows: rows })
}

/// What reading the rows keeps: the changes not yet shown are captured
/// changes, each shown one has a row acting on it, hunk headers sit on rows
/// without an action, and the rows not yet read have none.
pub open spec fn scan_keeps(st: ScanState, start: ScanState, read: int) -> bool {
    &&& st.rows.len() == start.rows.len()
    &&& forall|k: (bool, usize)|
        #[trigger] st.table.contains_key(k) ==> start.table.contains_key(k) && st.table[k]
            == start.table[k]
    &&& forall|k: (bool, usize)|
        #![trigger start.table.contains_key(k)]
        start.table.contains_key(k) && !st.table.contains_key(k) ==> exists|r: int|
            0 <= r < read && r < st.rows.len() && st.rows[r] == (RowModel::Change {
                id: start.table[k].0,
                added: k.0,
                line: k.1,
            })
    &&& forall|h: int|
        0 <= h < st.headers.len() ==> 0 <= (#[trigger] st.headers[h]).0 < read && (
        st.headers[h].0 < st.rows.len() ==> st.rows[st.headers[h].0] is NoAction)
    &&& forall|r: int| read <= r < st.rows.len() ==> (#[trigger] st.rows[r]) is NoAction
}

proof fn lemma_scan_row_keeps(st: ScanState, start: ScanState, r: int, l: Seq<char>, numbers: Seq<RowNumbers>)
    requires
        scan_keeps(st, start, r),
        start.rows.len() == numbers.len(),
        r >= 0,
        scan_row(st, r, l, numbers) is Ok,
    ensures
        scan_keeps(scan_row(st, r, l, numbers)->Ok_0, start, r + 1),
{
    let next = scan_row(st, r, l, numbers)->Ok_0;
    if is_hunk_header(l) {
        assert forall|h: int| 0 <= h < next.headers.len() implies 0 <= (
        #[trigger] next.headers[h]).0 < r + 1 && (next.headers[h].0 < next.rows.len()
            ==> next.rows[next.headers[h].0] is NoAction) by {
            if h < st.headers.len() {
                assert(next.headers[h] == st.headers[h]);
            }
        }
        assert forall|k: (bool, usize)|
            #![trigger start.table.contains_key(k)]
            start.table.contains_key(k) && !next.table.contains_key(k) implies exists|q: int|
                0 <= q < r + 1 && q < next.rows.len() && next.rows[q] == (RowModel::Change {
                    id: start.table[k].0,
                    added: k.0,
                    line: k.1,
                }) by {
            let q = choose|q: int|
                0 <= q < r && q < st.rows.len() && st.rows[q] == (RowModel::Change {
                    id: start.table[k].0,
                    added: k.0,
                    line: k.1,
                });
            assert(next.rows[q] == st.rows[q]);
        }
    } else {
        match row_change(numbers[r], l) {
            None => {
                assert(next == st);
                assert forall|k: (bool, usize)|
                    #![trigger start.table.contains_key(k)]
                    start.table.contains_key(k) && !next.table.contains_key(k) implies exists|q: int|
                        0 <= q < r + 1 && q < next.rows.len() && next.rows[q] == (RowModel::Change {
                            id: start.table[k].0,
                            added: k.0,
                            line: k.1,
                        }) by {
                    let q = choose|q: int|
                        0 <= q < r && q < st.rows.len() && st.rows[q] == (RowModel::Change {
                            id: start.table[k].0,
                            added: k.0,
                            line: k.1,
                        });
                }
            },
            Some(key) => {
                let id = st.table[key].0;
                let shown = RowModel::Change { id: id, added: key.0, line: key.1 };
                assert(next.rows == st.rows.update(r, shown));
                assert(next.table == st.table.remove(key));
                assert(start.table.contains_key(key) && start.table[key] == st.table[key]);
                assert forall|h: int| 0 <= h < next.headers.len() implies 0 <= (
                #[trigger] next.headers[h]).0 < r + 1 && (next.headers[h].0 < next.rows.len()
                    ==> next.rows[next.headers[h].0] is NoAction) by {
                    if h < next.headers.len() - 1 {
                        assert(next.headers[h] == st.headers[h]);
                    } else {
                        assert(next.headers[h].0 == st.headers[h].0);
                    }
                    let at = st.headers[h].0;
                    if at < next.rows.len() {
                        assert(next.rows[at] == st.rows[at]);
                    }
                }
                assert forall|k: (bool, usize)|
                    #![trigger start.table.contains_key(k)]
                    start.table.contains_key(k) && !next.table.contains_key(k) implies exists|q: int|
                        0 <= q < r + 1 && q < next.rows.len() && next.rows[q] == (RowModel::Change {
                            id: start.table[k].0,
                            added: k.0,
                            line: k.1,
                        }) by {
                    if k == key {
                        assert(next.rows[r] == shown);
                    } else {
                        assert(!st.table.contains_key(k));
                        let q = choose|q: int|
                            0 <= q < r && q < st.rows.len() && st.rows[q] == (RowModel::Change {
                                id: start.table[k].0,
                                added: k.0,
                                line: k.1,
                            });
                        assert(next.rows[q] == st.rows[q]);
                    }
                }
                assert forall|q: int| r + 1 <= q < next.rows.len() implies (
                #[trigger] next.rows[q]) is NoAction by {
                    assert(next.rows[q] == st.rows[q]);
                }
            },
        }
    }
}

proof fn lemma_scan_keeps(lines: Seq<Seq<char>>, numbers: Seq<RowNumbers>, start: ScanState)
    requires
        start.headers.len() == 0,
        start.rows.len() == numbers.len(),
        forall|r: int| 0 <= r < start.rows.len() ==> (#[trigger] start.rows[r]) is NoAction,
        scan_rows(lines, numbers, start) is Ok,
    ensures
        scan_keeps(scan_rows(lines, numbers, start)->Ok_0, start, lines.len() as int),
    decreases lines.len(),
{
    if lines.len() == 0 {
        assert(scan_rows(lines, numbers, start)->Ok_0 == start);
    } else {
        lemma_scan_keeps(lines.drop_last(), numbers, start);
        let st = scan_rows(lines.drop_last(), numbers, start)->Ok_0;
        lemma_scan_row_keeps(st, start, lines.len() - 1, lines.last(), numbers);
    }
}

/// Marking hunk headers leaves every other row as it was.
proof fn lemma_mark_hunks_elsewhere(rows: Seq<RowModel>, headers: Seq<(int, Seq<usize>)>, r: int)
    requires
        0 <= r < rows.len(),
        forall|h: int| 0 <= h < headers.len() ==> (#[trigger] headers[h]).0 != r,
    ensures
        mark_hunks(rows, headers).len() == rows.len(),
        mark_hunks(rows, headers)[r] == rows[r],
    decreases headers.len(),
{
    if headers.len() > 0 {
        assert forall|h: int| 0 <= h < headers.drop_last().len() implies (
        #[trigger] headers.drop_last()[h]).0 != r by {
            assert(headers.drop_last()[h] == headers[h]);
        }
        lemma_mark_hunks_elsewhere(rows, headers.drop_last(), r);
        assert(headers.last() == headers[headers.len() - 1]);
    }
}

/// When row actions are offered, every captured change has a row acting on
/// it with its own identifier, side and line number.
pub proof fn law_every_change_is_offered(patch: Seq<char>, numbers: Seq<RowNumbers>, hunks: Seq<PartialHunk>)
    requires
        partial_rows(patch, numbers, hunks) is Ok,
    ensures
        forall|k: (bool, usize)|
            #[trigger] change_table(hunk_lines(hunks)).contains_key(k) ==> exists|r: int|
                0 <= r < partial_rows(patch, numbers, hunks)->Ok_0.len() && partial_rows(
                    patch,
                    numbers,
                    hunks,
                )->Ok_0[r] == (RowModel::Change {
                    id: change_table(hunk_lines(hunks))[k].0,
                    added: k.0,
                    line: k.1,
                }),
{
    let start = start_state(numbers, hunks);
    let lines = patch_lines(patch);
    lemma_scan_keeps(lines, numbers, start);
    let st = scan_rows(lines, numbers, start)->Ok_0;
    let rows = partial_rows(patch, numbers, hunks)->Ok_0;
    assert(rows == mark_hunks(st.rows, st.headers));
    assert forall|k: (bool, usize)|
        #[trigger] change_table(hunk_lines(hunks)).contains_key(k) implies exists|r: int|
            0 <= r < rows.len() && rows[r] == (RowModel::Change {
                id: change_table(hunk_lines(hunks))[k].0,
                added: k.0,
                line: k.1,
            }) by {
        assert(start.table.contains_key(k));
        assert(!st.table.contains_key(k));
        let q = choose|q: int|
            0 <= q < lines.len() && q < st.rows.len() && st.rows[q] == (RowModel::Change {
                id: start.table[k].0,
                added: k.0,
                line: k.1,
            });
        assert forall|h: int| 0 <= h < st.headers.len() implies (#[trigger] st.headers[h]).0
            != q by {
            if st.headers[h].0 == q {
                assert(st.rows[q] is NoAction);
            }
        }
        lemma_mark_hunks_elsewhere(st.rows, st.headers, q);
    }
}

/// The identifiers of the changes that the rows in `lo..hi` act on, in order.
pub open spec fn shown_ids(rows: Seq<RowModel>, lo: int, hi: int) -> Seq<usize>
    decreases hi - lo,
{
    if hi <= lo {
        seq![]
    } else {
        let before = shown_ids(rows, lo, hi - 1);
        if 0 <= hi - 1 < rows.len() && rows[hi - 1] is Change {
            before.push(rows[hi - 1]->id)
        } else {
            before
        }
    }
}

/// The row of the first hunk header after row `r`, or the end of the patch.
pub open spec fn next_header(lines: Seq<Seq<char>>, r: int) -> int
    decreases lines.len() - r,
{
    if r + 1 >= lines.len() {
        lines.len() as int
    } else if is_hunk_header(lines[r + 1]) {
        r + 1
    } else {
        next_header(lines, r + 1)
    }
}

/// Rows that agree on which changes they act on show the same identifiers.
proof fn lemma_shown_ids_same(a: Seq<RowModel>, b: Seq<RowModel>, lo: int, hi: int)
    requires
        a.len() == b.len(),
        forall|q: int|
            lo <= q < hi && 0 <= q < a.len() ==> ((#[trigger] a[q]) is Change) == (b[q] is Change)
                && (a[q] is Change ==> a[q] == b[q]),
    ensures
        shown_ids(a, lo, hi) == shown_ids(b, lo, hi),
    decreases hi - lo,
{
    if hi > lo {
        lemma_shown_ids_same(a, b, lo, hi - 1);
        if 0 <= hi - 1 < a.len() {
            assert(lo <= hi - 1 < hi);
        }
    }
}

/// Showing one more row adds its change, if it acts on one.
proof fn lemma_shown_ids_extend(rows: Seq<RowModel>, lo: int, hi: int)
    requires
        lo <= hi,
    ensures
        shown_ids(rows, lo, hi + 1) == if 0 <= hi < rows.len() && rows[hi] is Change {
            shown_ids(rows, lo, hi).push(rows[hi]->id)
        } else {
            shown_ids(rows, lo, hi)
        },
{
}

/// When no row between `r` and `e` is a hunk header, and `e` is one or the
/// end, `e` is the next header after `r`.
proof fn lemma_next_header(lines: Seq<Seq<char>>, r: int, e: int)
    requires
        0 <= r < e <= lines.len(),
        forall|q: int| r < q < e ==> !is_hunk_header(#[trigger] lines[q]),
        e == lines.len() || is_hunk_header(lines[e]),
    ensures
        next_header(lines, r) == e,
    decreases e - r,
{
    if r + 1 < e {
        assert(!is_hunk_header(lines[r + 1]));
        lemma_next_header(lines, r + 1, e);
    }
}

/// The row where the identifiers of hunk header `t` stop: the next header,
/// or the rows read so far.
pub open spec fn header_end(st: ScanState, t: int, read: int) -> int {
    if t + 1 < st.headers.len() {
        st.headers[t + 1].0
    } else {
        read
    }
}

/// What reading keeps of the hunk headers: they are the header rows read so
/// far, in order, each holding the identifiers of the changes shown beneath
/// it up to the next; and no row acts on a hunk yet.
pub open spec fn hunks_track(st: ScanState, lines: Seq<Seq<char>>, read: int) -> bool {
    &&& forall|t: int|
        0 <= t < st.headers.len() ==> 0 <= (#[trigger] st.headers[t]).0 < read && is_hunk_header(
            lines[st.headers[t].0],
        )
    &&& forall|t: int, u: int|
        0 <= t < u < st.headers.len() ==> (#[trigger] st.headers[t]).0 < (
        #[trigger] st.headers[u]).0
    &&& forall|q: int|
        0 <= q < read && is_hunk_header(#[trigger] lines[q]) ==> exists|t: int|
            0 <= t < st.headers.len() && st.headers[t].0 == q
    &&& forall|t: int|
        0 <= t < st.headers.len() ==> (#[trigger] st.headers[t]).1 == shown_ids(
            st.rows,
            st.headers[t].0 + 1,
            header_end(st, t, read),
        )
    &&& forall|q: int| 0 <= q < st.rows.len() ==> !((#[trigger] st.rows[q]) is Hunk)
}

proof fn lemma_scan_row_tracks(
    st: ScanState,
    start: ScanState,
    lines: Seq<Seq<char>>,
    r: int,
    numbers: Seq<RowNumbers>,
)
    requires
        hunks_track(st, lines, r),
        scan_keeps(st, start, r),
        start.rows.len() == numbers.len(),
        0 <= r < lines.len(),
        scan_row(st, r, lines[r], numbers) is Ok,
    ensures
        hunks_track(scan_row(st, r, lines[r], numbers)->Ok_0, lines, r + 1),
{
    let l = lines[r];
    let next = scan_row(st, r, l, numbers)->Ok_0;
    let n = st.headers.len();
    if is_hunk_header(l) {
        assert(next.rows == st.rows);
        assert(next.headers == st.headers.push((r, Seq::<usize>::empty())));
        assert forall|t: int| 0 <= t < next.headers.len() implies 0 <= (
        #[trigger] next.headers[t]).0 < r + 1 && is_hunk_header(lines[next.headers[t].0]) by {
            if t < n {
                assert(next.headers[t] == st.headers[t]);
            }
        }
        assert forall|t: int, u: int| 0 <= t < u < next.headers.len() implies (
        #[trigger] next.headers[t]).0 < (#[trigger] next.headers[u]).0 by {
            assert(next.headers[t] == st.headers[t]);
            if u < n {
                assert(next.headers[u] == st.headers[u]);
            }
        }
        assert forall|q: int| 0 <= q < r + 1 && is_hunk_header(#[trigger] lines[q]) implies exists|
            t: int,
        | 0 <= t < next.headers.len() && next.headers[t].0 == q by {
            if q < r {
                let t = choose|t: int| 0 <= t < st.headers.len() && st.headers[t].0 == q;
                assert(next.headers[t] == st.headers[t]);
            } else {
                assert(next.headers[n as int].0 == q);
            }
        }
        assert forall|t: int| 0 <= t < next.headers.len() implies (
        #[trigger] next.headers[t]).1 == shown_ids(
            next.rows,
            next.headers[t].0 + 1,
            header_end(next, t, r + 1),
        ) by {
            if t < n {
                assert(next.headers[t] == st.headers[t]);
                if t + 1 < n {
                    assert(next.headers[t + 1] == st.headers[t + 1]);
                } else {
                    assert(next.headers[t + 1].0 == r);
                }
            }
        }
    } else {
        match row_change(numbers[r], l) {
            None => {
                assert(next == st);
                assert forall|t: int| 0 <= t < next.headers.len() implies (
                #[trigger] next.headers[t]).1 == shown_ids(
                    next.rows,
                    next.headers[t].0 + 1,
                    header_end(next, t, r + 1),
                ) by {
                    if t + 1 == n {
                        lemma_shown_ids_extend(st.rows, st.headers[t].0 + 1, r);
                        assert(st.rows[r] is NoAction);
                    }
                }
            },
            Some(key) => {
                let id = st.table[key].0;
                let shown = RowModel::Change { id: id, added: key.0, line: key.1 };
                assert(next.rows == st.rows.update(r, shown));
                let h = st.headers.last();
                assert(next.headers == st.headers.update(n - 1, (h.0, h.1.push(id))));
                assert forall|t: int| 0 <= t < next.headers.len() implies 0 <= (
                #[trigger] next.headers[t]).0 < r + 1 && is_hunk_header(lines[next.headers[t].0]) by {
                    assert(next.headers[t].0 == st.headers[t].0);
                }
                assert forall|t: int, u: int| 0 <= t < u < next.headers.len() implies (
                #[trigger] next.headers[t]).0 < (#[trigger] next.headers[u]).0 by {
                    assert(next.headers[t].0 == st.headers[t].0);
                    assert(next.headers[u].0 == st.headers[u].0);
                }
                assert forall|q: int| 0 <= q < r + 1 && is_hunk_header(#[trigger] lines[q]) implies exists|
                    t: int,
                | 0 <= t < next.headers.len() && next.headers[t].0 == q by {
                    let t = choose|t: int| 0 <= t < st.headers.len() && st.headers[t].0 == q;
                    assert(next.headers[t].0 == st.headers[t].0);
                }
                assert forall|t: int| 0 <= t < next.headers.len() implies (
                #[trigger] next.headers[t]).1 == shown_ids(
                    next.rows,
                    next.headers[t].0 + 1,
                    header_end(next, t, r + 1),
                ) by {
                    let lo = st.headers[t].0 + 1;
                    if t + 1 < n {
                        assert(next.headers[t] == st.headers[t]);
                        assert(next.headers[t + 1].0 == st.headers[t + 1].0);
                        let e = st.headers[t + 1].0;
                        assert(e < r);
                        lemma_shown_ids_same(next.rows, st.rows, lo, e);
                    } else {
                        lemma_shown_ids_same(next.rows, st.rows, lo, r);
                        lemma_shown_ids_extend(next.rows, lo, r);
                        assert(next.rows[r] == shown);
                    }
                }
                assert forall|q: int| 0 <= q < next.rows.len() implies !((
                #[trigger] next.rows[q]) is Hunk) by {
                    if q != r {
                        assert(next.rows[q] == st.rows[q]);
                    }
                }
            },
        }
    }
}

proof fn lemma_scan_tracks(lines: Seq<Seq<char>>, numbers: Seq<RowNumbers>, start: ScanState, k: int)
    requires
        start.headers.len() == 0,
        start.rows.len() == numbers.len(),
        forall|r: int| 0 <= r < start.rows.len() ==> (#[trigger] start.rows[r]) is NoAction,
        0 <= k <= lines.len(),
        scan_rows(lines.take(k), numbers, start) is Ok,
    ensures
        hunks_track(scan_rows(lines.take(k), numbers, start)->Ok_0, lines, k),
    decreases k,
{
    if k == 0 {
        assert(lines.take(0) =~= Seq::<Seq<char>>::empty());
        assert(scan_rows(lines.take(0), numbers, start)->Ok_0 == start);
    } else {
        let prefix = lines.take(k - 1);
        assert(lines.take(k).drop_last() =~= prefix);
        assert(lines.take(k).last() == lines[k - 1]);
        lemma_scan_tracks(lines, numbers, start, k - 1);
        lemma_scan_keeps(prefix, numbers, start);
        let st = scan_rows(prefix, numbers, start)->Ok_0;
        lemma_scan_row_tracks(st, start, lines, k - 1, numbers);
    }
}

/// Marking hunk headers acts on hunks only at header rows that show
/// changes, and leaves every change row as it was.
proof fn lemma_mark_hunks(rows: Seq<RowModel>, headers: Seq<(int, Seq<usize>)>)
    requires
        forall|t: int|
            0 <= t < headers.len() && 0 <= (#[trigger] headers[t]).0 < rows.len() ==> !(
            rows[headers[t].0] is Change),
    ensures
        mark_hunks(rows, headers).len() == rows.len(),
        forall|q: int|
            0 <= q < rows.len() ==> ((#[trigger] mark_hunks(rows, headers)[q]) is Change) == (
            rows[q] is Change) && (rows[q] is Change ==> mark_hunks(rows, headers)[q] == rows[q]),
        forall|q: int|
            0 <= q < rows.len() && (#[trigger] mark_hunks(rows, headers)[q]) is Hunk ==> (
            rows[q] is Hunk || exists|t: int|
                0 <= t < headers.len() && headers[t].0 == q && mark_hunks(rows, headers)[q]
                    == RowModel::Hunk(headers[t].1)),
    decreases headers.len(),
{
    if headers.len() > 0 {
        let before = headers.drop_last();
        assert forall|t: int|
            0 <= t < before.len() && 0 <= (#[trigger] before[t]).0 < rows.len() implies !(
            rows[before[t].0] is Change) by {
            assert(before[t] == headers[t]);
        }
        lemma_mark_hunks(rows, before);
        let m = mark_hunks(rows, before);
        let h = headers.last();
        let last = headers.len() - 1;
        assert(headers[last] == h);
        assert forall|q: int|
            0 <= q < rows.len() && (#[trigger] mark_hunks(rows, headers)[q]) is Hunk implies (
            rows[q] is Hunk || exists|t: int|
                0 <= t < headers.len() && headers[t].0 == q && mark_hunks(rows, headers)[q]
                    == RowModel::Hunk(headers[t].1)) by {
            if h.1.len() > 0 && 0 <= h.0 < m.len() && q == h.0 {
                assert(headers[last].0 == q);
            } else {
                assert(mark_hunks(rows, headers)[q] == m[q]);
                if !(rows[q] is Hunk) {
                    let t = choose|t: int|
                        0 <= t < before.len() && before[t].0 == q && m[q] == RowModel::Hunk(
                            before[t].1,
                        );
                    assert(headers[t] == before[t]);
                }
            }
        }
    }
}

/// Each hunk header that offers an action acts on exactly the changes shown
/// beneath it, up to the next hunk header, in the order they are shown.
pub proof fn law_hunks_act_on_the_changes_beneath(patch: Seq<char>, numbers: Seq<RowNumbers>, hunks: Seq<PartialHunk>)
    requires
        partial_rows(patch, numbers, hunks) is Ok,
    ensures
        forall|r: int|
            0 <= r < partial_rows(patch, numbers, hunks)->Ok_0.len() && (
            #[trigger] partial_rows(patch, numbers, hunks)->Ok_0[r]) is Hunk ==> partial_rows(
                patch,
                numbers,
                hunks,
            )->Ok_0[r] == RowModel::Hunk(
                shown_ids(
                    partial_rows(patch, numbers, hunks)->Ok_0,
                    r + 1,
                    next_header(patch_lines(patch), r),
                ),
            ),
{
    let start = start_state(numbers, hunks);
    let lines = patch_lines(patch);
    let k = lines.len() as int;
    assert(lines.take(k) =~= lines);
    lemma_scan_tracks(lines, numbers, start, k);
    lemma_scan_keeps(lines, numbers, start);
    let st = scan_rows(lines, numbers, start)->Ok_0;
    let rows = partial_rows(patch, numbers, hunks)->Ok_0;
    assert(rows == mark_hunks(st.rows, st.headers));
    assert forall|t: int|
        0 <= t < st.headers.len() && 0 <= (#[trigger] st.headers[t]).0 < st.rows.len() implies !(
        st.rows[st.headers[t].0] is Change) by {
        assert(st.rows[st.headers[t].0] is NoAction);
    }
    lemma_mark_hunks(st.rows, st.headers);
    assert forall|r: int| 0 <= r < rows.len() && (#[trigger] rows[r]) is Hunk implies rows[r]
        == RowModel::Hunk(shown_ids(rows, r + 1, next_header(lines, r))) by {
        assert(!(st.rows[r] is Hunk));
        let t = choose|t: int|
            0 <= t < st.headers.len() && st.headers[t].0 == r && rows[r] == RowModel::Hunk(
                st.headers[t].1,
            );
        let e = header_end(st, t, k);
        assert(st.headers[t].1 == shown_ids(st.rows, r + 1, e));
        assert forall|q: int| r < q < e implies !is_hunk_header(#[trigger] lines[q]) by {
            if is_hunk_header(lines[q]) {
                let u = choose|u: int| 0 <= u < st.headers.len() && st.headers[u].0 == q;
                if u <= t {
                    if u < t {
                        assert(st.headers[u].0 < st.headers[t].0);
                    }
                } else if t + 1 < st.headers.len() {
                    if u > t + 1 {
                        assert(st.headers[t + 1].0 < st.headers[u].0);
                    }
                }
            }
        }
        if t + 1 < st.headers.len() {
            assert(st.headers[t].0 < st.headers[t + 1].0);
        }
        lemma_next_header(lines, r, e);
        lemma_shown_ids_same(rows, st.rows, r + 1, e);
    }
}

} // verus!
