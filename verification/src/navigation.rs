//! Branch names in the navigation list: the folders a name is split into,
//! the label a row shows at its depth, and the key prefix of each side.

use vstd::prelude::*;
use crate::sorting::{sort_entries, sort_keyed, keyed_views, KeyedIndex};
use crate::path_filter::{contains_bytes, text_contains};
use crate::text::{bytes_less, lowercase, to_lowercase, trim, trimmed};

verus! {

/// At most sixteen folder levels precede a leaf. Deeper name components
/// remain together in the leaf label rather than being lost or recursively
/// expanded.
pub const MAX_FOLDER_DEPTH: usize = 16;

/// The position of the first `/` in a name.
pub open spec fn first_slash(s: Seq<char>) -> Option<int>
    decreases s.len(),
{
    if s.len() == 0 {
        None
    } else if s[0] == '/' {
        Some(0)
    } else {
        match first_slash(s.drop_first()) {
            Some(k) => Some(k + 1),
            None => None,
        }
    }
}

/// `str::splitn(n, '/')`: at most `n` pieces split at slashes, the last
/// piece keeping the rest of the name.
pub open spec fn split_pieces(s: Seq<char>, n: nat) -> Seq<Seq<char>>
    decreases s.len(),
{
    if n <= 1 {
        seq![s]
    } else {
        proof {
            lemma_first_slash(s);
        }
        match first_slash(s) {
            Some(k) => seq![s.take(k)] + split_pieces(s.skip(k + 1), (n - 1) as nat),
            None => seq![s],
        }
    }
}

/// The pieces of a branch name: its folders, then its leaf.
pub open spec fn name_pieces(name: Seq<char>) -> Seq<Seq<char>> {
    split_pieces(name, (MAX_FOLDER_DEPTH + 1) as nat)
}

/// The label a branch row shows at `depth`: the name after that many folders,
/// or the whole name when it has fewer.
pub open spec fn label_at(name: Seq<char>, depth: nat) -> Seq<char> {
    let d = if depth <= MAX_FOLDER_DEPTH {
        depth
    } else {
        MAX_FOLDER_DEPTH as nat
    };
    if d < split_pieces(name, d + 1).len() {
        split_pieces(name, d + 1)[d as int]
    } else {
        name
    }
}

/// Where the first slash is, and that no slash comes before it.
pub proof fn lemma_first_slash(s: Seq<char>)
    ensures
        first_slash(s) matches Some(k) ==> 0 <= k < s.len() && s[k] == '/' && forall|j: int|
            0 <= j < k ==> s[j] != '/',
        first_slash(s) is None ==> forall|j: int| 0 <= j < s.len() ==> s[j] != '/',
    decreases s.len(),
{
    if s.len() > 0 && s[0] != '/' {
        lemma_first_slash(s.drop_first());
        assert forall|j: int| 1 <= j < s.len() implies s[j] == s.drop_first()[j - 1] by {}
    }
}

fn find_slash(chars: &Vec<char>, from: usize) -> (r: Option<usize>)
    requires
        from <= chars@.len(),
    ensures
        match r {
            Some(i) => from <= i < chars@.len() && first_slash(chars@.skip(from as int)) == Some(
                i - from,
            ),
            None => first_slash(chars@.skip(from as int)) is None,
        },
{
    let ghost rest = chars@.skip(from as int);
    proof {
        lemma_first_slash(rest);
    }
    let mut i: usize = from;
    while i < chars.len()
        invariant
            from <= i <= chars@.len(),
            rest == chars@.skip(from as int),
            forall|j: int| from <= j < i ==> chars@[j] != '/',
            first_slash(rest) matches Some(k) ==> 0 <= k < rest.len() && rest[k] == '/' && forall|
                j: int,
            | 0 <= j < k ==> rest[j] != '/',
            first_slash(rest) is None ==> forall|j: int| 0 <= j < rest.len() ==> rest[j] != '/',
        decreases chars@.len() - i,
    {
        if chars[i] == '/' {
            proof {
                assert(rest[i - from] == '/');
                if let Some(k) = first_slash(rest) {
                    if k < i - from {
                        assert(rest[k] == chars@[from + k]);
                    }
                    if k > i - from {
                        assert(rest[i - from] != '/');
                    }
                }
            }
            return Some(i);
        }
        i = i + 1;
    }
    proof {
        if let Some(k) = first_slash(rest) {
            assert(rest[k] == chars@[from + k]);
        }
    }
    None
}

/// The name cut at slashes into at most `n` pieces, the last keeping the
/// rest of the name.
fn split_name(name: &str, n: usize) -> (r: Vec<String>)
    requires
        n >= 1,
    ensures
        r@.map_values(|p: String| p@) == split_pieces(name@, n as nat),
{
    let chars = crate::text::chars_of(name);
    let count = chars.len();
    let mut pieces: Vec<String> = Vec::new();
    let mut from: usize = 0;
    let mut left: usize = n;
    proof {
        assert(name@.skip(0) =~= name@);
    }
    loop
        invariant
            from <= chars@.len(),
            count == chars@.len(),
            chars@ == name@,
            1 <= left <= n,
            pieces@.map_values(|p: String| p@) + split_pieces(name@.skip(from as int), left as nat)
                == split_pieces(name@, n as nat),
        decreases chars@.len() - from, left,
    {
        let ghost rest = name@.skip(from as int);
        if left <= 1 {
            let last = name.substring_char(from, chars.len()).to_owned();
            let ghost before = pieces@.map_values(|p: String| p@);
            pieces.push(last);
            proof {
                assert(name@.subrange(from as int, chars@.len() as int) =~= rest);
                assert(pieces@.map_values(|p: String| p@) =~= before.push(rest));
                assert(split_pieces(rest, left as nat) == seq![rest]);
                assert(before + seq![rest] =~= before.push(rest));
            }
            return pieces;
        }
        match find_slash(&chars, from) {
            None => {
                let last = name.substring_char(from, chars.len()).to_owned();
                let ghost before = pieces@.map_values(|p: String| p@);
                pieces.push(last);
                proof {
                    assert(name@.subrange(from as int, chars@.len() as int) =~= rest);
                    assert(pieces@.map_values(|p: String| p@) =~= before.push(rest));
                    assert(before + seq![rest] =~= before.push(rest));
                }
                return pieces;
            },
            Some(k) => {
                let piece = name.substring_char(from, k).to_owned();
                let ghost before = pieces@.map_values(|p: String| p@);
                pieces.push(piece);
                proof {
                    let j = k - from;
                    assert(name@.subrange(from as int, k as int) =~= rest.take(j));
                    assert(rest.skip(j + 1) =~= name@.skip(k + 1));
                    assert(pieces@.map_values(|p: String| p@) =~= before.push(rest.take(j)));
                    assert(split_pieces(rest, left as nat) == seq![rest.take(j)] + split_pieces(
                        rest.skip(j + 1),
                        (left - 1) as nat,
                    ));
                    assert(before.push(rest.take(j)) + split_pieces(
                        name@.skip(k + 1),
                        (left - 1) as nat,
                    ) =~= before + (seq![rest.take(j)] + split_pieces(
                        rest.skip(j + 1),
                        (left - 1) as nat,
                    )));
                }
                from = k + 1;
                left = left - 1;
            },
        }
    }
}

/// The folders of a branch name followed by its leaf.
pub fn name_parts(name: &str) -> (r: Vec<String>)
    ensures
        r@.map_values(|p: String| p@) == name_pieces(name@),
{
    split_name(name, MAX_FOLDER_DEPTH + 1)
}

/// Display the branch suffix corresponding to a branch row's depth. This
/// also preserves the full remaining suffix when a branch exceeds the depth
/// budget.
pub fn branch_label(name: &str, depth: usize) -> (r: String)
    ensures
        r@ == label_at(name@, depth as nat),
{
    let d = if depth <= MAX_FOLDER_DEPTH {
        depth
    } else {
        MAX_FOLDER_DEPTH
    };
    let pieces = split_name(name, d + 1);
    proof {
        assert(pieces@.map_values(|p: String| p@).len() == pieces@.len());
    }
    if d < pieces.len() {
        proof {
            assert(pieces@.map_values(|p: String| p@)[d as int] == pieces@[d as int]@);
        }
        pieces[d].clone()
    } else {
        name.to_owned()
    }
}

/// The key prefix of folders on each side of the navigation list.
pub fn prefix(remote: bool) -> (r: &'static str)
    ensures
        r@ == (if remote {
            "remote:"@
        } else {
            "local:"@
        }),
{
    if remote {
        "remote:"
    } else {
        "local:"
    }
}

/// A branch as the navigation list reads it: its full name, which side it
/// is on, and whether it is checked out.
#[derive(Clone, Debug, PartialEq, Eq)]
pub struct BranchRef {
    pub name: String,
    pub remote: bool,
    pub current: bool,
}

/// One visible line of the navigation list.
#[derive(Clone, Debug, PartialEq, Eq)]
pub enum Row {
    Folder { key: String, label: String, depth: usize, count: usize, expanded: bool },
    Branch {
        /// Index in the original, unfiltered branch list supplied by the caller.
        index: usize,
        depth: usize,
    },
}

pub enum RowModel {
    Folder { key: Seq<char>, label: Seq<char>, depth: nat, count: nat, expanded: bool },
    Branch { index: usize, depth: nat },
}

impl View for Row {
    type V = RowModel;

    open spec fn view(&self) -> RowModel {
        match self {
            Row::Folder { key, label, depth, count, expanded } => RowModel::Folder {
                key: key@,
                label: label@,
                depth: *depth as nat,
                count: *count as nat,
                expanded: *expanded,
            },
            Row::Branch { index, depth } => RowModel::Branch { index: *index, depth: *depth as nat },
        }
    }
}

pub open spec fn row_views(rows: Seq<Row>) -> Seq<RowModel> {
    rows.map_values(|r: Row| r@)
}

/// A branch still to be placed: its index and the pieces of its name below
/// the current folder.
pub type Placement = (usize, Seq<Seq<char>>);

pub open spec fn text_key(s: Seq<char>) -> Seq<u8> {
    vstd::utf8::encode_utf8(s)
}

/// `sorted` with `label` added in byte order, unless it is already there.
pub open spec fn insert_label(sorted: Seq<Seq<char>>, label: Seq<char>) -> Seq<Seq<char>>
    decreases sorted.len(),
{
    if sorted.len() == 0 {
        seq![label]
    } else if sorted[0] == label {
        sorted
    } else if bytes_less(text_key(label), text_key(sorted[0])) {
        seq![label] + sorted
    } else {
        seq![sorted[0]] + insert_label(sorted.drop_first(), label)
    }
}

/// The folder names at one level, each once, in byte order.
pub open spec fn folder_labels(entries: Seq<Placement>) -> Seq<Seq<char>>
    decreases entries.len(),
{
    if entries.len() == 0 {
        seq![]
    } else if entries.last().1.len() >= 2 {
        insert_label(folder_labels(entries.drop_last()), entries.last().1[0])
    } else {
        folder_labels(entries.drop_last())
    }
}

/// Placements that continue inside the folder `label`.
pub open spec fn inside(label: Seq<char>) -> spec_fn(Placement) -> bool {
    |e: Placement| e.1.len() >= 2 && e.1[0] == label
}

/// Placements whose leaf is at this level.
pub open spec fn at_leaf() -> spec_fn(Placement) -> bool {
    |e: Placement| e.1.len() == 1
}

/// The placements inside folder `label`, one level down.
pub open spec fn children_of(entries: Seq<Placement>, label: Seq<char>) -> Seq<Placement> {
    entries.filter(inside(label)).map_values(|e: Placement| (e.0, e.1.drop_first()))
}

/// The leaves of this level keyed by their displayed name and index.
pub open spec fn leaf_keys(entries: Seq<Placement>) -> Seq<(Seq<u8>, int)> {
    entries.filter(at_leaf()).map_values(|e: Placement| (text_key(e.1[0]), e.0 as int))
}

/// A folder's key: the parent's key and the folder's name, joined by `/`
/// below the top level.
pub open spec fn folder_key(parent: Seq<char>, depth: nat, label: Seq<char>) -> Seq<char> {
    if depth == 0 {
        parent + label
    } else {
        parent + "/"@ + label
    }
}

/// The rows of one level: each folder in name order with its count of
/// branches, followed by its own rows while it is expanded, then the
/// branches of this level by displayed name and index. `room` is the number
/// of levels that may still follow.
pub open spec fn tree_rows(
    entries: Seq<Placement>,
    parent: Seq<char>,
    depth: nat,
    searching: bool,
    expanded: Seq<Seq<char>>,
    room: nat,
) -> Seq<RowModel>
    decreases room, 1nat, 0nat,
{
    folder_rows(entries, folder_labels(entries), parent, depth, searching, expanded, room)
        + leaf_rows(sort_entries(leaf_keys(entries)), depth)
}

pub open spec fn folder_rows(
    entries: Seq<Placement>,
    labels: Seq<Seq<char>>,
    parent: Seq<char>,
    depth: nat,
    searching: bool,
    expanded: Seq<Seq<char>>,
    room: nat,
) -> Seq<RowModel>
    decreases room, 0nat, labels.len(),
{
    if labels.len() == 0 {
        seq![]
    } else {
        let label = labels.last();
        let key = folder_key(parent, depth, label);
        let open = searching || expanded.contains(key);
        folder_rows(entries, labels.drop_last(), parent, depth, searching, expanded, room) + seq![
            RowModel::Folder {
                key: key,
                label: label,
                depth: depth,
                count: children_of(entries, label).len(),
                expanded: open,
            },
        ] + if open && room > 0 {
            tree_rows(
                children_of(entries, label),
                key,
                depth + 1,
                searching,
                expanded,
                (room - 1) as nat,
            )
        } else {
            Seq::<RowModel>::empty()
        }
    }
}

pub open spec fn leaf_rows(order: Seq<(Seq<u8>, int)>, depth: nat) -> Seq<RowModel> {
    order.map_values(|e: (Seq<u8>, int)| RowModel::Branch { index: e.1 as usize, depth: depth })
}

pub open spec fn texts(v: Seq<String>) -> Seq<Seq<char>> {
    v.map_values(|s: String| s@)
}

pub open spec fn placement_view(e: (usize, Vec<String>)) -> Placement {
    (e.0, texts(e.1@))
}

pub open spec fn placements_view(es: Seq<(usize, Vec<String>)>) -> Seq<Placement> {
    es.map_values(|e: (usize, Vec<String>)| placement_view(e))
}

/// Where `label` goes in a sorted list of distinct labels.
proof fn lemma_label_position(sorted: Seq<Seq<char>>, label: Seq<char>, pos: int)
    requires
        0 <= pos <= sorted.len(),
        forall|j: int|
            0 <= j < pos ==> #[trigger] sorted[j] != label && !bytes_less(
                text_key(label),
                text_key(sorted[j]),
            ),
        pos == sorted.len() || sorted[pos] == label || bytes_less(text_key(label), text_key(sorted[pos])),
    ensures
        insert_label(sorted, label) == if pos < sorted.len() && sorted[pos] == label {
            sorted
        } else {
            sorted.insert(pos, label)
        },
    decreases sorted.len(),
{
    if sorted.len() == 0 {
        assert(sorted.insert(pos, label) =~= seq![label]);
    } else if pos == 0 {
        if sorted[0] != label {
            assert(sorted.insert(0, label) =~= seq![label] + sorted);
        }
    } else {
        let rest = sorted.drop_first();
        assert forall|j: int| 0 <= j < pos - 1 implies #[trigger] rest[j] != label && !bytes_less(
            text_key(label),
            text_key(rest[j]),
        ) by {
            assert(rest[j] == sorted[j + 1]);
        }
        assert(sorted[0] != label);
        lemma_label_position(rest, label, pos - 1);
        if pos < sorted.len() && sorted[pos] == label {
            assert(rest[pos - 1] == sorted[pos]);
            assert(seq![sorted[0]] + rest =~= sorted);
        } else {
            if pos < sorted.len() {
                assert(rest[pos - 1] == sorted[pos]);
            }
            assert(seq![sorted[0]] + rest.insert(pos - 1, label) =~= sorted.insert(pos, label));
        }
    }
}

fn add_label(labels: &mut Vec<String>, label: &String)
    ensures
        texts(final(labels)@) == insert_label(texts(old(labels)@), label@),
{
    let ghost before = texts(labels@);
    let key = label.as_str().as_bytes();
    let mut pos: usize = 0;
    while pos < labels.len() && labels[pos] != *label && !crate::text::bytes_before(
        key,
        labels[pos].as_str().as_bytes(),
    )
        invariant
            pos <= labels@.len(),
            before == texts(labels@),
            key@ == text_key(label@),
            forall|j: int|
                0 <= j < pos ==> #[trigger] before[j] != label@ && !bytes_less(
                    text_key(label@),
                    text_key(before[j]),
                ),
        decreases labels@.len() - pos,
    {
        proof {
            assert(before[pos as int] == labels@[pos as int]@);
        }
        pos = pos + 1;
    }
    proof {
        if pos < labels@.len() {
            assert(before[pos as int] == labels@[pos as int]@);
        }
        lemma_label_position(before, label@, pos as int);
    }
    if pos < labels.len() && labels[pos] == *label {
        return;
    }
    labels.insert(pos, label.clone());
    proof {
        assert(texts(labels@) =~= before.insert(pos as int, label@));
    }
}

fn collect_folder_labels(entries: &Vec<(usize, Vec<String>)>) -> (r: Vec<String>)
    ensures
        texts(r@) == folder_labels(placements_view(entries@)),
{
    let ghost all = placements_view(entries@);
    let mut labels: Vec<String> = Vec::new();
    let mut i: usize = 0;
    proof {
        assert(texts(labels@) =~= Seq::<Seq<char>>::empty());
        assert(all.take(0) =~= Seq::<Placement>::empty());
    }
    while i < entries.len()
        invariant
            i <= entries@.len(),
            all == placements_view(entries@),
            texts(labels@) == folder_labels(all.take(i as int)),
        decreases entries@.len() - i,
    {
        let ghost grown = all.take(i + 1);
        proof {
            assert(grown.drop_last() =~= all.take(i as int));
            assert(grown.last() == placement_view(entries@[i as int]));
        }
        if entries[i].1.len() >= 2 {
            proof {
                assert(texts(entries@[i as int].1@)[0] == entries@[i as int].1@[0]@);
            }
            add_label(&mut labels, &entries[i].1[0]);
        }
        i = i + 1;
    }
    proof {
        assert(all.take(all.len() as int) =~= all);
    }
    labels
}

fn copy_texts(v: &Vec<String>, from: usize) -> (r: Vec<String>)
    requires
        from <= v@.len(),
    ensures
        texts(r@) == texts(v@).skip(from as int),
{
    let mut r: Vec<String> = Vec::new();
    let mut i: usize = from;
    proof {
        assert(texts(r@) =~= texts(v@).subrange(from as int, from as int));
    }
    while i < v.len()
        invariant
            from <= i <= v@.len(),
            texts(r@) == texts(v@).subrange(from as int, i as int),
        decreases v@.len() - i,
    {
        let ghost before = texts(r@);
        r.push(v[i].clone());
        proof {
            assert(texts(r@) =~= before.push(v@[i as int]@));
            assert(texts(v@).subrange(from as int, i + 1) =~= texts(v@).subrange(
                from as int,
                i as int,
            ).push(v@[i as int]@));
        }
        i = i + 1;
    }
    proof {
        assert(texts(v@).subrange(from as int, v@.len() as int) =~= texts(v@).skip(from as int));
    }
    r
}

fn children(entries: &Vec<(usize, Vec<String>)>, label: &String) -> (r: Vec<(usize, Vec<String>)>)
    ensures
        placements_view(r@) == children_of(placements_view(entries@), label@),
{
    let ghost all = placements_view(entries@);
    let mut found: Vec<(usize, Vec<String>)> = Vec::new();
    let mut i: usize = 0;
    proof {
        assert(all.take(0) =~= Seq::<Placement>::empty());
        assert(placements_view(found@) =~= Seq::<Placement>::empty());
    }
    while i < entries.len()
        invariant
            i <= entries@.len(),
            all == placements_view(entries@),
            placements_view(found@) == all.take(i as int).filter(inside(label@)).map_values(
                |e: Placement| (e.0, e.1.drop_first()),
            ),
        decreases entries@.len() - i,
    {
        let ghost grown = all.take(i + 1);
        proof {
            reveal(Seq::filter);
            assert(grown.drop_last() =~= all.take(i as int));
            assert(grown.last() == placement_view(entries@[i as int]));
        }
        let pieces = &entries[i].1;
        if pieces.len() >= 2 && pieces[0] == *label {
            let rest = copy_texts(pieces, 1);
            let ghost before = placements_view(found@);
            let item = (entries[i].0, rest);
            let ghost v = placement_view(item);
            found.push(item);
            proof {
                assert(placements_view(found@) =~= before.push(v));
                assert(texts(pieces@).skip(1) =~= texts(pieces@).drop_first());
                assert(texts(pieces@)[0] == pieces@[0]@);
                assert(inside(label@)(grown.last()));
                assert(grown.filter(inside(label@)) == all.take(i as int).filter(inside(label@)).push(
                    grown.last(),
                ));
                assert(grown.filter(inside(label@)).map_values(|e: Placement| (e.0, e.1.drop_first()))
                    =~= all.take(i as int).filter(inside(label@)).map_values(
                    |e: Placement| (e.0, e.1.drop_first()),
                ).push(v));
            }
        } else {
            proof {
                if pieces@.len() >= 2 {
                    assert(texts(pieces@)[0] == pieces@[0]@);
                }
                assert(!inside(label@)(grown.last()));
                assert(grown.filter(inside(label@)) == all.take(i as int).filter(inside(label@)));
            }
        }
        i = i + 1;
    }
    proof {
        assert(all.take(all.len() as int) =~= all);
    }
    found
}

fn leaf_order(entries: &Vec<(usize, Vec<String>)>) -> (r: Vec<KeyedIndex>)
    ensures
        keyed_views(r@) == sort_entries(leaf_keys(placements_view(entries@))),
{
    let ghost all = placements_view(entries@);
    let mut keys: Vec<KeyedIndex> = Vec::new();
    let mut i: usize = 0;
    proof {
        assert(all.take(0) =~= Seq::<Placement>::empty());
        assert(keyed_views(keys@) =~= Seq::<(Seq<u8>, int)>::empty());
    }
    while i < entries.len()
        invariant
            i <= entries@.len(),
            all == placements_view(entries@),
            keyed_views(keys@) == all.take(i as int).filter(at_leaf()).map_values(
                |e: Placement| (text_key(e.1[0]), e.0 as int),
            ),
        decreases entries@.len() - i,
    {
        let ghost grown = all.take(i + 1);
        proof {
            reveal(Seq::filter);
            assert(grown.drop_last() =~= all.take(i as int));
            assert(grown.last() == placement_view(entries@[i as int]));
        }
        if entries[i].1.len() == 1 {
            let key = crate::project_library::copy_bytes(entries[i].1[0].as_str().as_bytes());
            let ghost before = keyed_views(keys@);
            let entry = KeyedIndex { key, index: entries[i].0 };
            let ghost v = entry@;
            keys.push(entry);
            proof {
                assert(texts(entries@[i as int].1@)[0] == entries@[i as int].1@[0]@);
                assert(keyed_views(keys@) =~= before.push(v));
                assert(at_leaf()(grown.last()));
                assert(grown.filter(at_leaf()) == all.take(i as int).filter(at_leaf()).push(
                    grown.last(),
                ));
                assert(grown.filter(at_leaf()).map_values(
                    |e: Placement| (text_key(e.1[0]), e.0 as int),
                ) =~= before.push(v));
            }
        } else {
            proof {
                assert(!at_leaf()(grown.last()));
            }
        }
        i = i + 1;
    }
    proof {
        assert(all.take(all.len() as int) =~= all);
    }
    sort_keyed(keys)
}

fn contains_text(list: &Vec<String>, key: &String) -> (r: bool)
    ensures
        r == texts(list@).contains(key@),
{
    let mut i: usize = 0;
    while i < list.len()
        invariant
            i <= list@.len(),
            forall|j: int| 0 <= j < i ==> #[trigger] texts(list@)[j] != key@,
        decreases list@.len() - i,
    {
        proof {
            assert(texts(list@)[i as int] == list@[i as int]@);
        }
        if list[i] == *key {
            proof {
                assert(texts(list@)[i as int] == key@);
            }
            return true;
        }
        i = i + 1;
    }
    false
}

/// Each folder name of a level comes from a placement that continues into it.
proof fn lemma_labels_come_from_entries(entries: Seq<Placement>)
    ensures
        forall|k: int|
            #![trigger folder_labels(entries)[k]]
            0 <= k < folder_labels(entries).len() ==> exists|j: int|
                0 <= j < entries.len() && (#[trigger] entries[j]).1.len() >= 2 && entries[j].1[0]
                    == folder_labels(entries)[k],
    decreases entries.len(),
{
    if entries.len() == 0 {
        assert(folder_labels(entries) =~= Seq::<Seq<char>>::empty());
    } else {
        let prefix = entries.drop_last();
        lemma_labels_come_from_entries(prefix);
        let before = folder_labels(prefix);
        if entries.last().1.len() >= 2 {
            let label = entries.last().1[0];
            lemma_insert_label_members(before, label);
        }
        assert forall|k: int|
            #![trigger folder_labels(entries)[k]]
            0 <= k < folder_labels(entries).len() implies exists|j: int|
            0 <= j < entries.len() && (#[trigger] entries[j]).1.len() >= 2 && entries[j].1[0]
                == folder_labels(entries)[k] by {
            let l = folder_labels(entries)[k];
            let last = entries.len() - 1;
            assert(entries[last] == entries.last());
            if entries.last().1.len() >= 2 {
                if l != entries.last().1[0] {
                    let m = choose|m: int| 0 <= m < before.len() && before[m] == l;
                    let j = choose|j: int|
                        0 <= j < prefix.len() && (#[trigger] prefix[j]).1.len() >= 2 && prefix[j].1[0]
                            == before[m];
                    assert(entries[j] == prefix[j]);
                }
            } else {
                assert(folder_labels(entries) == before);
                let j = choose|j: int|
                    0 <= j < prefix.len() && (#[trigger] prefix[j]).1.len() >= 2 && prefix[j].1[0]
                        == before[k];
                assert(entries[j] == prefix[j]);
            }
        }
    }
}

/// What inserting a label keeps: the old labels and the new one, nothing else.
proof fn lemma_insert_label_members(sorted: Seq<Seq<char>>, label: Seq<char>)
    ensures
        forall|k: int|
            0 <= k < insert_label(sorted, label).len() ==> #[trigger] insert_label(sorted, label)[k]
                == label || exists|m: int|
                0 <= m < sorted.len() && sorted[m] == insert_label(sorted, label)[k],
    decreases sorted.len(),
{
    if sorted.len() > 0 && sorted[0] != label && !bytes_less(text_key(label), text_key(sorted[0])) {
        let rest = sorted.drop_first();
        lemma_insert_label_members(rest, label);
        let r = insert_label(sorted, label);
        assert forall|k: int| 0 <= k < r.len() implies #[trigger] r[k] == label || exists|m: int|
            0 <= m < sorted.len() && sorted[m] == r[k] by {
            if k == 0 {
                assert(sorted[0] == r[0]);
            } else {
                let t = insert_label(rest, label);
                assert(r[k] == t[k - 1]);
                if t[k - 1] != label {
                    let m = choose|m: int| 0 <= m < rest.len() && rest[m] == t[k - 1];
                    assert(sorted[m + 1] == rest[m]);
                }
            }
        }
    } else if sorted.len() > 0 && sorted[0] != label {
        let r = insert_label(sorted, label);
        assert forall|k: int| 0 <= k < r.len() implies #[trigger] r[k] == label || exists|m: int|
            0 <= m < sorted.len() && sorted[m] == r[k] by {
            if k > 0 {
                assert(r[k] == sorted[k - 1]);
            }
        }
    } else if sorted.len() > 0 {
        let r = insert_label(sorted, label);
        assert forall|k: int| 0 <= k < r.len() implies #[trigger] r[k] == label || exists|m: int|
            0 <= m < sorted.len() && sorted[m] == r[k] by {
            assert(sorted[k] == r[k]);
        }
    }
}

/// The placements one level down keep between one piece and `room`.
proof fn lemma_children_fit(entries: Seq<Placement>, label: Seq<char>, room: nat)
    requires
        forall|j: int| 0 <= j < entries.len() ==> 1 <= (#[trigger] entries[j]).1.len() <= room + 1,
    ensures
        forall|j: int|
            0 <= j < children_of(entries, label).len() ==> 1 <= (
            #[trigger] children_of(entries, label)[j]).1.len() <= room,
{
    let kept = entries.filter(inside(label));
    assert forall|j: int| 0 <= j < children_of(entries, label).len() implies 1 <= (
    #[trigger] children_of(entries, label)[j]).1.len() <= room by {
        entries.lemma_filter_pred(inside(label), j);
        assert(kept.contains(kept[j]));
        entries.lemma_filter_contains_rev(inside(label), kept[j]);
        let m = choose|m: int| 0 <= m < entries.len() && entries[m] == kept[j];
        assert(children_of(entries, label)[j] == (kept[j].0, kept[j].1.drop_first()));
    }
}

fn collect_tree(
    entries: &Vec<(usize, Vec<String>)>,
    parent: &String,
    depth: usize,
    searching: bool,
    expanded: &Vec<String>,
    rows: &mut Vec<Row>,
    Ghost(room): Ghost<nat>,
)
    requires
        depth + room <= MAX_FOLDER_DEPTH,
        forall|j: int|
            0 <= j < entries@.len() ==> 1 <= (#[trigger] placements_view(entries@)[j]).1.len()
                <= room + 1,
    ensures
        row_views(final(rows)@) == row_views(old(rows)@) + tree_rows(
            placements_view(entries@),
            parent@,
            depth as nat,
            searching,
            texts(expanded@),
            room,
        ),
    decreases room,
{
    let ghost all = placements_view(entries@);
    let ghost opened = texts(expanded@);
    let labels = collect_folder_labels(entries);
    let ghost names = texts(labels@);
    let ghost start = row_views(rows@);
    proof {
        lemma_labels_come_from_entries(all);
        assert(names.take(0) =~= Seq::<Seq<char>>::empty());
        if names.len() > 0 {
            assert(names[0] == folder_labels(all)[0]);
            let j = choose|j: int|
                0 <= j < all.len() && (#[trigger] all[j]).1.len() >= 2 && all[j].1[0]
                    == folder_labels(all)[0];
            assert(room >= 1);
        }
    }
    let mut k: usize = 0;
    while k < labels.len()
        invariant
            k <= labels@.len(),
            all == placements_view(entries@),
            opened == texts(expanded@),
            names == texts(labels@),
            names == folder_labels(all),
            depth + room <= MAX_FOLDER_DEPTH,
            forall|j: int| 0 <= j < all.len() ==> 1 <= (#[trigger] all[j]).1.len() <= room + 1,
            names.len() == 0 || room >= 1,
            row_views(rows@) == start + folder_rows(
                all,
                names.take(k as int),
                parent@,
                depth as nat,
                searching,
                opened,
                room,
            ),
        decreases labels@.len() - k,
    {
        let label = &labels[k];
        proof {
            assert(names[k as int] == label@);
            assert(names.take(k + 1).drop_last() =~= names.take(k as int));
            assert(names.take(k + 1).last() == label@);
        }
        let mut key = parent.clone();
        if depth > 0 {
            crate::text::push_text(&mut key, "/");
        }
        crate::text::push_text(&mut key, label.as_str());
        proof {
            assert(key@ == folder_key(parent@, depth as nat, label@));
        }
        let open = searching || contains_text(expanded, &key);
        let inner = children(entries, label);
        let ghost before = row_views(rows@);
        rows.push(
            Row::Folder {
                key: key.clone(),
                label: label.clone(),
                depth,
                count: inner.len(),
                expanded: open,
            },
        );
        let ghost head = row_views(rows@).last();
        proof {
            assert(row_views(rows@) =~= before.push(head));
            assert(placements_view(inner@).len() == inner@.len());
        }
        if open {
            proof {
                lemma_children_fit(all, label@, room);
            }
            collect_tree(
                &inner,
                &key,
                depth + 1,
                searching,
                expanded,
                rows,
                Ghost((room - 1) as nat),
            );
            proof {
                assert(row_views(rows@) =~= start + (folder_rows(
                    all,
                    names.take(k as int),
                    parent@,
                    depth as nat,
                    searching,
                    opened,
                    room,
                ) + seq![head] + tree_rows(
                    children_of(all, label@),
                    key@,
                    (depth + 1) as nat,
                    searching,
                    opened,
                    (room - 1) as nat,
                )));
            }
        } else {
            proof {
                assert(row_views(rows@) =~= start + (folder_rows(
                    all,
                    names.take(k as int),
                    parent@,
                    depth as nat,
                    searching,
                    opened,
                    room,
                ) + seq![head] + Seq::<RowModel>::empty()));
            }
        }
        k = k + 1;
    }
    proof {
        assert(names.take(names.len() as int) =~= names);
    }
    let order = leaf_order(entries);
    let ghost middle = row_views(rows@);
    let ghost ordered = keyed_views(order@);
    let mut m: usize = 0;
    while m < order.len()
        invariant
            m <= order@.len(),
            ordered == keyed_views(order@),
            row_views(rows@) == middle + leaf_rows(ordered.take(m as int), depth as nat),
        decreases order@.len() - m,
    {
        let ghost before = row_views(rows@);
        rows.push(Row::Branch { index: order[m].index, depth });
        proof {
            assert(ordered[m as int].1 == order@[m as int].index as int);
            assert(row_views(rows@) =~= before.push(
                RowModel::Branch { index: order@[m as int].index, depth: depth as nat },
            ));
            assert(leaf_rows(ordered.take(m + 1), depth as nat) =~= leaf_rows(
                ordered.take(m as int),
                depth as nat,
            ).push(RowModel::Branch { index: order@[m as int].index, depth: depth as nat }));
        }
        m = m + 1;
    }
    proof {
        assert(ordered.take(ordered.len() as int) =~= ordered);
    }
}

pub struct BranchModel {
    pub name: Seq<char>,
    pub remote: bool,
    pub current: bool,
}

impl View for BranchRef {
    type V = BranchModel;

    open spec fn view(&self) -> BranchModel {
        BranchModel { name: self.name@, remote: self.remote, current: self.current }
    }
}

pub open spec fn branch_views(branches: Seq<BranchRef>) -> Seq<BranchModel> {
    branches.map_values(|b: BranchRef| b@)
}

pub open spec fn side_prefix(remote: bool) -> Seq<char> {
    if remote {
        "remote:"@
    } else {
        "local:"@
    }
}

/// Whether a branch is listed: it is on the side shown and, while
/// searching, its lowercase name contains the query.
pub open spec fn shown(b: BranchModel, remote: bool, query: Seq<char>) -> bool {
    b.remote == remote && (query.len() == 0 || contains_bytes(
        vstd::utf8::encode_utf8(lowercase(b.name)),
        vstd::utf8::encode_utf8(query),
    ))
}

/// The listed branches with the pieces of their names, in the caller's order.
pub open spec fn placements(branches: Seq<BranchModel>, remote: bool, query: Seq<char>) -> Seq<
    Placement,
>
    decreases branches.len(),
{
    if branches.len() == 0 {
        seq![]
    } else {
        placements(branches.drop_last(), remote, query) + if shown(
            branches.last(),
            remote,
            query,
        ) {
            seq![((branches.len() - 1) as usize, name_pieces(branches.last().name))]
        } else {
            Seq::<Placement>::empty()
        }
    }
}

/// The navigation rows of one side: folders first, then branch leaves
/// sorted by their displayed suffix. Counts include all matching descendant
/// branches, collapsed ones too. A search matches the complete branch name
/// case-insensitively and reveals every matching folder.
pub open spec fn navigation_rows(
    branches: Seq<BranchModel>,
    remote: bool,
    query: Seq<char>,
    expanded: Seq<Seq<char>>,
) -> Seq<RowModel> {
    let q = lowercase(trim(query));
    tree_rows(
        placements(branches, remote, q),
        side_prefix(remote),
        0,
        q.len() > 0,
        expanded,
        MAX_FOLDER_DEPTH as nat,
    )
}

/// Splitting yields at least one piece and at most `n`.
proof fn lemma_split_pieces_len(s: Seq<char>, n: nat)
    requires
        n >= 1,
    ensures
        1 <= split_pieces(s, n).len() <= n,
    decreases s.len(),
{
    if n > 1 {
        lemma_first_slash(s);
        if let Some(k) = first_slash(s) {
            lemma_split_pieces_len(s.skip(k + 1), (n - 1) as nat);
        }
    }
}

/// The rows of the navigation list for one side. Folder expansion belongs
/// to the caller, so rebuilding cannot reopen a folder the user collapsed.
pub fn branch_rows(branches: &Vec<BranchRef>, remote: bool, query: &str, expanded: &Vec<String>) -> (r: Vec<Row>)
    ensures
        row_views(r@) == navigation_rows(branch_views(branches@), remote, query@, texts(expanded@)),
{
    let trimmed_query = trimmed(query);
    let q = to_lowercase(trimmed_query.as_str());
    let searching = !q.as_str().is_empty();
    let ghost all = branch_views(branches@);
    let mut entries: Vec<(usize, Vec<String>)> = Vec::new();
    let mut i: usize = 0;
    proof {
        assert(placements_view(entries@) =~= Seq::<Placement>::empty());
        assert(all.take(0) =~= Seq::<BranchModel>::empty());
    }
    while i < branches.len()
        invariant
            i <= branches@.len(),
            all == branch_views(branches@),
            q@ == lowercase(trim(query@)),
            searching == (q@.len() > 0),
            placements_view(entries@) == placements(all.take(i as int), remote, q@),
            forall|j: int|
                0 <= j < entries@.len() ==> 1 <= (#[trigger] placements_view(entries@)[j]).1.len()
                    <= MAX_FOLDER_DEPTH + 1,
        decreases branches@.len() - i,
    {
        let ghost grown = all.take(i + 1);
        proof {
            assert(grown.drop_last() =~= all.take(i as int));
            assert(grown.last() == branches@[i as int]@);
        }
        let b = &branches[i];
        let listed = b.remote == remote && (!searching || text_contains(
            to_lowercase(b.name.as_str()).as_str(),
            q.as_str(),
        ));
        if listed {
            let parts = name_parts(b.name.as_str());
            let ghost before = placements_view(entries@);
            let item = (i, parts);
            let ghost v = placement_view(item);
            entries.push(item);
            proof {
                lemma_split_pieces_len(b.name@, (MAX_FOLDER_DEPTH + 1) as nat);
                assert(placements_view(entries@) =~= before.push(v));
                assert(placements(grown, remote, q@) =~= placements(all.take(i as int), remote, q@)
                    + seq![v]);
            }
        } else {
            proof {
                assert(placements(grown, remote, q@) =~= placements(all.take(i as int), remote, q@)
                    + Seq::<Placement>::empty());
            }
        }
        i = i + 1;
    }
    proof {
        assert(all.take(all.len() as int) =~= all);
    }
    let mut rows: Vec<Row> = Vec::new();
    let parent = prefix(remote).to_owned();
    collect_tree(
        &entries,
        &parent,
        0,
        searching,
        expanded,
        &mut rows,
        Ghost(MAX_FOLDER_DEPTH as nat),
    );
    proof {
        assert(row_views(rows@) =~= navigation_rows(all, remote, query@, texts(expanded@)));
    }
    rows
}

/// The key of the folder reached through `folders`, below the prefix.
pub open spec fn joined(prefix: Seq<char>, folders: Seq<Seq<char>>) -> Seq<char>
    decreases folders.len(),
{
    if folders.len() <= 1 {
        prefix + if folders.len() == 1 {
            folders[0]
        } else {
            Seq::<char>::empty()
        }
    } else {
        joined(prefix, folders.drop_last()) + "/"@ + folders.last()
    }
}

/// The keys of every folder on the way to a branch, outermost first.
pub open spec fn chain_keys(prefix: Seq<char>, folders: Seq<Seq<char>>) -> Seq<Seq<char>>
    decreases folders.len(),
{
    if folders.len() == 0 {
        seq![]
    } else {
        chain_keys(prefix, folders.drop_last()).push(joined(prefix, folders))
    }
}

/// `acc` with each of `keys` added that it does not hold yet.
pub open spec fn add_new(acc: Seq<Seq<char>>, keys: Seq<Seq<char>>) -> Seq<Seq<char>>
    decreases keys.len(),
{
    if keys.len() == 0 {
        acc
    } else {
        let before = add_new(acc, keys.drop_last());
        if before.contains(keys.last()) {
            before
        } else {
            before.push(keys.last())
        }
    }
}

/// The folder keys that lead to checked-out branches, each once.
pub open spec fn ancestor_keys(branches: Seq<BranchModel>) -> Seq<Seq<char>>
    decreases branches.len(),
{
    if branches.len() == 0 {
        seq![]
    } else {
        let acc = ancestor_keys(branches.drop_last());
        let b = branches.last();
        if b.current {
            add_new(acc, chain_keys(side_prefix(b.remote), name_pieces(b.name).drop_last()))
        } else {
            acc
        }
    }
}

/// Seed expansion once when a repository is opened. Do not merge this on
/// every rebuild, because doing so would undo the user's explicit collapse
/// actions.
pub fn current_ancestors(branches: &Vec<BranchRef>) -> (r: Vec<String>)
    ensures
        texts(r@) == ancestor_keys(branch_views(branches@)),
{
    let ghost all = branch_views(branches@);
    let mut keys: Vec<String> = Vec::new();
    let mut i: usize = 0;
    proof {
        assert(texts(keys@) =~= Seq::<Seq<char>>::empty());
        assert(all.take(0) =~= Seq::<BranchModel>::empty());
    }
    while i < branches.len()
        invariant
            i <= branches@.len(),
            all == branch_views(branches@),
            texts(keys@) == ancestor_keys(all.take(i as int)),
        decreases branches@.len() - i,
    {
        let ghost grown = all.take(i + 1);
        proof {
            assert(grown.drop_last() =~= all.take(i as int));
            assert(grown.last() == branches@[i as int]@);
        }
        let b = &branches[i];
        if b.current {
            let parts = name_parts(b.name.as_str());
            let ghost pieces = texts(parts@);
            let ghost folders = pieces.drop_last();
            let ghost acc = texts(keys@);
            proof {
                lemma_split_pieces_len(b.name@, (MAX_FOLDER_DEPTH + 1) as nat);
                assert(folders.take(0) =~= Seq::<Seq<char>>::empty());
            }
            let mut key = prefix(b.remote).to_owned();
            let mut d: usize = 0;
            while d < parts.len() - 1
                invariant
                    d + 1 <= parts@.len(),
                    pieces == texts(parts@),
                    folders == pieces.drop_last(),
                    d > 0 ==> key@ == joined(side_prefix(b.remote), folders.take(d as int)),
                    d == 0 ==> key@ == side_prefix(b.remote),
                    texts(keys@) == add_new(
                        acc,
                        chain_keys(side_prefix(b.remote), folders.take(d as int)),
                    ),
                decreases parts@.len() - d,
            {
                if d > 0 {
                    crate::text::push_text(&mut key, "/");
                }
                crate::text::push_text(&mut key, parts[d].as_str());
                let ghost next = folders.take(d + 1);
                proof {
                    assert(pieces[d as int] == parts@[d as int]@);
                    assert(next.drop_last() =~= folders.take(d as int));
                    assert(next.last() == pieces[d as int]);
                    if d == 0 {
                        assert(next.len() == 1);
                        assert(next[0] == pieces[0]);
                    }
                    assert(key@ == joined(side_prefix(b.remote), next));
                }
                let ghost before = texts(keys@);
                proof {
                    let p = side_prefix(b.remote);
                    assert(chain_keys(p, next).drop_last() =~= chain_keys(p, folders.take(d as int)));
                    assert(chain_keys(p, next).last() == key@);
                }
                if !contains_text(&keys, &key) {
                    keys.push(key.clone());
                    proof {
                        assert(texts(keys@) =~= before.push(key@));
                    }
                }
                d = d + 1;
            }
            proof {
                assert(folders.take(folders.len() as int) =~= folders);
            }
        }
        i = i + 1;
    }
    proof {
        assert(all.take(all.len() as int) =~= all);
    }
    keys
}

/// The branches that a side lists, by their position in the caller's list.
pub open spec fn listed_indices(entries: Seq<Placement>) -> Seq<usize> {
    entries.map_values(|p: Placement| p.0)
}

proof fn lemma_listed(branches: Seq<BranchModel>, remote: bool, query: Seq<char>)
    requires
        branches.len() <= usize::MAX,
    ensures
        forall|j: int|
            0 <= j < placements(branches, remote, query).len() ==> {
                let i = (#[trigger] placements(branches, remote, query)[j]).0 as int;
                &&& 0 <= i < branches.len()
                &&& branches[i].remote == remote
                &&& (query.len() == 0 || contains_bytes(
                    vstd::utf8::encode_utf8(lowercase(branches[i].name)),
                    vstd::utf8::encode_utf8(query),
                ))
            },
        forall|i: int|
            0 <= i < branches.len() && branches[i].remote == remote && (query.len() == 0
                || contains_bytes(
                vstd::utf8::encode_utf8(lowercase(branches[i].name)),
                vstd::utf8::encode_utf8(query),
            )) ==> exists|j: int|
                0 <= j < placements(branches, remote, query).len() && (#[trigger] placements(
                    branches,
                    remote,
                    query,
                )[j]).0 == i,
    decreases branches.len(),
{
    if branches.len() > 0 {
        let prefix = branches.drop_last();
        lemma_listed(prefix, remote, query);
        let before = placements(prefix, remote, query);
        let all = placements(branches, remote, query);
        let n = branches.len() - 1;
        assert forall|j: int| 0 <= j < before.len() implies all[j] == before[j] by {}
        assert forall|i: int| 0 <= i < prefix.len() implies branches[i] == prefix[i] by {}
        assert forall|i: int|
            0 <= i < branches.len() && branches[i].remote == remote && (query.len() == 0
                || contains_bytes(
                vstd::utf8::encode_utf8(lowercase(branches[i].name)),
                vstd::utf8::encode_utf8(query),
            )) implies exists|j: int| 0 <= j < all.len() && (#[trigger] all[j]).0 == i by {
            if i < n {
                assert(prefix[i] == branches[i]);
                let j = choose|j: int| 0 <= j < before.len() && (#[trigger] before[j]).0 == i;
                assert(all[j] == before[j]);
            } else {
                assert(branches.last() == branches[i]);
                assert(shown(branches.last(), remote, query));
                assert(all == before + seq![(n as usize, name_pieces(branches.last().name))]);
                assert(all[before.len() as int].0 == n as usize);
            }
        }
        assert forall|j: int| 0 <= j < all.len() implies {
            let i = (#[trigger] all[j]).0 as int;
            &&& 0 <= i < branches.len()
            &&& branches[i].remote == remote
            &&& (query.len() == 0 || contains_bytes(
                vstd::utf8::encode_utf8(lowercase(branches[i].name)),
                vstd::utf8::encode_utf8(query),
            ))
        } by {
            if j < before.len() {
                assert(all[j] == before[j]);
                assert(prefix[before[j].0 as int] == branches[before[j].0 as int]);
            } else {
                assert(all[j].0 == n as usize);
                assert(branches.last() == branches[n]);
            }
        }
    }
}

/// Branch search ignores case: while searching, a side lists exactly the
/// branches on it whose lowercase name contains the lowercase query, so a
/// branch is found whatever the case of its name or of the query.
pub proof fn law_search_lists_exactly_the_matches(branches: Seq<BranchModel>, remote: bool, query: Seq<char>, i: int)
    requires
        0 <= i < branches.len(),
        branches.len() <= usize::MAX,
        lowercase(trim(query)).len() > 0,
    ensures
        (exists|j: int|
            0 <= j < placements(branches, remote, lowercase(trim(query))).len() && (#[trigger] placements(
                branches,
                remote,
                lowercase(trim(query)),
            )[j]).0 == i) == (branches[i].remote == remote && contains_bytes(
            vstd::utf8::encode_utf8(lowercase(branches[i].name)),
            vstd::utf8::encode_utf8(lowercase(trim(query))),
        )),
{
    lemma_listed(branches, remote, lowercase(trim(query)));
}

/// Which branches a side lists depends on their names only through their
/// lowercase forms: branches whose names differ only in case are listed
/// alike for every query.
pub proof fn law_search_ignores_case(
    branches: Seq<BranchModel>,
    other: Seq<BranchModel>,
    remote: bool,
    query: Seq<char>,
)
    requires
        branches.len() == other.len(),
        forall|i: int|
            0 <= i < branches.len() ==> (#[trigger] branches[i]).remote == other[i].remote && lowercase(
                branches[i].name,
            ) == lowercase(other[i].name),
    ensures
        listed_indices(placements(branches, remote, query)) == listed_indices(
            placements(other, remote, query),
        ),
    decreases branches.len(),
{
    if branches.len() > 0 {
        let a = branches.drop_last();
        let b = other.drop_last();
        assert forall|i: int| 0 <= i < a.len() implies (#[trigger] a[i]).remote == b[i].remote
            && lowercase(a[i].name) == lowercase(b[i].name) by {
            assert(a[i] == branches[i]);
            assert(b[i] == other[i]);
        }
        law_search_ignores_case(a, b, remote, query);
        assert(branches.last() == branches[branches.len() - 1]);
        assert(other.last() == other[other.len() - 1]);
        assert(shown(branches.last(), remote, query) == shown(other.last(), remote, query));
        let pa = placements(a, remote, query);
        let pb = placements(b, remote, query);
        let n = branches.len() - 1;
        if shown(branches.last(), remote, query) {
            let ta = seq![(n as usize, name_pieces(branches.last().name))];
            let tb = seq![(n as usize, name_pieces(other.last().name))];
            assert(placements(branches, remote, query) == pa + ta);
            assert(placements(other, remote, query) == pb + tb);
            assert(listed_indices(pa + ta) =~= listed_indices(pa) + seq![n as usize]);
            assert(listed_indices(pb + tb) =~= listed_indices(pb) + seq![n as usize]);
        } else {
            assert(placements(branches, remote, query) =~= pa);
            assert(placements(other, remote, query) =~= pb);
        }
    }
}

/// The rows depend on the query only through its trimmed lowercase form,
/// so a query typed in any case, with surrounding spaces or not, shows the
/// same rows.
pub proof fn law_query_case_does_not_matter(
    branches: Seq<BranchModel>,
    remote: bool,
    query: Seq<char>,
    other: Seq<char>,
    expanded: Seq<Seq<char>>,
)
    requires
        lowercase(trim(query)) == lowercase(trim(other)),
    ensures
        navigation_rows(branches, remote, query, expanded) == navigation_rows(
            branches,
            remote,
            other,
            expanded,
        ),
{
}

} // verus!
