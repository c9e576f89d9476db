//! Stable ordering by a byte key: entries sort by key, and their original
//! position breaks ties, so the order of equal keys is the saved order.

use vstd::prelude::*;
use crate::paths::bytes_equal;
use vstd::multiset::Multiset;
use crate::text::{bytes_before, bytes_less, lemma_bytes_less_order};

verus! {

/// An entry to sort: its key bytes and its original position.
pub open spec fn entry_less(a: (Seq<u8>, int), b: (Seq<u8>, int)) -> bool {
    bytes_less(a.0, b.0) || (a.0 == b.0 && a.1 < b.1)
}

/// `sorted` with `entry` placed before the first entry it orders before.
pub open spec fn insert_sorted(sorted: Seq<(Seq<u8>, int)>, entry: (Seq<u8>, int)) -> Seq<
    (Seq<u8>, int),
>
    decreases sorted.len(),
{
    if sorted.len() == 0 {
        seq![entry]
    } else if entry_less(entry, sorted[0]) {
        seq![entry] + sorted
    } else {
        seq![sorted[0]] + insert_sorted(sorted.drop_first(), entry)
    }
}

/// The entries in key order, equal keys in their original order.
pub open spec fn sort_entries(entries: Seq<(Seq<u8>, int)>) -> Seq<(Seq<u8>, int)>
    decreases entries.len(),
{
    if entries.len() == 0 {
        seq![]
    } else {
        insert_sorted(sort_entries(entries.drop_last()), entries.last())
    }
}

proof fn lemma_insert_position(sorted: Seq<(Seq<u8>, int)>, entry: (Seq<u8>, int), pos: int)
    requires
        0 <= pos <= sorted.len(),
        forall|j: int| 0 <= j < pos ==> !entry_less(entry, #[trigger] sorted[j]),
        pos == sorted.len() || entry_less(entry, sorted[pos]),
    ensures
        insert_sorted(sorted, entry) == sorted.insert(pos, entry),
    decreases sorted.len(),
{
    if sorted.len() == 0 {
        assert(sorted.insert(pos, entry) =~= seq![entry]);
    } else if pos == 0 {
        assert(sorted.insert(0, entry) =~= seq![entry] + sorted);
    } else {
        let rest = sorted.drop_first();
        assert forall|j: int| 0 <= j < pos - 1 implies !entry_less(entry, #[trigger] rest[j]) by {
            assert(rest[j] == sorted[j + 1]);
        }
        lemma_insert_position(rest, entry, pos - 1);
        assert(seq![sorted[0]] + rest.insert(pos - 1, entry) =~= sorted.insert(pos, entry));
    }
}

/// A key with the position it came from.
pub struct KeyedIndex {
    pub key: Vec<u8>,
    pub index: usize,
}

impl View for KeyedIndex {
    type V = (Seq<u8>, int);

    open spec fn view(&self) -> (Seq<u8>, int) {
        (self.key@, self.index as int)
    }
}

pub open spec fn keyed_views(entries: Seq<KeyedIndex>) -> Seq<(Seq<u8>, int)> {
    entries.map_values(|e: KeyedIndex| e@)
}

fn orders_before(a: &KeyedIndex, b: &KeyedIndex) -> (r: bool)
    ensures
        r == entry_less(a@, b@),
{
    bytes_before(a.key.as_slice(), b.key.as_slice()) || (bytes_equal(
        a.key.as_slice(),
        b.key.as_slice(),
    ) && a.index < b.index)
}

/// Insert `entry` into a sorted list where `insert_sorted` puts it.
pub fn insert_by_key(sorted: &mut Vec<KeyedIndex>, entry: KeyedIndex)
    ensures
        keyed_views(final(sorted)@) == insert_sorted(keyed_views(old(sorted)@), entry@),
{
    let mut pos: usize = 0;
    while pos < sorted.len() && !orders_before(&entry, &sorted[pos])
        invariant
            pos <= sorted@.len(),
            sorted@ == old(sorted)@,
            forall|j: int|
                0 <= j < pos ==> !entry_less(entry@, #[trigger] keyed_views(sorted@)[j]),
        decreases sorted@.len() - pos,
    {
        pos = pos + 1;
    }
    let ghost before = keyed_views(sorted@);
    proof {
        lemma_insert_position(before, entry@, pos as int);
    }
    let ghost e = entry@;
    sorted.insert(pos, entry);
    proof {
        assert(keyed_views(sorted@) =~= before.insert(pos as int, e));
    }
}

/// Every entry orders no later than each entry after it.
pub open spec fn in_order(entries: Seq<(Seq<u8>, int)>) -> bool {
    forall|i: int, j: int| 0 <= i < j < entries.len() ==> !entry_less(entries[j], entries[i])
}

proof fn lemma_entry_order(a: (Seq<u8>, int), b: (Seq<u8>, int), c: (Seq<u8>, int))
    ensures
        entry_less(a, b) && entry_less(b, c) ==> entry_less(a, c),
        !entry_less(a, a),
{
    lemma_bytes_less_order(a.0, b.0, c.0);
}

proof fn lemma_insert_sorted(sorted: Seq<(Seq<u8>, int)>, entry: (Seq<u8>, int))
    requires
        in_order(sorted),
    ensures
        in_order(insert_sorted(sorted, entry)),
        insert_sorted(sorted, entry).to_multiset() == sorted.to_multiset().insert(entry),
    decreases sorted.len(),
{
    broadcast use vstd::seq_lib::group_to_multiset_ensures;
    broadcast use vstd::seq_lib::lemma_multiset_commutative;

    if sorted.len() == 0 {
        assert(seq![entry] =~= Seq::<(Seq<u8>, int)>::empty().push(entry));
        assert(Seq::<(Seq<u8>, int)>::empty().to_multiset() =~= sorted.to_multiset());
    } else if entry_less(entry, sorted[0]) {
        let r = seq![entry] + sorted;
        assert forall|i: int, j: int| 0 <= i < j < r.len() implies !entry_less(r[j], r[i]) by {
            if i == 0 {
                assert(r[j] == sorted[j - 1]);
                if j - 1 > 0 {
                    assert(!entry_less(sorted[j - 1], sorted[0]));
                }
                lemma_entry_order(sorted[j - 1], entry, sorted[0]);
                lemma_bytes_less_order(entry.0, sorted[0].0, sorted[0].0);
                lemma_bytes_less_order(sorted[j - 1].0, entry.0, sorted[0].0);
            } else {
                assert(r[i] == sorted[i - 1]);
                assert(r[j] == sorted[j - 1]);
            }
        }
        assert(seq![entry] =~= Seq::<(Seq<u8>, int)>::empty().push(entry));
        assert(Seq::<(Seq<u8>, int)>::empty().to_multiset() =~= Multiset::<(Seq<u8>, int)>::empty());
        assert(r.to_multiset() =~= sorted.to_multiset().insert(entry));
    } else {
        let rest = sorted.drop_first();
        assert(in_order(rest)) by {
            assert forall|i: int, j: int| 0 <= i < j < rest.len() implies !entry_less(
                rest[j],
                rest[i],
            ) by {
                assert(rest[i] == sorted[i + 1]);
                assert(rest[j] == sorted[j + 1]);
            }
        }
        lemma_insert_sorted(rest, entry);
        let tail = insert_sorted(rest, entry);
        let r = seq![sorted[0]] + tail;
        assert(r == insert_sorted(sorted, entry));
        assert forall|i: int, j: int| 0 <= i < j < r.len() implies !entry_less(r[j], r[i]) by {
            if i == 0 {
                assert(r[j] == tail[j - 1]);
                assert(tail.to_multiset().count(tail[j - 1]) > 0);
                assert(rest.to_multiset().insert(entry).count(tail[j - 1]) > 0);
                if tail[j - 1] != entry {
                    assert(rest.to_multiset().count(tail[j - 1]) > 0);
                    assert(rest.contains(tail[j - 1]));
                    let m = choose|m: int| 0 <= m < rest.len() && rest[m] == tail[j - 1];
                    assert(sorted[m + 1] == rest[m]);
                }
            } else {
                assert(r[i] == tail[i - 1]);
                assert(r[j] == tail[j - 1]);
            }
        }
        assert(sorted =~= seq![sorted[0]] + rest);
        assert(seq![sorted[0]] =~= Seq::<(Seq<u8>, int)>::empty().push(sorted[0]));
        assert(Seq::<(Seq<u8>, int)>::empty().to_multiset() =~= Multiset::<(Seq<u8>, int)>::empty());
        assert(r.to_multiset() =~= sorted.to_multiset().insert(entry));
    }
}

/// Sorting puts the entries in order, by key and then by original position,
/// and keeps exactly the entries it was given.
pub proof fn law_sort_entries_orders(entries: Seq<(Seq<u8>, int)>)
    ensures
        in_order(sort_entries(entries)),
        sort_entries(entries).to_multiset() == entries.to_multiset(),
    decreases entries.len(),
{
    broadcast use vstd::seq_lib::group_to_multiset_ensures;

    if entries.len() == 0 {
        assert(sort_entries(entries) =~= entries);
    } else {
        law_sort_entries_orders(entries.drop_last());
        lemma_insert_sorted(sort_entries(entries.drop_last()), entries.last());
        assert(entries =~= entries.drop_last().push(entries.last()));
    }
}

/// Entries in key order, equal keys in their original order.
pub fn sort_keyed(entries: Vec<KeyedIndex>) -> (r: Vec<KeyedIndex>)
    ensures
        keyed_views(r@) == sort_entries(keyed_views(entries@)),
{
    let mut sorted: Vec<KeyedIndex> = Vec::new();
    let mut rest = entries;
    let ghost all = keyed_views(rest@);
    let n = rest.len();
    let mut i: usize = 0;
    proof {
        assert(all.take(0) =~= Seq::<(Seq<u8>, int)>::empty());
        assert(keyed_views(sorted@) =~= Seq::<(Seq<u8>, int)>::empty());
        assert(keyed_views(rest@) =~= all.skip(0));
    }
    while i < n
        invariant
            i <= n,
            n == all.len(),
            keyed_views(rest@) == all.skip(i as int),
            keyed_views(sorted@) == sort_entries(all.take(i as int)),
        decreases n - i,
    {
        proof {
            assert(keyed_views(rest@).len() == n - i);
        }
        let ghost before = rest@;
        let entry = rest.remove(0);
        proof {
            assert(entry@ == keyed_views(before)[0]);
            assert(entry@ == all[i as int]);
            assert(rest@ == before.remove(0));
            assert forall|k: int| 0 <= k < rest@.len() implies #[trigger] keyed_views(rest@)[k]
                == all.skip(i + 1)[k] by {
                assert(rest@[k] == before[k + 1]);
                assert(keyed_views(before)[k + 1] == all.skip(i as int)[k + 1]);
            }
            assert(keyed_views(rest@) =~= all.skip(i + 1));
            assert(all.take(i + 1).drop_last() =~= all.take(i as int));
            assert(all.take(i + 1).last() == all[i as int]);
        }
        insert_by_key(&mut sorted, entry);
        i = i + 1;
    }
    proof {
        assert(all.take(n as int) =~= all);
    }
    sorted
}

} // verus!
