//! The per-side cache of prepared document pages: at most four pages and
//! sixteen mebibytes, the least recently used page leaving first.

use vstd::prelude::*;

verus! {

pub const CACHE_BYTES: usize = 16_777_216;

pub const CACHE_PAGES: usize = 4;

/// The bytes held by cached pages.
pub open spec fn total_bytes<T>(pages: Seq<(usize, T, usize)>) -> int
    decreases pages.len(),
{
    if pages.len() == 0 {
        0
    } else {
        total_bytes(pages.drop_last()) + pages.last().2
    }
}

/// Where page `index` sits in the cache, least recently used first.
pub open spec fn page_position<T>(pages: Seq<(usize, T, usize)>, index: usize) -> Option<int>
    decreases pages.len(),
{
    if pages.len() == 0 {
        None
    } else {
        match page_position(pages.drop_last(), index) {
            Some(p) => Some(p),
            None => if pages.last().0 == index {
                Some(pages.len() - 1)
            } else {
                None
            },
        }
    }
}

/// The pages left after making room for `bytes` more: the least recently
/// used leave while the cache is full or the budget would be exceeded.
pub open spec fn make_room<T>(pages: Seq<(usize, T, usize)>, bytes: int) -> Seq<(usize, T, usize)>
    decreases pages.len(),
{
    if pages.len() > 0 && (pages.len() >= CACHE_PAGES || total_bytes(pages) + bytes > CACHE_BYTES) {
        make_room(pages.drop_first(), bytes)
    } else {
        pages
    }
}

/// The pages after caching `value` as page `index` with its size: a page
/// over the whole budget is not cached; otherwise an older copy of the page
/// leaves, room is made, and the page becomes the most recently used.
pub open spec fn cached<T>(pages: Seq<(usize, T, usize)>, index: usize, value: T, bytes: usize) -> Seq<
    (usize, T, usize),
> {
    if bytes > CACHE_BYTES {
        pages
    } else {
        let kept = match page_position(pages, index) {
            Some(p) => pages.remove(p),
            None => pages,
        };
        make_room(kept, bytes as int).push((index, value, bytes))
    }
}

/// The pages after looking up page `index`: when cached, it becomes the
/// most recently used.
pub open spec fn promoted<T>(pages: Seq<(usize, T, usize)>, index: usize) -> Seq<(usize, T, usize)> {
    match page_position(pages, index) {
        Some(p) => pages.remove(p).push(pages[p]),
        None => pages,
    }
}

/// Within both bounds, with the byte count kept exact.
pub open spec fn within_budget<T>(pages: Seq<(usize, T, usize)>) -> bool {
    pages.len() <= CACHE_PAGES && total_bytes(pages) <= CACHE_BYTES
}

proof fn lemma_total_concat<T>(a: Seq<(usize, T, usize)>, b: Seq<(usize, T, usize)>)
    ensures
        total_bytes(a + b) == total_bytes(a) + total_bytes(b),
    decreases b.len(),
{
    if b.len() == 0 {
        assert(a + b =~= a);
    } else {
        lemma_total_concat(a, b.drop_last());
        assert((a + b).drop_last() =~= a + b.drop_last());
    }
}

proof fn lemma_total_nonneg<T>(pages: Seq<(usize, T, usize)>)
    ensures
        total_bytes(pages) >= 0,
    decreases pages.len(),
{
    if pages.len() > 0 {
        lemma_total_nonneg(pages.drop_last());
    }
}

/// Taking out one page takes out its bytes.
proof fn lemma_total_remove<T>(pages: Seq<(usize, T, usize)>, p: int)
    requires
        0 <= p < pages.len(),
    ensures
        total_bytes(pages.remove(p)) == total_bytes(pages) - pages[p].2,
        total_bytes(pages.drop_first()) == total_bytes(pages) - pages[0].2,
{
    let a = pages.take(p);
    let one = seq![pages[p]];
    let b = pages.skip(p + 1);
    assert(pages =~= a + one + b);
    assert(pages.remove(p) =~= a + b);
    lemma_total_concat(a + one, b);
    lemma_total_concat(a, one);
    lemma_total_concat(a, b);
    assert(one.drop_last() =~= Seq::<(usize, T, usize)>::empty());
    assert(total_bytes(Seq::<(usize, T, usize)>::empty()) == 0);
    assert(one.last() == pages[p]);
    assert(total_bytes(one) == pages[p].2);
    let first = seq![pages[0]];
    let rest = pages.drop_first();
    assert(pages =~= first + rest);
    lemma_total_concat(first, rest);
    assert(first.drop_last() =~= Seq::<(usize, T, usize)>::empty());
    assert(first.last() == pages[0]);
    assert(total_bytes(first) == pages[0].2);
}

proof fn lemma_position<T>(pages: Seq<(usize, T, usize)>, index: usize)
    ensures
        page_position(pages, index) is None <==> forall|i: int|
            0 <= i < pages.len() ==> #[trigger] pages[i].0 != index,
        page_position(pages, index) matches Some(p) ==> 0 <= p < pages.len() && pages[p].0 == index
            && forall|j: int| 0 <= j < p ==> #[trigger] pages[j].0 != index,
    decreases pages.len(),
{
    if pages.len() > 0 {
        let prefix = pages.drop_last();
        lemma_position(prefix, index);
        match page_position(prefix, index) {
            Some(p) => {
                assert(prefix[p] == pages[p]);
                assert forall|j: int| 0 <= j < p implies #[trigger] pages[j].0 != index by {
                    assert(prefix[j] == pages[j]);
                }
            },
            None => {
                assert forall|j: int| 0 <= j < prefix.len() implies #[trigger] pages[j].0 != index by {
                    assert(prefix[j] == pages[j]);
                }
            },
        }
    }
}

proof fn lemma_make_room<T>(pages: Seq<(usize, T, usize)>, bytes: int)
    requires
        0 <= bytes <= CACHE_BYTES,
    ensures
        make_room(pages, bytes).len() < CACHE_PAGES,
        total_bytes(make_room(pages, bytes)) + bytes <= CACHE_BYTES,
    decreases pages.len(),
{
    if pages.len() > 0 && (pages.len() >= CACHE_PAGES || total_bytes(pages) + bytes > CACHE_BYTES) {
        lemma_make_room(pages.drop_first(), bytes);
    } else if pages.len() == 0 {
        assert(total_bytes(pages) == 0);
    }
}

/// No page is cached twice.
pub open spec fn distinct_pages<T>(pages: Seq<(usize, T, usize)>) -> bool {
    forall|i: int, j: int| 0 <= i < j < pages.len() ==> (#[trigger] pages[i]).0 != (#[trigger] pages[j]).0
}

/// The pages without any copy of page `index`.
pub open spec fn without_page<T>(pages: Seq<(usize, T, usize)>, index: usize) -> Seq<(usize, T, usize)> {
    match page_position(pages, index) {
        Some(p) => pages.remove(p),
        None => pages,
    }
}

proof fn lemma_make_room_suffix<T>(pages: Seq<(usize, T, usize)>, bytes: int)
    ensures
        exists|k: int| 0 <= k <= pages.len() && #[trigger] pages.skip(k) == make_room(pages, bytes),
    decreases pages.len(),
{
    if pages.len() > 0 && (pages.len() >= CACHE_PAGES || total_bytes(pages) + bytes > CACHE_BYTES) {
        lemma_make_room_suffix(pages.drop_first(), bytes);
        let k = choose|k: int|
            0 <= k <= pages.drop_first().len() && #[trigger] pages.drop_first().skip(k) == make_room(
                pages.drop_first(),
                bytes,
            );
        assert(pages.drop_first().skip(k) =~= pages.skip(k + 1));
    } else {
        assert(pages.skip(0) =~= pages);
    }
}

/// Caching a page keeps every page cached once: the page becomes the most
/// recently used entry, no other entry is that page, and the pages that make
/// room leave from the least recently used end. A page over the whole budget
/// leaves the cache as it was.
pub proof fn law_cache_keeps_pages_distinct<T>(
    pages: Seq<(usize, T, usize)>,
    index: usize,
    value: T,
    bytes: usize,
)
    requires
        distinct_pages(pages),
    ensures
        distinct_pages(cached(pages, index, value, bytes)),
        bytes > CACHE_BYTES ==> cached(pages, index, value, bytes) == pages,
        bytes <= CACHE_BYTES ==> {
            &&& cached(pages, index, value, bytes).last() == (index, value, bytes)
            &&& exists|k: int|
                0 <= k <= without_page(pages, index).len() && cached(pages, index, value, bytes)
                    == #[trigger] without_page(pages, index).skip(k).push((index, value, bytes))
        },
{
    lemma_position(pages, index);
    if bytes <= CACHE_BYTES {
        let kept = without_page(pages, index);
        assert forall|i: int| 0 <= i < kept.len() implies (#[trigger] kept[i]).0 != index by {
            match page_position(pages, index) {
                Some(p) => {
                    if i < p {
                        assert(kept[i] == pages[i]);
                    } else {
                        assert(kept[i] == pages[i + 1]);
                        assert(pages[p].0 == index);
                    }
                },
                None => {},
            }
        }
        assert(distinct_pages(kept)) by {
            assert forall|i: int, j: int| 0 <= i < j < kept.len() implies (#[trigger] kept[i]).0 != (
            #[trigger] kept[j]).0 by {
                match page_position(pages, index) {
                    Some(p) => {
                        let ii = if i < p {
                            i
                        } else {
                            i + 1
                        };
                        let jj = if j < p {
                            j
                        } else {
                            j + 1
                        };
                        assert(kept[i] == pages[ii]);
                        assert(kept[j] == pages[jj]);
                    },
                    None => {},
                }
            }
        }
        lemma_make_room_suffix(kept, bytes as int);
        let k = choose|k: int| 0 <= k <= kept.len() && #[trigger] kept.skip(k) == make_room(kept, bytes as int);
        let room = kept.skip(k);
        let after = room.push((index, value, bytes));
        assert(cached(pages, index, value, bytes) == after);
        assert forall|i: int, j: int| 0 <= i < j < after.len() implies (#[trigger] after[i]).0 != (
        #[trigger] after[j]).0 by {
            assert(after[i] == kept[i + k]);
            if j < room.len() {
                assert(after[j] == kept[j + k]);
            } else {
                assert(after[j].0 == index);
            }
        }
    }
}

/// The cache never holds more than four pages or more than its byte
/// budget, whatever is cached.
pub proof fn law_cache_stays_within_budget<T>(
    pages: Seq<(usize, T, usize)>,
    index: usize,
    value: T,
    bytes: usize,
)
    requires
        within_budget(pages),
    ensures
        within_budget(cached(pages, index, value, bytes)),
        within_budget(promoted(pages, index)),
{
    lemma_position(pages, index);
    if bytes <= CACHE_BYTES {
        let kept = match page_position(pages, index) {
            Some(p) => pages.remove(p),
            None => pages,
        };
        lemma_make_room(kept, bytes as int);
        let room = make_room(kept, bytes as int);
        let after = room.push((index, value, bytes));
        assert(after.drop_last() =~= room);
    }
    if let Some(p) = page_position(pages, index) {
        lemma_total_remove(pages, p);
        let after = pages.remove(p).push(pages[p]);
        assert(after.drop_last() =~= pages.remove(p));
    }
}

/// A looked-up page is the last to leave, and the page just cached is found.
pub proof fn law_cache_keeps_recent_pages<T>(
    pages: Seq<(usize, T, usize)>,
    index: usize,
    value: T,
    bytes: usize,
)
    ensures
        page_position(pages, index) is Some ==> promoted(pages, index).last().0 == index,
        bytes <= CACHE_BYTES ==> page_position(cached(pages, index, value, bytes), index) is Some,
{
    lemma_position(pages, index);
    if bytes <= CACHE_BYTES {
        let after = cached(pages, index, value, bytes);
        lemma_position(after, index);
        assert(after[after.len() - 1].0 == index);
    }
}

/// Prepared pages, each with its page number and the bytes it retains,
/// least recently used first.
pub struct Cache<T> {
    pub pages: Vec<(usize, T, usize)>,
    pub bytes: usize,
}

impl<T> Cache<T> {
    /// The byte count is that of the pages, within both bounds.
    pub open spec fn wf(&self) -> bool {
        &&& within_budget(self.pages@)
        &&& self.bytes == total_bytes(self.pages@)
    }

    pub fn new() -> (r: Self)
        ensures
            r.pages@ == Seq::<(usize, T, usize)>::empty(),
            r.wf(),
    {
        Cache { pages: Vec::new(), bytes: 0 }
    }

    fn position(&self, index: usize) -> (r: Option<usize>)
        ensures
            match r {
                Some(p) => page_position(self.pages@, index) == Some(p as int),
                None => page_position(self.pages@, index) is None,
            },
    {
        let mut i: usize = 0;
        while i < self.pages.len()
            invariant
                i <= self.pages@.len(),
                forall|j: int| 0 <= j < i ==> #[trigger] self.pages@[j].0 != index,
            decreases self.pages@.len() - i,
        {
            if self.pages[i].0 == index {
                proof {
                    lemma_position(self.pages@, index);
                    let p = page_position(self.pages@, index);
                    if p is None {
                        assert(self.pages@[i as int].0 == index);
                    } else {
                        let k = p->0;
                        if k < i {
                            assert(self.pages@[k].0 != index);
                        }
                        if i < k {
                            assert(self.pages@[i as int].0 != index);
                        }
                    }
                }
                return Some(i);
            }
            i = i + 1;
        }
        proof {
            lemma_position(self.pages@, index);
        }
        None
    }

    /// Page `index` when it is cached, which makes it the most recently used.
    pub fn get(&mut self, index: usize) -> (r: Option<T>) where T: Clone
        requires
            old(self).wf(),
        ensures
            final(self).wf(),
            final(self).pages@ == promoted(old(self).pages@, index),
            match page_position(old(self).pages@, index) {
                Some(p) => r matches Some(v) && cloned(old(self).pages@[p].1, v),
                None => r is None,
            },
    {
        proof {
            lemma_position(self.pages@, index);
        }
        let ghost before = self.pages@;
        match self.position(index) {
            None => None,
            Some(p) => {
                let item = self.pages.remove(p);
                let result = item.1.clone();
                self.pages.push(item);
                proof {
                    lemma_total_remove(before, p as int);
                    assert(self.pages@.drop_last() =~= before.remove(p as int));
                    assert(self.pages@ =~= before.remove(p as int).push(before[p as int]));
                }
                Some(result)
            },
        }
    }

    /// Cache `value` as page `index`, retaining `bytes`.
    pub fn insert(&mut self, index: usize, value: T, bytes: usize)
        requires
            old(self).wf(),
        ensures
            final(self).wf(),
            final(self).pages@ == cached(old(self).pages@, index, value, bytes),
    {
        if bytes > CACHE_BYTES {
            return;
        }
        let ghost before = self.pages@;
        proof {
            lemma_position(before, index);
        }
        match self.position(index) {
            Some(p) => {
                proof {
                    lemma_total_remove(before, p as int);
                    lemma_total_nonneg(before.remove(p as int));
                }
                let old_page = self.pages.remove(p);
                self.bytes = self.bytes - old_page.2;
            },
            None => {},
        }
        let ghost kept = self.pages@;
        while self.pages.len() > 0 && (self.pages.len() >= CACHE_PAGES || self.bytes + bytes
            > CACHE_BYTES)
            invariant
                bytes <= CACHE_BYTES,
                self.bytes == total_bytes(self.pages@),
                self.bytes <= CACHE_BYTES,
                make_room(self.pages@, bytes as int) == make_room(kept, bytes as int),
            decreases self.pages@.len(),
        {
            proof {
                lemma_total_remove(self.pages@, 0);
                lemma_total_nonneg(self.pages@.drop_first());
            }
            let oldest = self.pages.remove(0);
            self.bytes = self.bytes - oldest.2;
        }
        proof {
            lemma_make_room(kept, bytes as int);
            lemma_total_nonneg(self.pages@);
        }
        let ghost room = self.pages@;
        self.bytes = self.bytes + bytes;
        self.pages.push((index, value, bytes));
        proof {
            assert(self.pages@.drop_last() =~= room);
        }
    }
}

} // verus!
