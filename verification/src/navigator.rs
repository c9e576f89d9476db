//! Keyboard movement through the navigator's rows.
//!
//! Section headings are announced but never take the cursor; movement stops
//! at either end rather than wrapping, and a cursor whose row disappeared
//! starts again from the first row that can hold it.
use vstd::prelude::*;

verus! {

/// One row of the repository navigator.
#[derive(Clone, Debug, PartialEq, Eq)]
pub enum NavRow {
    /// A heading with its title and how many rows it introduces.
    Section(&'static str, usize),
    All,
    Folder { key: String, label: String, depth: usize, count: usize, expanded: bool },
    /// A branch by its index, at a depth.
    Branch(usize, usize),
    Worktree(usize),
}

/// Whether the cursor may rest on row `i`.
pub open spec fn navigable(rows: Seq<NavRow>, i: int) -> bool {
    !(rows[i] is Section)
}

/// The first row in `lo..hi` that can hold the cursor.
pub open spec fn first_in(rows: Seq<NavRow>, lo: int, hi: int) -> Option<int>
    decreases hi - lo,
{
    if lo >= hi {
        None
    } else if navigable(rows, lo) {
        Some(lo)
    } else {
        first_in(rows, lo + 1, hi)
    }
}

/// The last row in `lo..hi` that can hold the cursor.
pub open spec fn last_in(rows: Seq<NavRow>, lo: int, hi: int) -> Option<int>
    decreases hi - lo,
{
    if lo >= hi {
        None
    } else if navigable(rows, hi - 1) {
        Some(hi - 1)
    } else {
        last_in(rows, lo, hi - 1)
    }
}

pub open spec fn opt_int(o: Option<usize>) -> Option<int> {
    match o {
        Some(i) => Some(i as int),
        None => None,
    }
}

/// Where the cursor moves: `forward` or back one row, or with `boundary`
/// to the last or first row; sections are skipped and the ends hold.
pub open spec fn cursor_after(rows: Seq<NavRow>, cursor: Option<usize>, forward: bool, boundary: bool) -> Option<int> {
    let len = rows.len() as int;
    let current = match cursor {
        Some(c) => if c < len && navigable(rows, c as int) {
            Some(c as int)
        } else {
            None
        },
        None => None,
    };
    if len == 0 {
        None
    } else if boundary {
        if forward {
            last_in(rows, 0, len)
        } else {
            first_in(rows, 0, len)
        }
    } else {
        match current {
            None => first_in(rows, 0, len),
            Some(c) => if forward {
                match first_in(rows, c + 1, len) {
                    Some(i) => Some(i),
                    None => Some(c),
                }
            } else {
                match last_in(rows, 0, c) {
                    Some(i) => Some(i),
                    None => Some(c),
                }
            },
        }
    }
}

fn is_navigable(rows: &[NavRow], i: usize) -> (r: bool)
    requires
        i < rows@.len(),
    ensures
        r == navigable(rows@, i as int),
{
    match &rows[i] {
        NavRow::Section(..) => false,
        _ => true,
    }
}

fn find_first(rows: &[NavRow], lo: usize, hi: usize) -> (r: Option<usize>)
    requires
        lo <= hi <= rows@.len(),
    ensures
        opt_int(r) == first_in(rows@, lo as int, hi as int),
{
    let mut i = lo;
    while i < hi
        invariant
            lo <= i <= hi,
            hi <= rows@.len(),
            first_in(rows@, lo as int, hi as int) == first_in(rows@, i as int, hi as int),
        decreases hi - i,
    {
        if is_navigable(rows, i) {
            return Some(i);
        }
        i = i + 1;
    }
    None
}

fn find_last(rows: &[NavRow], lo: usize, hi: usize) -> (r: Option<usize>)
    requires
        lo <= hi <= rows@.len(),
    ensures
        opt_int(r) == last_in(rows@, lo as int, hi as int),
{
    let mut j = hi;
    while j > lo
        invariant
            lo <= j <= hi,
            hi <= rows@.len(),
            last_in(rows@, lo as int, hi as int) == last_in(rows@, lo as int, j as int),
        decreases j - lo,
    {
        if is_navigable(rows, j - 1) {
            return Some(j - 1);
        }
        j = j - 1;
    }
    None
}

/// The row the cursor moves to.
pub fn next_cursor(rows: &[NavRow], cursor: Option<usize>, forward: bool, boundary: bool) -> (r: Option<usize>)
    ensures
        opt_int(r) == cursor_after(rows@, cursor, forward, boundary),
{
    let len = rows.len();
    if len == 0 {
        return None;
    }
    let current = match cursor {
        Some(c) => if c < len && is_navigable(rows, c) {
            Some(c)
        } else {
            None
        },
        None => None,
    };
    if boundary {
        if forward {
            find_last(rows, 0, len)
        } else {
            find_first(rows, 0, len)
        }
    } else {
        match current {
            None => find_first(rows, 0, len),
            Some(c) => if forward {
                match find_first(rows, c + 1, len) {
                    Some(i) => Some(i),
                    None => Some(c),
                }
            } else {
                match find_last(rows, 0, c) {
                    Some(i) => Some(i),
                    None => Some(c),
                }
            },
        }
    }
}

/// A cursor that moves never lands on a section heading, and stays within
/// the rows.
pub proof fn law_cursor_rests_on_a_navigable_row(rows: Seq<NavRow>, cursor: Option<usize>, forward: bool, boundary: bool)
    ensures
        cursor_after(rows, cursor, forward, boundary) matches Some(i) ==> 0 <= i < rows.len()
            && navigable(rows, i),
{
    let len = rows.len() as int;
    lemma_first_in(rows, 0, len);
    lemma_last_in(rows, 0, len);
    if let Some(c) = cursor {
        lemma_first_in(rows, c + 1, len);
        lemma_last_in(rows, 0, c as int);
    }
}

proof fn lemma_first_in(rows: Seq<NavRow>, lo: int, hi: int)
    ensures
        first_in(rows, lo, hi) matches Some(i) ==> lo <= i < hi && navigable(rows, i),
    decreases hi - lo,
{
    if lo < hi && !navigable(rows, lo) {
        lemma_first_in(rows, lo + 1, hi);
    }
}

proof fn lemma_last_in(rows: Seq<NavRow>, lo: int, hi: int)
    ensures
        last_in(rows, lo, hi) matches Some(i) ==> lo <= i < hi && navigable(rows, i),
    decreases hi - lo,
{
    if lo < hi && !navigable(rows, hi - 1) {
        lemma_last_in(rows, lo, hi - 1);
    }
}

} // verus!
