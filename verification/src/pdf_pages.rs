//! Which page of a PDF preview is shown, and which rendering results may
//! still land on it.
//!
//! Every page change or pause starts a new generation; a worker's result is
//! accepted only for the generation and page it was requested for, so a late
//! result for an earlier page can never be shown. Two linked previews move
//! together, each clamped to its own page count.
use vstd::prelude::*;

verus! {

/// The page state of one preview.
#[derive(Debug)]
pub struct PageState {
    pub page: usize,
    pub generation: u64,
    /// Whether a rendering request for this generation is outstanding.
    pub pending: bool,
    pub error: Option<String>,
}

pub open spec fn next_generation(g: u64) -> u64 {
    if g == u64::MAX {
        0
    } else {
        (g + 1) as u64
    }
}

/// The page a request for `page` shows in a document of `count` pages.
pub open spec fn clamped_page(page: usize, count: usize) -> usize {
    if count == 0 {
        0
    } else if page < count {
        page
    } else {
        (count - 1) as usize
    }
}

/// A result is shown only for the generation and page it was requested for,
/// while the request is outstanding.
pub open spec fn accepted(s: PageState, generation: u64, page: usize) -> bool {
    s.generation == generation && s.page == page && s.pending
}

impl PageState {
    pub fn new() -> (r: PageState)
        ensures
            r.page == 0,
            r.generation == 0,
            !r.pending,
            r.error is None,
    {
        PageState { page: 0, generation: 0, pending: false, error: None }
    }

    /// Shows `page`, clamped to the last of `count` pages; a change of page
    /// starts a new generation and forgets the outstanding request and error.
    pub fn select(&mut self, page: usize, count: usize)
        ensures
            clamped_page(page, count) != old(self).page ==> {
                &&& final(self).page == clamped_page(page, count)
                &&& final(self).generation == next_generation(old(self).generation)
                &&& !final(self).pending
                &&& final(self).error is None
            },
            clamped_page(page, count) == old(self).page ==> *final(self) == *old(self),
    {
        let page = if page < count.saturating_sub(1) {
            page
        } else {
            count.saturating_sub(1)
        };
        if page != self.page {
            self.page = page;
            self.generation = self.generation.wrapping_add(1);
            self.pending = false;
            self.error = None;
        }
    }

    /// Whether a result requested under `generation` for `page` may be shown.
    pub fn accepts(&self, generation: u64, page: usize) -> (r: bool)
        ensures
            r == accepted(*self, generation, page),
    {
        self.generation == generation && self.page == page && self.pending
    }

    /// Stops waiting: results of the current generation are refused.
    pub fn pause(&mut self)
        ensures
            final(self).generation == next_generation(old(self).generation),
            !final(self).pending,
            final(self).page == old(self).page,
            final(self).error == old(self).error,
    {
        self.generation = self.generation.wrapping_add(1);
        self.pending = false;
    }
}

/// The page-keeping part of a PDF preview: its page count, page state and
/// whether it moves with the preview it is compared against.
#[derive(Debug)]
pub struct PdfPages {
    pub count: usize,
    pub state: PageState,
    pub linked: bool,
}

impl PdfPages {
    pub fn new(count: usize) -> (r: PdfPages)
        ensures
            r.count == count,
            r.state.page == 0,
            r.state.generation == 0,
            !r.state.pending,
            r.state.error is None,
            !r.linked,
    {
        PdfPages { count: count, state: PageState::new(), linked: false }
    }

    /// Shows `page`, clamped to this preview's count.
    pub fn select(&mut self, page: usize)
        ensures
            final(self).count == old(self).count,
            final(self).linked == old(self).linked,
            clamped_page(page, old(self).count) != old(self).state.page ==> {
                &&& final(self).state.page == clamped_page(page, old(self).count)
                &&& final(self).state.generation == next_generation(old(self).state.generation)
                &&& !final(self).state.pending
                &&& final(self).state.error is None
            },
            clamped_page(page, old(self).count) == old(self).state.page ==> final(self).state
                == old(self).state,
    {
        self.state.select(page, self.count);
    }

    /// Shows `page`; when linked, the partner preview moves to the same
    /// page too, clamped to its own count.
    pub fn select_linked(&mut self, page: usize, partner: &mut PdfPages)
        ensures
            final(self).count == old(self).count,
            final(self).linked == old(self).linked,
            clamped_page(page, old(self).count) != old(self).state.page ==> {
                &&& final(self).state.page == clamped_page(page, old(self).count)
                &&& final(self).state.generation == next_generation(old(self).state.generation)
                &&& !final(self).state.pending
                &&& final(self).state.error is None
            },
            clamped_page(page, old(self).count) == old(self).state.page ==> final(self).state
                == old(self).state,
            final(partner).count == old(partner).count,
            final(partner).linked == old(partner).linked,
            !old(self).linked ==> final(partner).state == old(partner).state,
            old(self).linked && clamped_page(page, old(partner).count) != old(partner).state.page ==> {
                &&& final(partner).state.page == clamped_page(page, old(partner).count)
                &&& final(partner).state.generation == next_generation(old(partner).state.generation)
                &&& !final(partner).state.pending
                &&& final(partner).state.error is None
            },
            old(self).linked && clamped_page(page, old(partner).count) == old(partner).state.page
                ==> final(partner).state == old(partner).state,
    {
        self.state.select(page, self.count);
        if self.linked {
            partner.state.select(page, partner.count);
        }
    }

    /// Moves to a bookmarked page and takes its link state.
    pub fn restore(&mut self, page: usize, linked: bool)
        ensures
            final(self).count == old(self).count,
            final(self).linked == linked,
            final(self).state.page == (if clamped_page(page, old(self).count) != old(self).state.page {
                clamped_page(page, old(self).count)
            } else {
                old(self).state.page
            }),
    {
        self.state.select(page, self.count);
        self.linked = linked;
    }

    pub fn pause(&mut self)
        ensures
            final(self).count == old(self).count,
            final(self).linked == old(self).linked,
            final(self).state.generation == next_generation(old(self).state.generation),
            !final(self).state.pending,
            final(self).state.page == old(self).state.page,
    {
        self.state.pause();
    }
}

/// After the page changes, or after a pause, no result requested before it
/// is accepted.
pub proof fn law_late_results_are_refused(before: u64, after: PageState, page: usize)
    requires
        after.generation == next_generation(before),
    ensures
        !accepted(after, before, page),
{
}

} // verus!
