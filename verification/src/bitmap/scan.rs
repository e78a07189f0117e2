//! The order in which the pages of a bitmap are searched.
//!
//! A scan says which page to search next and hears what the search found. It holds no pages, so
//! the same scan runs over pages in memory and over pages in a file.
use crate::bitmap::page::SLOTS_PER_PAGE;
use vstd::prelude::*;

verus! {

/// Page `i` of a scan over `total` pages that starts at page `start`.
pub open spec fn scan_page(start: int, total: int, i: int) -> int {
    (start + i) % total
}

/// The place of page `q` in a scan over `total` pages that starts at page `start`.
pub open spec fn page_turn(start: int, total: int, q: int) -> int {
    if start <= q {
        q - start
    } else {
        total + q - start
    }
}

/// A scan over all pages.
#[derive(Debug, Clone, Copy)]
pub struct PageScan {
    start_page: usize,
    total_pages: usize,
    visited: usize,
    found: Option<usize>,
}

/// What a scan asks for.
#[derive(Debug, Clone, Copy, PartialEq, Eq)]
pub enum ScanAction {
    /// Search this page and report what was found there.
    Visit(usize),
    /// The search is over: the run starts at `slot`, which lies in page `page_idx`.
    Settled { page_idx: usize, slot: usize },
    /// The search is over: no page has room.
    Exhausted,
}

impl PageScan {
    /// The page at which the scan started.
    pub closed spec fn start_page(&self) -> int {
        self.start_page as int
    }

    /// The number of pages.
    pub closed spec fn total_pages(&self) -> int {
        self.total_pages as int
    }

    /// How many pages were searched in vain.
    pub closed spec fn visited(&self) -> int {
        self.visited as int
    }

    /// The slot that was found, counted from the beginning of its page.
    pub closed spec fn found(&self) -> Option<usize> {
        self.found
    }

    /// The page that the scan has come to.
    pub open spec fn page(&self) -> int {
        scan_page(self.start_page(), self.total_pages(), self.visited())
    }

    /// The scan stays within its pages, and their slots can be numbered.
    pub open spec fn wf(&self) -> bool {
        &&& 0 <= self.start_page()
        &&& self.total_pages() > 0 ==> self.start_page() < self.total_pages()
        &&& 0 <= self.visited() <= self.total_pages()
        &&& self.total_pages() * SLOTS_PER_PAGE <= usize::MAX
        &&& self.found() matches Some(slot) ==> {
            &&& slot < SLOTS_PER_PAGE
            &&& self.visited() < self.total_pages()
        }
    }

    /// Starts a scan over `total_pages` pages at `start_page`.
    pub fn begin(start_page: usize, total_pages: usize) -> (scan: PageScan)
        requires
            total_pages > 0 ==> start_page < total_pages,
            total_pages * SLOTS_PER_PAGE <= usize::MAX,
        ensures
            scan.wf(),
            scan.start_page() == start_page,
            scan.total_pages() == total_pages,
            scan.visited() == 0,
            scan.found() is None,
    {
        PageScan { start_page, total_pages, visited: 0, found: None }
    }

    /// What is to be done now.
    pub fn action(&self) -> (action: ScanAction)
        requires
            self.wf(),
        ensures
            match self.found() {
                Some(slot) => action == (ScanAction::Settled {
                    page_idx: self.page() as usize,
                    slot: (self.page() * SLOTS_PER_PAGE + slot) as usize,
                }),
                None => if self.visited() < self.total_pages() {
                    action == ScanAction::Visit(self.page() as usize)
                } else {
                    action == ScanAction::Exhausted
                },
            },
            self.visited() < self.total_pages() ==> {
                &&& 0 <= self.page() < self.total_pages()
                &&& page_turn(self.start_page(), self.total_pages(), self.page()) == self.visited()
                &&& self.page() * SLOTS_PER_PAGE + SLOTS_PER_PAGE <= usize::MAX
            },
    {
        if self.visited >= self.total_pages {
            return ScanAction::Exhausted;
        }
        proof {
            law_scan_visits_each_page(self.start_page(), self.total_pages(), self.visited());
        }
        let page_idx: usize = (self.start_page + self.visited) % self.total_pages;
        match self.found {
            Some(slot) => ScanAction::Settled { page_idx, slot: page_idx * SLOTS_PER_PAGE + slot },
            None => ScanAction::Visit(page_idx),
        }
    }

    /// Hears what the search of the page that was to be visited found.
    pub fn report(&mut self, found: Option<usize>)
        requires
            old(self).wf(),
            old(self).found() is None,
            old(self).visited() < old(self).total_pages(),
            found matches Some(slot) ==> slot < SLOTS_PER_PAGE,
        ensures
            final(self).wf(),
            final(self).start_page() == old(self).start_page(),
            final(self).total_pages() == old(self).total_pages(),
            final(self).found() == found,
            final(self).visited() == old(self).visited() + (if found is None {
                1int
            } else {
                0
            }),
    {
        if found.is_none() {
            self.visited = self.visited + 1;
        }
        self.found = found;
    }
}

/// A scan comes to every page once, each at its turn.
pub proof fn law_scan_visits_each_page(start: int, total: int, i: int)
    requires
        0 <= start < total,
        0 <= i < total,
    ensures
        0 <= scan_page(start, total, i) < total,
        page_turn(start, total, scan_page(start, total, i)) == i,
        forall|q: int|
            0 <= q < total ==> #[trigger] scan_page(start, total, page_turn(start, total, q)) == q,
{
    lemma_mod_below_twice(start + i, total);
    assert forall|q: int| 0 <= q < total implies #[trigger] scan_page(
        start,
        total,
        page_turn(start, total, q),
    ) == q by {
        lemma_mod_below_twice(start + page_turn(start, total, q), total);
    }
}

/// A remainder by subtraction.
pub proof fn lemma_mod_below_twice(x: int, total: int)
    requires
        0 <= x < 2 * total,
    ensures
        x % total == if x < total {
            x
        } else {
            x - total
        },
{
    if x < total {
        vstd::arithmetic::div_mod::lemma_small_mod(x as nat, total as nat);
    } else {
        vstd::arithmetic::div_mod::lemma_small_mod((x - total) as nat, total as nat);
        vstd::arithmetic::div_mod::lemma_mod_add_multiples_vanish(x - total, total);
    }
}

} // verus!
