//! The bitmap that knows which slots of the storage are taken.
//!
//! Slots lie in rows of 256, rows in pages of seven. A run of slots is taken within one row; the
//! search for it goes round the pages from the one that last gave room.
pub mod laws;
pub mod map_laws;
pub mod page;
pub mod page_laws;
pub mod row;
pub mod row_laws;
pub mod scan;
pub mod simd;
pub mod slots;

use crate::bitmap::page::{
    is_page_pick, lemma_full_row_no_run, lemma_full_rows_bounds, page_has_run, page_is_zero,
    page_taken, page_words, Page, SLOTS_PER_PAGE, USABLE_ROWS_PER_PAGE,
};
use crate::bitmap::row::{has_run, slot_taken, SLOTS_PER_ROW};
use crate::bitmap::scan::{law_scan_visits_each_page, page_turn, scan_page, PageScan, ScanAction};
use crate::bitmap::simd::SIMD;
use crate::bitmap::slots::{
    capacity, free_slots, has_room, in_one_row, lemma_room, lemma_row_run, lemma_taken_after_free,
    lemma_taken_after_take, lemma_taken_finite, run_freed, run_taken, slot_number, taken,
};
use vstd::prelude::*;
use vstd::set_lib::set_int_range;

verus! {

/// The pages of a bitmap and where the next search starts.
#[derive(Debug)]
pub struct BitMap {
    simd: SIMD,
    pages: Vec<Page>,
    next_page: usize,
}

/// The page at which the first search starts, given how many full rows each page counts: the
/// first page with a row that is not full, or page 0 if there is none.
pub open spec fn is_init_page(full_rows: Seq<u64>, p: int) -> bool {
    ||| {
        &&& 0 <= p < full_rows.len()
        &&& full_rows[p] < USABLE_ROWS_PER_PAGE
        &&& forall|q: int| 0 <= q < p ==> #[trigger] full_rows[q] >= USABLE_ROWS_PER_PAGE
    }
    ||| {
        &&& p == 0
        &&& forall|q: int|
            0 <= q < full_rows.len() ==> #[trigger] full_rows[q] >= USABLE_ROWS_PER_PAGE
    }
}

/// How many full rows each page counts.
pub open spec fn full_row_counters(pages: Seq<Page>) -> Seq<u64> {
    Seq::new(pages.len(), |p: int| pages[p].meta.full_rows_counter)
}

/// `slot` starts the run of `n` free slots that a search of the pages from page `from` on meets
/// first: it lies in the first page that has such a run, and there it is the one the page picks.
pub open spec fn is_pick(pages: Seq<Page>, from: int, n: int, slot: int) -> bool {
    let p = slot / SLOTS_PER_PAGE as int;
    &&& 0 <= slot
    &&& 0 <= p < pages.len()
    &&& is_page_pick(pages[p], n, slot % SLOTS_PER_PAGE as int)
    &&& forall|q: int|
        0 <= q < pages.len() && #[trigger] page_has_run(pages[q], n) ==> page_turn(
            from,
            pages.len() as int,
            p,
        ) <= page_turn(from, pages.len() as int, q)
}

/// A page that counts all of its rows as full has no free run.
proof fn lemma_counted_full(page: Page, n: int)
    requires
        page.wf(),
        1 <= n <= SLOTS_PER_ROW,
        page.meta.full_rows_counter == USABLE_ROWS_PER_PAGE,
    ensures
        !page_has_run(page, n),
{
    lemma_full_rows_bounds(page.rows@);
    assert forall|k: int| 0 <= k < USABLE_ROWS_PER_PAGE implies !#[trigger] has_run(
        page.rows@[k],
        n,
    ) by {
        lemma_full_row_no_run(page.rows@[k], n);
    }
}

/// The page that a scan settles on is the first that has room.
proof fn lemma_first_page(pages: Seq<Page>, from: int, visited: int, n: int, slot: int)
    requires
        0 <= from < pages.len(),
        0 <= visited < pages.len(),
        slot / SLOTS_PER_PAGE as int == scan_page(from, pages.len() as int, visited),
        0 <= slot,
        is_page_pick(
            pages[slot / SLOTS_PER_PAGE as int],
            n,
            slot % SLOTS_PER_PAGE as int,
        ),
        forall|i: int|
            0 <= i < visited ==> !#[trigger] page_has_run(
                pages[scan_page(from, pages.len() as int, i)],
                n,
            ),
    ensures
        is_pick(pages, from, n, slot),
{
    let total = pages.len() as int;
    let p = slot / SLOTS_PER_PAGE as int;
    law_scan_visits_each_page(from, total, visited);
    assert forall|q: int| 0 <= q < total && #[trigger] page_has_run(pages[q], n) implies page_turn(
        from,
        total,
        p,
    ) <= page_turn(from, total, q) by {
        let i = page_turn(from, total, q);
        assert(scan_page(from, total, i) == q);
    }
}

/// A page takes only slots that are free, and takes all of them, whatever the other pages hold.
///
/// This is one step of an allocation. Pages are changed one at a time, so it also holds where
/// several allocations and frees go on at once.
pub proof fn law_page_takes_free_slots(before: Seq<Page>, after: Seq<Page>, slot: int, n: int)
    requires
        1 <= n <= SLOTS_PER_ROW,
        0 <= slot,
        slot < capacity(before),
        is_page_pick(
            before[slot / SLOTS_PER_PAGE as int],
            n,
            slot % SLOTS_PER_PAGE as int,
        ),
        run_taken(before, after, slot, n),
    ensures
        in_one_row(capacity(before), slot, n),
        free_slots(taken(before), slot, n),
        has_room(taken(before), capacity(before), n),
        taken(after) == taken(before).union(set_int_range(slot, slot + n)),
        taken(after).len() == taken(before).len() + n,
{
    let p = slot / SLOTS_PER_PAGE as int;
    let at = slot % SLOTS_PER_PAGE as int;
    let k = at / SLOTS_PER_ROW as int;
    let bit = at % SLOTS_PER_ROW as int;
    assert(slot == slot_number(p, k, bit));
    lemma_row_run(before, p, k, bit, n);
    lemma_taken_after_take(before, after, slot, n);
    lemma_taken_finite(before);
    vstd::set_lib::lemma_int_range(slot, slot + n);
    vstd::set_lib::lemma_set_disjoint_lens(taken(before), set_int_range(slot, slot + n));
}

impl BitMap {
    /// The pages.
    pub closed spec fn pages(&self) -> Seq<Page> {
        self.pages@
    }

    /// The page at which the next search starts.
    pub closed spec fn next_page(&self) -> int {
        self.next_page as int
    }

    /// The slots that are taken.
    pub open spec fn view(&self) -> Set<int> {
        taken(self.pages())
    }

    /// How many slots there are.
    pub open spec fn capacity(&self) -> int {
        capacity(self.pages())
    }

    /// Every page is well formed, the next search starts at one of them, and every slot has a
    /// number.
    pub open spec fn wf(&self) -> bool {
        &&& forall|p: int| 0 <= p < self.pages().len() ==> (#[trigger] self.pages()[p]).wf()
        &&& self.pages().len() > 0 ==> self.next_page() < self.pages().len()
        &&& 0 <= self.next_page()
        &&& self.capacity() <= usize::MAX
    }

    /// A bitmap of `init_pages` pages in which every slot is free.
    pub fn new(simd: SIMD, init_pages: usize) -> (map: BitMap)
        requires
            init_pages * SLOTS_PER_PAGE <= usize::MAX,
        ensures
            map.wf(),
            map.pages().len() == init_pages,
            forall|p: int| 0 <= p < init_pages ==> page_is_zero(#[trigger] map.pages()[p]),
            map.next_page() == 0,
            map@ == Set::<int>::empty(),
    {
        let mut pages: Vec<Page> = Vec::new();
        let mut i: usize = 0;
        while i < init_pages
            invariant
                i <= init_pages,
                pages@.len() == i,
                forall|p: int| 0 <= p < i ==> (#[trigger] pages@[p]).wf(),
                forall|p: int| 0 <= p < i ==> page_is_zero(#[trigger] pages@[p]),
                forall|p: int, k: int, j: int|
                    0 <= p < i && 0 <= k < USABLE_ROWS_PER_PAGE && 0 <= j
                        < SLOTS_PER_ROW ==> !#[trigger] slot_taken(pages@[p].rows@[k], j),
            decreases init_pages - i,
        {
            pages.push(Page::zeroed());
            i = i + 1;
        }
        let map = BitMap::open(simd, pages);
        proof {
            if init_pages > 0 {
                assert(page_words(map.pages()[0])[1] == 0);
                assert(full_row_counters(map.pages())[0] == 0);
            }
            assert(map@ =~= Set::<int>::empty());
        }
        map
    }

    /// The bitmap that is kept in `pages`.
    pub fn open(simd: SIMD, pages: Vec<Page>) -> (map: BitMap)
        requires
            forall|p: int| 0 <= p < pages@.len() ==> (#[trigger] pages@[p]).wf(),
            capacity(pages@) <= usize::MAX,
        ensures
            map.wf(),
            map.pages() == pages@,
            is_init_page(full_row_counters(pages@), map.next_page()),
    {
        let mut full_rows: Vec<u64> = Vec::new();
        let mut i: usize = 0;
        while i < pages.len()
            invariant
                i <= pages.len(),
                full_rows@.len() == i,
                forall|p: int|
                    0 <= p < i ==> #[trigger] full_rows@[p] == pages@[p].meta.full_rows_counter,
            decreases pages.len() - i,
        {
            full_rows.push(pages[i].meta.full_rows_counter);
            i = i + 1;
        }
        proof {
            assert(full_rows@ =~= full_row_counters(pages@));
        }
        let next_page: usize = BitMap::find_init_page_idx(&full_rows);
        BitMap { simd, pages, next_page }
    }

    /// The first page that counts a row as not full, or 0 if there is none.
    pub fn find_init_page_idx(full_rows: &Vec<u64>) -> (p: usize)
        ensures
            is_init_page(full_rows@, p as int),
    {
        let mut i: usize = 0;
        while i < full_rows.len()
            invariant
                i <= full_rows.len(),
                forall|q: int| 0 <= q < i ==> #[trigger] full_rows@[q] >= USABLE_ROWS_PER_PAGE,
            decreases full_rows.len() - i,
        {
            if full_rows[i] < USABLE_ROWS_PER_PAGE as u64 {
                return i;
            }
            i = i + 1;
        }
        0
    }

    /// Takes `n` free slots of one row and returns the first of them.
    ///
    /// There is no such run exactly when `None` is returned, and then nothing changes.
    pub fn allocate(&mut self, n: usize) -> (r: Option<usize>)
        requires
            old(self).wf(),
            1 <= n <= SLOTS_PER_ROW,
        ensures
            final(self).wf(),
            final(self).pages().len() == old(self).pages().len(),
            match r {
                Some(slot) => {
                    &&& is_pick(old(self).pages(), old(self).next_page(), n as int, slot as int)
                    &&& in_one_row(old(self).capacity(), slot as int, n as int)
                    &&& free_slots(old(self)@, slot as int, n as int)
                    &&& final(self)@ == old(self)@.union(set_int_range(slot as int, slot + n))
                    &&& final(self)@.len() == old(self)@.len() + n
                    &&& run_taken(
                        old(self).pages(),
                        final(self).pages(),
                        slot as int,
                        n as int,
                    )
                    &&& final(self).next_page() == slot as int / SLOTS_PER_PAGE as int
                },
                None => {
                    &&& !has_room(old(self)@, old(self).capacity(), n as int)
                    &&& final(self).pages() == old(self).pages()
                    &&& final(self).next_page() == old(self).next_page()
                },
            },
            r is Some <==> has_room(old(self)@, old(self).capacity(), n as int),
    {
        let simd: SIMD = self.simd;
        let total_pages: usize = self.pages.len();
        let mut scan: PageScan = PageScan::begin(self.next_page, total_pages);
        loop
            invariant
                1 <= n <= SLOTS_PER_ROW,
                old(self).wf(),
                old(self).pages().len() == total_pages,
                scan.wf(),
                scan.start_page() == old(self).next_page(),
                scan.total_pages() == total_pages,
                self.pages@.len() == total_pages,
                forall|i: int|
                    0 <= i < scan.visited() ==> !#[trigger] page_has_run(
                        old(self).pages()[scan_page(scan.start_page(), total_pages as int, i)],
                        n as int,
                    ),
                match scan.found() {
                    None => {
                        &&& self.pages@ == old(self).pages@
                        &&& self.next_page == old(self).next_page
                    },
                    Some(slot) => {
                        &&& is_page_pick(old(self).pages()[scan.page()], n as int, slot as int)
                        &&& self.pages@ == old(self).pages@.update(
                            scan.page(),
                            self.pages@[scan.page()],
                        )
                        &&& page_taken(
                            old(self).pages()[scan.page()],
                            self.pages@[scan.page()],
                            slot as int,
                            n as int,
                        )
                        &&& self.pages@[scan.page()].wf()
                        &&& self.next_page == old(self).next_page
                    },
                },
            decreases
                    scan.total_pages() - scan.visited(),
                    if scan.found() is None {
                        1int
                    } else {
                        0
                    },
        {
            match scan.action() {
                ScanAction::Visit(page_idx) => {
                    proof {
                        lemma_full_rows_bounds(self.pages()[page_idx as int].rows@);
                    }
                    let slot: Option<usize> = self.pages[page_idx].allocate(&simd, n);
                    proof {
                        let before = old(self).pages()[page_idx as int];
                        if slot is None {
                            if before.meta.full_rows_counter == USABLE_ROWS_PER_PAGE {
                                lemma_counted_full(before, n as int);
                            }
                            assert(self.pages@ =~= old(self).pages@);
                        }
                    }
                    scan.report(slot);
                },
                ScanAction::Settled { page_idx, slot } => {
                    self.next_page = page_idx;
                    proof {
                        lemma_first_page(
                            old(self).pages(),
                            scan.start_page(),
                            scan.visited(),
                            n as int,
                            slot as int,
                        );
                        law_page_takes_free_slots(old(self).pages(), self.pages(), slot as int, n as int);
                    }
                    return Some(slot);
                },
                ScanAction::Exhausted => {
                    proof {
                        assert forall|q: int| 0 <= q < total_pages implies !#[trigger] page_has_run(
                            old(self).pages()[q],
                            n as int,
                        ) by {
                            let i = page_turn(scan.start_page(), total_pages as int, q);
                            law_scan_visits_each_page(scan.start_page(), total_pages as int, i);
                            assert(scan_page(scan.start_page(), total_pages as int, i) == q);
                        }
                        lemma_room(old(self).pages(), n as int);
                    }
                    return None;
                },
            }
        }
    }

    /// Frees `n` slots from `index` on, which lie in one row.
    ///
    /// Slots among them that were free stay free.
    pub fn free(&mut self, index: usize, n: usize)
        requires
            old(self).wf(),
            1 <= n,
            in_one_row(old(self).capacity(), index as int, n as int),
        ensures
            final(self).wf(),
            final(self)@ == old(self)@.difference(set_int_range(index as int, index + n)),
            set_int_range(index as int, index + n).subset_of(old(self)@) ==> final(self)@.len() + n
                == old(self)@.len(),
            has_room(final(self)@, final(self).capacity(), n as int),
            run_freed(old(self).pages(), final(self).pages(), index as int, n as int),
            final(self).next_page() == old(self).next_page(),
    {
        let simd: SIMD = self.simd;
        let page_idx: usize = index / SLOTS_PER_PAGE;
        let slot: usize = index % SLOTS_PER_PAGE;
        proof {
            lemma_full_rows_bounds(self.pages()[page_idx as int].rows@);
        }
        self.pages[page_idx].free(&simd, slot, n);
        proof {
            let before = old(self).pages();
            let after = self.pages();
            let run = set_int_range(index as int, index + n);
            assert(after =~= before.update(page_idx as int, after[page_idx as int]));
            lemma_taken_after_free(before, after, index as int, n as int);
            lemma_taken_finite(before);
            vstd::set_lib::lemma_int_range(index as int, index + n);
            assert(free_slots(taken(after), index as int, n as int));
            if run.subset_of(taken(before)) {
                assert(taken(before) =~= taken(after).union(run));
                lemma_taken_finite(after);
                vstd::set_lib::lemma_set_disjoint_lens(taken(after), run);
            }
        }
    }
}

} // verus!
