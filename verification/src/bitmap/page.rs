//! A page of the bitmap: one row of bookkeeping and seven rows of slots.
use crate::bitmap::row::{
    clear_run, find_free_run, has_run, is_first_run, row_full, run_cleared, run_free, run_set,
    set_run, slot_taken, Row, SLOTS_PER_ROW, SLOTS_PER_WORD, WORDS_PER_ROW,
};
use crate::bitmap::simd::{is_slot_full_linear, SIMD};
use frozen_core::hints::unlikely;
use vstd::prelude::*;

verus! {

/// Rows in a page, the one with the bookkeeping included.
pub const TOTALE_ROWS_PER_PAGE: usize = 8;

/// Rows in a page that hold slots.
pub const USABLE_ROWS_PER_PAGE: usize = TOTALE_ROWS_PER_PAGE - 1;

/// Slots in a page.
pub const SLOTS_PER_PAGE: usize = 1792;

/// Words in the stored form of a page.
pub const WORDS_PER_PAGE: usize = 32;

/// The bookkeeping of a page.
#[derive(Debug, Clone, Copy)]
pub struct PageMeta {
    /// The word of a row at which the next search starts.
    pub current_word_ptr: u64,
    /// How many rows of the page are full.
    pub full_rows_counter: u64,
    /// Fills the row; not used.
    pub padding: [u64; 2],
}

/// A page of [`SLOTS_PER_PAGE`] slots.
#[derive(Debug, Clone, Copy)]
pub struct Page {
    /// The bookkeeping.
    pub meta: PageMeta,
    /// The slots.
    pub rows: [Row; 7],
}

/// 1 for a full row and 0 for any other.
pub open spec fn full_count(row: Row) -> int {
    if row_full(row) {
        1
    } else {
        0
    }
}

/// The number of full rows.
pub open spec fn full_rows(rows: Seq<Row>) -> int
    decreases rows.len(),
{
    if rows.len() == 0 {
        0
    } else {
        full_rows(rows.drop_last()) + full_count(rows.last())
    }
}

/// Some row of a page has `n` free slots, one after the other.
pub open spec fn page_has_run(page: Page, n: int) -> bool {
    exists|k: int| 0 <= k < USABLE_ROWS_PER_PAGE && #[trigger] has_run(page.rows@[k], n)
}

/// Slot `slot` of a page starts the run of `n` free slots that a search of the page meets first:
/// it lies in the first row that has such a run, and there it is the first from the current word.
pub open spec fn is_page_pick(page: Page, n: int, slot: int) -> bool {
    let k = slot / SLOTS_PER_ROW as int;
    &&& 0 <= slot
    &&& 0 <= k < USABLE_ROWS_PER_PAGE
    &&& forall|j: int| 0 <= j < k ==> !#[trigger] has_run(page.rows@[j], n)
    &&& is_first_run(
        page.rows@[k],
        page.meta.current_word_ptr * SLOTS_PER_WORD,
        n,
        slot % SLOTS_PER_ROW as int,
    )
}

/// The word after the one that holds slot `bit` of a row, with the first word after the last.
pub open spec fn word_after(bit: int) -> int {
    (bit / SLOTS_PER_WORD as int + 1) % WORDS_PER_ROW as int
}

/// `after` is `before` with the run of `n` slots at `slot` taken.
pub open spec fn page_taken(before: Page, after: Page, slot: int, n: int) -> bool {
    let k = slot / SLOTS_PER_ROW as int;
    let bit = slot % SLOTS_PER_ROW as int;
    &&& after.rows@ == before.rows@.update(k, after.rows@[k])
    &&& run_set(before.rows@[k], after.rows@[k], bit, n)
    &&& after.meta.current_word_ptr == word_after(bit)
    &&& after.meta.full_rows_counter == before.meta.full_rows_counter + full_count(after.rows@[k])
    &&& after.meta.padding == before.meta.padding
}

/// `after` is `before` with the run of `n` slots at `slot` freed.
pub open spec fn page_freed(before: Page, after: Page, slot: int, n: int) -> bool {
    let k = slot / SLOTS_PER_ROW as int;
    let bit = slot % SLOTS_PER_ROW as int;
    &&& after.rows@ == before.rows@.update(k, after.rows@[k])
    &&& run_cleared(before.rows@[k], after.rows@[k], bit, n)
    &&& after.meta.current_word_ptr == word_after(bit)
    &&& after.meta.full_rows_counter == before.meta.full_rows_counter - full_count(before.rows@[k])
    &&& after.meta.padding == before.meta.padding
}

/// The stored form of a page: the bookkeeping, then the rows.
pub open spec fn page_words(page: Page) -> Seq<u64> {
    Seq::new(
        WORDS_PER_PAGE as nat,
        |i: int|
            if i == 0 {
                page.meta.current_word_ptr
            } else if i == 1 {
                page.meta.full_rows_counter
            } else if i < 4 {
                page.meta.padding@[i - 2]
            } else {
                page.rows@[i / 4 - 1]@[i % 4]
            },
    )
}

/// A page as a new file holds it: every word is zero.
pub open spec fn page_is_zero(page: Page) -> bool {
    page_words(page) == Seq::new(WORDS_PER_PAGE as nat, |i: int| 0u64)
}

proof fn lemma_full_rows_update(rows: Seq<Row>, k: int, row: Row)
    requires
        0 <= k < rows.len(),
    ensures
        full_rows(rows.update(k, row)) == full_rows(rows) - full_count(rows[k]) + full_count(row),
    decreases rows.len(),
{
    let updated = rows.update(k, row);
    if k == rows.len() - 1 {
        assert(updated.drop_last() =~= rows.drop_last());
    } else {
        assert(updated.drop_last() =~= rows.drop_last().update(k, row));
        lemma_full_rows_update(rows.drop_last(), k, row);
    }
}

/// The number of full rows lies between none and all; it is all only if each row is full.
pub proof fn lemma_full_rows_bounds(rows: Seq<Row>)
    ensures
        0 <= full_rows(rows) <= rows.len(),
        full_rows(rows) == rows.len() <==> forall|k: int|
            0 <= k < rows.len() ==> row_full(#[trigger] rows[k]),
        forall|k: int| 0 <= k < rows.len() && row_full(#[trigger] rows[k]) ==> full_rows(rows) >= 1,
    decreases rows.len(),
{
    if rows.len() > 0 {
        let front = rows.drop_last();
        lemma_full_rows_bounds(front);
        assert(forall|k: int| 0 <= k < front.len() ==> front[k] == #[trigger] rows[k]);
        if full_rows(rows) == rows.len() {
            assert forall|k: int| 0 <= k < rows.len() implies row_full(#[trigger] rows[k]) by {
                if k < front.len() {
                    assert(row_full(front[k]));
                }
            }
        }
        if forall|k: int| 0 <= k < rows.len() ==> row_full(#[trigger] rows[k]) {
            assert(forall|k: int| 0 <= k < front.len() ==> row_full(#[trigger] front[k]));
            assert(row_full(rows[rows.len() - 1]));
        }
    }
}

/// A full row has no free run.
pub proof fn lemma_full_row_no_run(row: Row, n: int)
    requires
        1 <= n <= SLOTS_PER_ROW,
        row_full(row),
    ensures
        !has_run(row, n),
{
    if has_run(row, n) {
        let start = choose|start: int| 0 <= start <= SLOTS_PER_ROW - n && run_free(row, start, n);
        assert(slot_taken(row, start));
    }
}

/// The word at which the search after a run at `bit` starts.
fn next_word(bit: usize) -> (w: u64)
    requires
        bit < SLOTS_PER_ROW,
    ensures
        w == word_after(bit as int),
        w < WORDS_PER_ROW,
{
    let after: u64 = (bit / SLOTS_PER_WORD + 1) as u64;
    assert(after & 3 == after % 4) by (bit_vector);
    after & 3
}

impl Page {
    /// The search starts inside a row, and the counter tells how many rows are full.
    pub open spec fn wf(&self) -> bool {
        &&& self.meta.current_word_ptr < WORDS_PER_ROW
        &&& self.meta.full_rows_counter == full_rows(self.rows@)
    }

    /// A page in which every slot is free, as a new file holds it.
    pub fn zeroed() -> (page: Page)
        ensures
            page.wf(),
            page_is_zero(page),
            forall|k: int, i: int|
                0 <= k < USABLE_ROWS_PER_PAGE && 0 <= i < SLOTS_PER_ROW ==> !#[trigger] slot_taken(
                    page.rows@[k],
                    i,
                ),
    {
        let page = Page {
            meta: PageMeta { current_word_ptr: 0, full_rows_counter: 0, padding: [0u64; 2] },
            rows: [[0u64; 4]; 7],
        };
        proof {
            assert forall|k: int, i: int|
                0 <= k < USABLE_ROWS_PER_PAGE && 0 <= i
                    < SLOTS_PER_ROW implies !#[trigger] slot_taken(page.rows@[k], i) by {
                let j: u64 = (i % 64) as u64;
                assert(page.rows@[k]@[i / 64] == 0);
                assert((0u64 >> j) & 1 != 1) by (bit_vector);
            }
            lemma_no_full_rows(page.rows@);
            assert(page_words(page) =~= Seq::new(WORDS_PER_PAGE as nat, |i: int| 0u64));
        }
        page
    }

    /// Checks that the page is well formed, as every page is that came about by allocations and
    /// frees.
    pub fn is_wf(&self) -> (r: bool)
        ensures
            r == self.wf(),
    {
        let mut full: u64 = 0;
        let mut k: usize = 0;
        while k < USABLE_ROWS_PER_PAGE
            invariant
                k <= USABLE_ROWS_PER_PAGE,
                full <= k,
                full == full_rows(self.rows@.take(k as int)),
            decreases USABLE_ROWS_PER_PAGE - k,
        {
            proof {
                assert(self.rows@.take(k + 1).drop_last() =~= self.rows@.take(k as int));
            }
            if is_slot_full_linear(&self.rows[k]) {
                full = full + 1;
            }
            k = k + 1;
        }
        proof {
            assert(self.rows@.take(k as int) =~= self.rows@);
        }
        self.meta.current_word_ptr < WORDS_PER_ROW as u64 && self.meta.full_rows_counter == full
    }

    /// Takes the first run of `n` free slots of the page and returns its first slot.
    ///
    /// A page that counts all of its rows as full is not searched.
    pub fn allocate(&mut self, simd: &SIMD, n: usize) -> (r: Option<usize>)
        requires
            1 <= n <= SLOTS_PER_ROW,
            old(self).meta.current_word_ptr < WORDS_PER_ROW,
            old(self).meta.full_rows_counter < u64::MAX,
        ensures
            match r {
                Some(slot) => {
                    &&& old(self).meta.full_rows_counter != USABLE_ROWS_PER_PAGE
                    &&& is_page_pick(*old(self), n as int, slot as int)
                    &&& page_taken(*old(self), *final(self), slot as int, n as int)
                },
                None => {
                    &&& old(self).meta.full_rows_counter == USABLE_ROWS_PER_PAGE || !page_has_run(
                        *old(self),
                        n as int,
                    )
                    &&& *final(self) == *old(self)
                },
            },
            old(self).wf() ==> final(self).wf(),
    {
        if unlikely(self.meta.full_rows_counter == USABLE_ROWS_PER_PAGE as u64) {
            return None;
        }
        let start_word: usize = self.meta.current_word_ptr as usize;
        let mut row_idx: usize = 0;
        while row_idx < USABLE_ROWS_PER_PAGE
            invariant
                1 <= n <= SLOTS_PER_ROW,
                *self == *old(self),
                start_word == self.meta.current_word_ptr,
                start_word < WORDS_PER_ROW,
                self.meta.full_rows_counter < u64::MAX,
                self.meta.full_rows_counter != USABLE_ROWS_PER_PAGE,
                forall|j: int| 0 <= j < row_idx ==> !#[trigger] has_run(self.rows@[j], n as int),
            decreases USABLE_ROWS_PER_PAGE - row_idx,
        {
            let row: Row = self.rows[row_idx];
            if unlikely(simd.is_row_full(&row)) {
                proof {
                    lemma_full_row_no_run(row, n as int);
                }
            } else if let Some(bit) = find_free_run(&row, start_word, n) {
                set_run(&mut self.rows[row_idx], bit, n);
                if simd.is_row_full(&self.rows[row_idx]) {
                    self.meta.full_rows_counter = self.meta.full_rows_counter + 1;
                }
                self.meta.current_word_ptr = next_word(bit);
                proof {
                    let slot = row_idx * SLOTS_PER_ROW + bit;
                    assert(slot / SLOTS_PER_ROW as int == row_idx && slot % SLOTS_PER_ROW as int
                        == bit);
                    assert(self.rows@ =~= old(self).rows@.update(
                        row_idx as int,
                        self.rows@[row_idx as int],
                    ));
                    lemma_full_rows_update(
                        old(self).rows@,
                        row_idx as int,
                        self.rows@[row_idx as int],
                    );
                }
                return Some(row_idx * SLOTS_PER_ROW + bit);
            }
            row_idx = row_idx + 1;
        }
        None
    }

    /// Frees `n` slots from `slot` on, which lie in one row.
    pub fn free(&mut self, simd: &SIMD, slot: usize, n: usize)
        requires
            1 <= n,
            slot < SLOTS_PER_PAGE,
            slot % SLOTS_PER_ROW + n <= SLOTS_PER_ROW,
            row_full(old(self).rows@[slot as int / SLOTS_PER_ROW as int]) ==> old(
                self,
            ).meta.full_rows_counter >= 1,
        ensures
            page_freed(*old(self), *final(self), slot as int, n as int),
            old(self).wf() ==> final(self).wf(),
    {
        let row_idx: usize = slot / SLOTS_PER_ROW;
        let bit: usize = slot % SLOTS_PER_ROW;
        let was_row_full = simd.is_row_full(&self.rows[row_idx]);
        clear_run(&mut self.rows[row_idx], bit, n);
        if was_row_full {
            self.meta.full_rows_counter = self.meta.full_rows_counter - 1;
        }
        self.meta.current_word_ptr = next_word(bit);
        proof {
            let row = self.rows@[row_idx as int];
            assert(self.rows@ =~= old(self).rows@.update(row_idx as int, row));
            lemma_full_rows_update(old(self).rows@, row_idx as int, row);
            assert(!slot_taken(row, bit as int));
        }
    }

    /// The page as it is stored.
    pub fn to_words(&self) -> (words: [u64; 32])
        ensures
            words@ == page_words(*self),
    {
        let mut words: [u64; 32] = [0u64; 32];
        words[0] = self.meta.current_word_ptr;
        words[1] = self.meta.full_rows_counter;
        words[2] = self.meta.padding[0];
        words[3] = self.meta.padding[1];
        let mut i: usize = 4;
        while i < WORDS_PER_PAGE
            invariant
                4 <= i <= WORDS_PER_PAGE,
                forall|j: int| 0 <= j < i ==> #[trigger] words@[j] == page_words(*self)[j],
            decreases WORDS_PER_PAGE - i,
        {
            words[i] = self.rows[i / WORDS_PER_ROW - 1][i % WORDS_PER_ROW];
            i = i + 1;
        }
        proof {
            assert(words@ =~= page_words(*self));
        }
        words
    }

    /// The page that is stored in `words`.
    pub fn from_words(words: &[u64; 32]) -> (page: Page)
        ensures
            page_words(page) == words@,
    {
        let mut page = Page {
            meta: PageMeta {
                current_word_ptr: words[0],
                full_rows_counter: words[1],
                padding: [words[2], words[3]],
            },
            rows: [[0u64; 4]; 7],
        };
        let mut k: usize = 0;
        while k < USABLE_ROWS_PER_PAGE
            invariant
                k <= USABLE_ROWS_PER_PAGE,
                page.meta.current_word_ptr == words@[0],
                page.meta.full_rows_counter == words@[1],
                page.meta.padding@[0] == words@[2],
                page.meta.padding@[1] == words@[3],
                forall|j: int, w: int|
                    0 <= j < k && 0 <= w < WORDS_PER_ROW ==> #[trigger] page.rows@[j]@[w]
                        == words@[4 * j + 4 + w],
            decreases USABLE_ROWS_PER_PAGE - k,
        {
            let at: usize = WORDS_PER_ROW * (k + 1);
            page.rows[k] = [words[at], words[at + 1], words[at + 2], words[at + 3]];
            k = k + 1;
        }
        proof {
            assert forall|i: int| 0 <= i < WORDS_PER_PAGE implies page_words(page)[i]
                == words@[i] by {
                if i >= 4 {
                    assert(page.rows@[i / 4 - 1]@[i % 4] == words@[4 * (i / 4 - 1) + 4 + i % 4]);
                }
            }
            assert(page_words(page) =~= words@);
        }
        page
    }
}

/// The stored form of a page determines it: pages with the same words are the same page.
pub proof fn law_page_words_injective(a: Page, b: Page)
    requires
        page_words(a) == page_words(b),
    ensures
        a == b,
{
    assert(a.meta.current_word_ptr == page_words(a)[0]);
    assert(b.meta.current_word_ptr == page_words(b)[0]);
    assert(a.meta.full_rows_counter == page_words(a)[1]);
    assert(b.meta.full_rows_counter == page_words(b)[1]);
    assert forall|w: int| 0 <= w < 2 implies a.meta.padding@[w] == b.meta.padding@[w] by {
        assert(page_words(a)[w + 2] == a.meta.padding@[w]);
        assert(page_words(b)[w + 2] == b.meta.padding@[w]);
    }
    assert(a.meta.padding =~= b.meta.padding);
    assert forall|k: int| 0 <= k < USABLE_ROWS_PER_PAGE implies a.rows@[k] == b.rows@[k] by {
        assert forall|w: int| 0 <= w < WORDS_PER_ROW implies a.rows@[k]@[w] == b.rows@[k]@[w] by {
            let i = 4 * k + 4 + w;
            assert(i / 4 - 1 == k && i % 4 == w);
            assert(page_words(a)[i] == a.rows@[k]@[w]);
            assert(page_words(b)[i] == b.rows@[k]@[w]);
        }
        assert(a.rows@[k] =~= b.rows@[k]);
    }
    assert(a.rows =~= b.rows);
}

proof fn lemma_no_full_rows(rows: Seq<Row>)
    requires
        forall|k: int| 0 <= k < rows.len() ==> !slot_taken(#[trigger] rows[k], 0),
    ensures
        full_rows(rows) == 0,
    decreases rows.len(),
{
    if rows.len() > 0 {
        let front = rows.drop_last();
        assert(forall|k: int| 0 <= k < front.len() ==> front[k] == #[trigger] rows[k]);
        lemma_no_full_rows(front);
        assert(!slot_taken(rows[rows.len() - 1], 0));
    }
}

} // verus!
