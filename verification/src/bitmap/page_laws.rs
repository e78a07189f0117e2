//! What the operations on a page look at and change, bit by bit, and how a page is stored.
//!
//! The laws speak of the words themselves. A page has seven rows of 256 slots; slot `s` of a page
//! is slot `s % 256` of its row `s / 256`.
use crate::bitmap::page::{
    full_count, full_rows, law_page_words_injective, lemma_full_rows_bounds, page_has_run,
    page_words, Page,
};
use crate::bitmap::row::{has_run, slot_taken, Row};
use crate::bitmap::row_laws::{lemma_clear_bits, lemma_full_words};
use crate::bitmap::simd::SIMD;
use vstd::prelude::*;

verus! {

/// A row counts as full exactly when all bits of its four words are set.
pub proof fn law_full_row_has_all_bits_set(row: Row)
    ensures
        full_count(row) == if row@[0] == u64::MAX && row@[1] == u64::MAX && row@[2] == u64::MAX
            && row@[3] == u64::MAX {
            1int
        } else {
            0
        },
{
    lemma_full_words(row);
}

/// The number of full rows of a page is the sum over its seven rows.
proof fn lemma_full_rows_sum(rows: Seq<Row>)
    requires
        rows.len() == 7,
    ensures
        full_rows(rows) == full_count(rows[0]) + full_count(rows[1]) + full_count(rows[2])
            + full_count(rows[3]) + full_count(rows[4]) + full_count(rows[5]) + full_count(rows[6]),
{
    reveal_with_fuel(full_rows, 8);
}

/// A page passes as well formed exactly when its search starts in one of the four words of a row
/// and its counter is the number of its full rows.
pub proof fn law_well_formed_page_counts_its_full_rows(page: Page, r: bool)
    requires
        call_ensures(Page::is_wf, (&page,), r),
    ensures
        r == page.wf(),
        r <==> page.meta.current_word_ptr < 4 && page.meta.full_rows_counter == full_count(
            page.rows@[0],
        ) + full_count(page.rows@[1]) + full_count(page.rows@[2]) + full_count(page.rows@[3])
            + full_count(page.rows@[4]) + full_count(page.rows@[5]) + full_count(page.rows@[6]),
{
    lemma_full_rows_sum(page.rows@);
}

/// Every word of a new page is zero.
pub proof fn law_new_page_is_all_zero(page: Page, k: int, w: int)
    requires
        call_ensures(Page::zeroed, (), page),
        0 <= k < 7,
        0 <= w < 4,
    ensures
        page.rows@[k]@[w] == 0,
        page.meta.current_word_ptr == 0,
        page.meta.full_rows_counter == 0,
        page.meta.padding@[0] == 0 && page.meta.padding@[1] == 0,
{
    law_row_word_is_stored_behind_the_bookkeeping(page, k, w);
    assert(page_words(page)[4 + 4 * k + w] == 0);
    assert(page_words(page)[0] == 0);
    assert(page_words(page)[1] == 0);
    assert(page_words(page)[2] == 0);
    assert(page_words(page)[3] == 0);
}

/// The stored form of a page starts with its bookkeeping; word `w` of row `k` is stored word
/// `4 + 4 * k + w`.
pub proof fn law_row_word_is_stored_behind_the_bookkeeping(page: Page, k: int, w: int)
    requires
        0 <= k < 7,
        0 <= w < 4,
    ensures
        page_words(page).len() == 32,
        page_words(page)[0] == page.meta.current_word_ptr,
        page_words(page)[1] == page.meta.full_rows_counter,
        page_words(page)[2] == page.meta.padding@[0],
        page_words(page)[3] == page.meta.padding@[1],
        page_words(page)[4 + 4 * k + w] == page.rows@[k]@[w],
{
    let i = 4 + 4 * k + w;
    assert(i / 4 - 1 == k && i % 4 == w);
}

/// A page that is stored has each word of its rows and of its bookkeeping in its place, and a page
/// that is loaded takes each from there.
pub proof fn law_stored_words_are_in_place(
    page: Page,
    stored: [u64; 32],
    words: [u64; 32],
    loaded: Page,
    k: int,
    w: int,
)
    requires
        call_ensures(Page::to_words, (&page,), stored),
        call_ensures(Page::from_words, (&words,), loaded),
        0 <= k < 7,
        0 <= w < 4,
    ensures
        stored@[0] == page.meta.current_word_ptr,
        stored@[1] == page.meta.full_rows_counter,
        stored@[2] == page.meta.padding@[0],
        stored@[3] == page.meta.padding@[1],
        stored@[4 + 4 * k + w] == page.rows@[k]@[w],
        loaded.meta.current_word_ptr == words@[0],
        loaded.meta.full_rows_counter == words@[1],
        loaded.meta.padding@[0] == words@[2],
        loaded.meta.padding@[1] == words@[3],
        loaded.rows@[k]@[w] == words@[4 + 4 * k + w],
{
    law_row_word_is_stored_behind_the_bookkeeping(page, k, w);
    law_row_word_is_stored_behind_the_bookkeeping(loaded, k, w);
}

/// Slot `s` of a page is taken exactly when bit `s % 64` of stored word `4 + s / 64` is set, in the
/// page that was loaded and in the words that were stored.
pub proof fn law_stored_bit_is_a_slot(
    page: Page,
    stored: [u64; 32],
    words: [u64; 32],
    loaded: Page,
    s: int,
)
    requires
        call_ensures(Page::to_words, (&page,), stored),
        call_ensures(Page::from_words, (&words,), loaded),
        0 <= s < 1792,
    ensures
        slot_taken(page.rows@[s / 256], s % 256) <==> (stored@[4 + s / 64] >> ((s % 64) as u64)) & 1
            == 1,
        slot_taken(loaded.rows@[s / 256], s % 256) <==> (words@[4 + s / 64] >> ((s % 64) as u64))
            & 1 == 1,
{
    let k = s / 256;
    let w = (s % 256) / 64;
    assert(4 + s / 64 == 4 + 4 * k + w);
    assert((s % 256) % 64 == s % 64);
    law_stored_words_are_in_place(page, stored, words, loaded, k, w);
}

/// A page that is loaded from what was stored is the page that was stored, and storing it again
/// gives the same words.
pub proof fn law_load_undoes_store(page: Page, stored: [u64; 32], loaded: Page)
    requires
        call_ensures(Page::to_words, (&page,), stored),
        call_ensures(Page::from_words, (&stored,), loaded),
    ensures
        loaded == page,
{
    law_page_words_injective(loaded, page);
}

/// A page with room in row `k` gives a run, in the first row that has room: in row `k` or in an
/// earlier one. In row `k` it gives the least run from the first slot of the current word on, and
/// only if there is none the least run below that slot.
pub proof fn law_page_fills_its_rows_in_order(
    page: &mut Page,
    simd: SIMD,
    n: usize,
    r: Option<usize>,
    k: int,
    b: int,
)
    requires
        1 <= n <= 256,
        old(page).meta.current_word_ptr < 4,
        old(page).meta.full_rows_counter != 7,
        call_ensures(Page::allocate, (page, &simd, n), r),
        0 <= k < 7,
        0 <= b,
        b + n <= 256,
        forall|i: int|
            b <= i < b + n ==> (#[trigger] old(page).rows@[k]@[i / 64] >> ((i % 64) as u64)) & 1
                != 1,
    ensures
        r is Some,
        r->0 < 256 * k + 256,
        r->0 >= 256 * k && b >= 64 * old(page).meta.current_word_ptr ==> 256 * k + 64 * old(
            page,
        ).meta.current_word_ptr <= r->0 <= 256 * k + b,
        r->0 >= 256 * k && b < 64 * old(page).meta.current_word_ptr ==> r->0 >= 256 * k + 64 * old(
            page,
        ).meta.current_word_ptr || r->0 <= 256 * k + b,
        forall|j: int| k < j < 7 ==> #[trigger] final(page).rows@[j] == old(page).rows@[j],
{
    let row = old(page).rows@[k];
    lemma_clear_bits(row, b, n as int);
    assert(has_run(row, n as int));
    assert(page_has_run(*old(page), n as int));
    let slot = r->0 as int;
    if slot / 256 > k {
        assert(!has_run(row, n as int));
    }
    assert(slot == 256 * (slot / 256) + slot % 256);
}

/// A page that gives no run has a taken slot in every run of every row, or counts itself full; it
/// does not change.
pub proof fn law_page_without_room_stays_as_it_is(
    page: &mut Page,
    simd: SIMD,
    n: usize,
    k: int,
    b: int,
)
    requires
        1 <= n <= 256,
        old(page).meta.current_word_ptr < 4,
        call_ensures(Page::allocate, (page, &simd, n), None),
        0 <= k < 7,
        0 <= b,
        b + n <= 256,
    ensures
        *final(page) == *old(page),
        old(page).meta.full_rows_counter != 7 ==> exists|i: int|
            b <= i < b + n && (#[trigger] old(page).rows@[k]@[i / 64] >> ((i % 64) as u64)) & 1
                == 1,
{
    if old(page).meta.full_rows_counter != 7 {
        if forall|i: int|
            b <= i < b + n ==> (#[trigger] old(page).rows@[k]@[i / 64] >> ((i % 64) as u64)) & 1
                != 1 {
            law_page_fills_its_rows_in_order(page, simd, n, None, k, b);
        }
    }
}

/// A page that counts all of its rows as full gives nothing.
pub proof fn law_page_counted_full_gives_nothing(
    page: &mut Page,
    simd: SIMD,
    n: usize,
    r: Option<usize>,
)
    requires
        1 <= n <= 256,
        old(page).meta.full_rows_counter == 7,
        call_ensures(Page::allocate, (page, &simd, n), r),
    ensures
        r is None,
{
}

/// A well-formed page can be asked for any run that fits in a row, and can be told to free any run
/// within a row.
pub proof fn law_page_takes_every_call(page: &mut Page, simd: SIMD, slot: usize, n: usize)
    requires
        old(page).wf(),
        1 <= n <= 256,
    ensures
        call_requires(Page::allocate, (page, &simd, n)),
        slot < 1792 && slot % 256 + n <= 256 ==> call_requires(Page::free, (page, &simd, slot, n)),
{
    lemma_full_rows_bounds(old(page).rows@);
}

/// An allocation takes the slots of the run that it gives, all of them in one row and all of them
/// free before, and leaves every other slot alone. The next search starts in the word after the
/// one in which the run starts, and the counter goes up by one exactly when the row is full now.
pub proof fn law_page_takes_the_run_it_gives(
    page: &mut Page,
    simd: SIMD,
    n: usize,
    slot: usize,
    k: int,
    i: int,
)
    requires
        1 <= n <= 256,
        old(page).meta.current_word_ptr < 4,
        call_ensures(Page::allocate, (page, &simd, n), Some(slot)),
        0 <= k < 7,
        0 <= i < 256,
    ensures
        slot < 1792,
        slot % 256 + n <= 256,
        slot <= 256 * k + i < slot + n ==> (old(page).rows@[k]@[i / 64] >> ((i % 64) as u64)) & 1
            != 1,
        (final(page).rows@[k]@[i / 64] >> ((i % 64) as u64)) & 1 == 1 <==> (slot <= 256 * k + i
            < slot + n || (old(page).rows@[k]@[i / 64] >> ((i % 64) as u64)) & 1 == 1),
        final(page).meta.current_word_ptr == (slot as int % 256 / 64 + 1) % 4,
        final(page).meta.full_rows_counter == old(page).meta.full_rows_counter + full_count(
            final(page).rows@[slot as int / 256],
        ),
        final(page).meta.padding == old(page).meta.padding,
        old(page).wf() ==> final(page).wf(),
{
    let q = slot as int / 256;
    let bit = slot as int % 256;
    if k == q {
        assert(slot_taken(final(page).rows@[k], i) <==> (bit <= i < bit + n || slot_taken(
            old(page).rows@[k],
            i,
        )));
        if bit <= i < bit + n {
            assert(!slot_taken(old(page).rows@[k], i));
        }
    } else {
        assert(final(page).rows@[k] == old(page).rows@[k]);
    }
}

/// A free gives back the slots of its run and leaves every other slot alone. The next search
/// starts in the word after the one in which the run starts, and the counter goes down by one
/// exactly when the row was full.
pub proof fn law_page_frees_its_run(
    page: &mut Page,
    simd: SIMD,
    slot: usize,
    n: usize,
    k: int,
    i: int,
)
    requires
        1 <= n,
        slot < 1792,
        slot % 256 + n <= 256,
        call_ensures(Page::free, (page, &simd, slot, n), ()),
        0 <= k < 7,
        0 <= i < 256,
    ensures
        (final(page).rows@[k]@[i / 64] >> ((i % 64) as u64)) & 1 == 1 <==> (!(slot <= 256 * k + i
            < slot + n) && (old(page).rows@[k]@[i / 64] >> ((i % 64) as u64)) & 1 == 1),
        final(page).meta.current_word_ptr == (slot as int % 256 / 64 + 1) % 4,
        final(page).meta.full_rows_counter == old(page).meta.full_rows_counter - full_count(
            old(page).rows@[slot as int / 256],
        ),
        final(page).meta.padding == old(page).meta.padding,
        old(page).wf() ==> final(page).wf(),
{
    let q = slot as int / 256;
    let bit = slot as int % 256;
    if k == q {
        assert(slot_taken(final(page).rows@[k], i) <==> (!(bit <= i < bit + n) && slot_taken(
            old(page).rows@[k],
            i,
        )));
    } else {
        assert(final(page).rows@[k] == old(page).rows@[k]);
    }
}

} // verus!
