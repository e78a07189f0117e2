//! What the operations on a whole bitmap look at and change, bit by bit.
//!
//! The laws speak of the words themselves. A page has 1792 slots in seven rows of 256; slot `s` of
//! a bitmap is slot `s % 1792` of its page `s / 1792`.
use crate::bitmap::page::{page_has_run, page_is_zero, page_words, Page};
use crate::bitmap::page_laws::law_row_word_is_stored_behind_the_bookkeeping;
use crate::bitmap::row::{has_run, slot_taken};
use crate::bitmap::row_laws::lemma_clear_bits;
use crate::bitmap::scan::{lemma_mod_below_twice, PageScan, ScanAction};
use crate::bitmap::simd::SIMD;
use crate::bitmap::slots::{
    capacity, free_slots, has_room, in_one_row, lemma_room, run_freed, run_taken, taken, taken_at,
};
use crate::bitmap::{full_row_counters, is_pick, BitMap};
use vstd::prelude::*;

verus! {

/// A slot is taken exactly when its bit is set.
pub proof fn law_taken_slots_are_the_set_bits(pages: Seq<Page>, s: int)
    ensures
        capacity(pages) == 1792 * pages.len(),
        taken(pages).contains(s) <==> 0 <= s < 1792 * pages.len() && (pages[s / 1792].rows@[s % 1792
            / 256]@[s % 256 / 64] >> ((s % 64) as u64)) & 1 == 1,
{
    vstd::arithmetic::div_mod::lemma_mod_mod(s, 256, 7);
    vstd::arithmetic::div_mod::lemma_mod_mod(s, 64, 4);
    let row = pages[s / 1792].rows@[s % 1792 / 256];
    assert(slot_taken(row, s % 256) <==> (row@[s % 256 / 64] >> ((s % 64) as u64)) & 1 == 1);
    assert(taken_at(pages, s) <==> slot_taken(row, s % 256));
}

/// A run lies in one row exactly when it starts and ends within the slots and does not go past a
/// multiple of 256.
pub proof fn law_run_in_one_row_crosses_no_boundary(total: int, start: int, n: int)
    requires
        1 <= n,
    ensures
        in_one_row(total, start, n) <==> 0 <= start && start + n <= total && start / 256 == (start + n
            - 1) / 256,
{
}

/// There is room for a run exactly when somewhere in one row that many slots in a row are free.
pub proof fn law_room_is_a_free_run(used: Set<int>, total: int, n: int)
    requires
        1 <= n,
    ensures
        has_room(used, total, n) <==> exists|start: int|
            0 <= start && start + n <= total && #[trigger] (start / 256) == (start + n - 1) / 256 && (
            forall|s: int| start <= s < start + n ==> !#[trigger] used.contains(s)),
{
    if has_room(used, total, n) {
        let start = choose|start: int|
            in_one_row(total, start, n) && #[trigger] free_slots(used, start, n);
        assert(start / 256 == (start + n - 1) / 256);
    }
    if exists|start: int|
        0 <= start && start + n <= total && #[trigger] (start / 256) == (start + n - 1) / 256 && (
        forall|s: int| start <= s < start + n ==> !#[trigger] used.contains(s)) {
        let start = choose|start: int|
            0 <= start && start + n <= total && #[trigger] (start / 256) == (start + n - 1) / 256 && (
            forall|s: int| start <= s < start + n ==> !#[trigger] used.contains(s));
        assert(in_one_row(total, start, n));
        assert(free_slots(used, start, n));
    }
}

/// A new bitmap has the pages that were asked for, every word of them is zero, and the first
/// search starts at the first page.
pub proof fn law_new_map_is_all_zero(
    simd: SIMD,
    init_pages: usize,
    map: BitMap,
    p: int,
    k: int,
    w: int,
)
    requires
        call_ensures(BitMap::new, (simd, init_pages), map),
        0 <= p < init_pages,
        0 <= k < 7,
        0 <= w < 4,
    ensures
        map.pages().len() == init_pages,
        map.next_page() == 0,
        map.pages()[p].rows@[k]@[w] == 0,
        map.pages()[p].meta.current_word_ptr == 0,
        map.pages()[p].meta.full_rows_counter == 0,
{
    let page = map.pages()[p];
    law_row_word_is_stored_behind_the_bookkeeping(page, k, w);
    assert(page_is_zero(page));
    assert(page_words(page)[4 + 4 * k + w] == 0);
    assert(page_words(page)[0] == 0);
    assert(page_words(page)[1] == 0);
}

/// The first search starts at a page that counts fewer than seven full rows, with no such page
/// before it, or at page 0 if there is none.
pub proof fn law_first_page_with_a_free_row(full_rows: Vec<u64>, p: usize, q: int)
    requires
        call_ensures(BitMap::find_init_page_idx, (&full_rows,), p),
        0 <= q < full_rows@.len(),
        full_rows@[q] < 7,
    ensures
        p <= q,
        full_rows@[p as int] < 7,
{
}

/// Without a page that counts fewer than seven full rows the first search starts at page 0.
pub proof fn law_first_page_of_a_full_map(full_rows: Vec<u64>, p: usize)
    requires
        call_ensures(BitMap::find_init_page_idx, (&full_rows,), p),
        forall|q: int| 0 <= q < full_rows@.len() ==> #[trigger] full_rows@[q] >= 7,
    ensures
        p == 0,
{
}

/// A bitmap that is opened keeps every page as it is, and its first search starts at the first page
/// that counts fewer than seven full rows.
pub proof fn law_opened_map_goes_on(simd: SIMD, pages: Vec<Page>, map: BitMap, q: int)
    requires
        call_ensures(BitMap::open, (simd, pages), map),
        0 <= q < pages@.len(),
    ensures
        map.pages() == pages@,
        pages@[q].meta.full_rows_counter < 7 ==> {
            &&& 0 <= map.next_page() <= q
            &&& pages@[map.next_page()].meta.full_rows_counter < 7
        },
        (forall|p: int| 0 <= p < pages@.len() ==> (#[trigger] pages@[p]).meta.full_rows_counter >= 7)
            ==> map.next_page() == 0,
{
    let counters = full_row_counters(pages@);
    assert(counters[q] == pages@[q].meta.full_rows_counter);
    if forall|p: int| 0 <= p < pages@.len() ==> (#[trigger] pages@[p]).meta.full_rows_counter >= 7 {
        assert forall|p: int| 0 <= p < counters.len() implies #[trigger] counters[p] >= 7 by {
            assert(pages@[p].meta.full_rows_counter >= 7);
        }
    }
}

/// A clear run of bits is room.
pub proof fn lemma_room_at(pages: Seq<Page>, n: int, p: int, k: int, b: int)
    requires
        1 <= n <= 256,
        0 <= p < pages.len(),
        0 <= k < 7,
        0 <= b,
        b + n <= 256,
        forall|i: int|
            b <= i < b + n ==> (#[trigger] pages[p].rows@[k]@[i / 64] >> ((i % 64) as u64)) & 1
                != 1,
    ensures
        has_run(pages[p].rows@[k], n),
        page_has_run(pages[p], n),
        has_room(taken(pages), capacity(pages), n),
{
    lemma_clear_bits(pages[p].rows@[k], b, n);
    assert(has_run(pages[p].rows@[k], n));
    assert(page_has_run(pages[p], n));
    lemma_room(pages, n);
}

/// The run that a search picks, held against a run at `b` in row `k` of page `p` that is free too.
pub proof fn lemma_pick_is_first(
    pages: Seq<Page>,
    from: int,
    n: int,
    slot: int,
    p: int,
    k: int,
    b: int,
)
    requires
        1 <= n <= 256,
        0 <= from < pages.len(),
        is_pick(pages, from, n, slot),
        0 <= p < pages.len(),
        0 <= k < 7,
        0 <= b,
        b + n <= 256,
        forall|i: int|
            b <= i < b + n ==> (#[trigger] pages[p].rows@[k]@[i / 64] >> ((i % 64) as u64)) & 1
                != 1,
    ensures
        p >= from ==> 1792 * from <= slot < 1792 * p + 1792,
        p < from ==> slot >= 1792 * from || slot < 1792 * p + 1792,
        1792 * p <= slot < 1792 * p + 1792 ==> slot < 1792 * p + 256 * k + 256,
        1792 * p + 256 * k <= slot < 1792 * p + 256 * k + 256 ==> ({
            let at = slot - 1792 * p - 256 * k;
            let first = 64 * pages[p].meta.current_word_ptr;
            &&& b >= first ==> first <= at <= b
            &&& b < first ==> at >= first || at <= b
        }),
{
    lemma_room_at(pages, n, p, k, b);
    lemma_clear_bits(pages[p].rows@[k], b, n);
    let at = slot % 1792;
    assert(slot == 1792 * (slot / 1792) + at);
    assert(at == 256 * (at / 256) + at % 256);
    if slot / 1792 == p && at / 256 > k {
        assert(!has_run(pages[p].rows@[k], n));
    }
}

/// Slot `i` of row `k` of page `p` before and after a run was taken.
pub proof fn lemma_taken_bit(
    before: Seq<Page>,
    after: Seq<Page>,
    slot: int,
    n: int,
    p: int,
    k: int,
    i: int,
)
    requires
        1 <= n,
        0 <= slot < 1792 * before.len(),
        slot % 256 + n <= 256,
        run_taken(before, after, slot, n),
        0 <= p < before.len(),
        0 <= k < 7,
        0 <= i < 256,
    ensures
        after.len() == before.len(),
        (after[p].rows@[k]@[i / 64] >> ((i % 64) as u64)) & 1 == 1 <==> (slot <= 1792 * p + 256 * k
            + i < slot + n || (before[p].rows@[k]@[i / 64] >> ((i % 64) as u64)) & 1 == 1),
        p != slot / 1792 ==> after[p] == before[p],
        after[p].meta.padding == before[p].meta.padding,
        after[slot / 1792].meta.current_word_ptr == (slot % 256 / 64 + 1) % 4,
{
    let q = slot / 1792;
    let at = slot % 1792;
    let bit = at % 256;
    assert(bit == slot % 256);
    assert(slot == 1792 * q + 256 * (at / 256) + bit);
    if p == q && k == at / 256 {
        assert(slot_taken(after[p].rows@[k], i) <==> (bit <= i < bit + n || slot_taken(
            before[p].rows@[k],
            i,
        )));
    } else if p == q {
        assert(after[p].rows@[k] == before[p].rows@[k]);
    }
}

/// Slot `i` of row `k` of page `p` before and after a run was freed.
pub proof fn lemma_freed_bit(
    before: Seq<Page>,
    after: Seq<Page>,
    slot: int,
    n: int,
    p: int,
    k: int,
    i: int,
)
    requires
        1 <= n,
        0 <= slot < 1792 * before.len(),
        slot % 256 + n <= 256,
        run_freed(before, after, slot, n),
        0 <= p < before.len(),
        0 <= k < 7,
        0 <= i < 256,
    ensures
        after.len() == before.len(),
        (after[p].rows@[k]@[i / 64] >> ((i % 64) as u64)) & 1 == 1 <==> (!(slot <= 1792 * p + 256 * k
            + i < slot + n) && (before[p].rows@[k]@[i / 64] >> ((i % 64) as u64)) & 1 == 1),
        p != slot / 1792 ==> after[p] == before[p],
        after[p].meta.padding == before[p].meta.padding,
        after[slot / 1792].meta.current_word_ptr == (slot % 256 / 64 + 1) % 4,
{
    let q = slot / 1792;
    let at = slot % 1792;
    let bit = at % 256;
    assert(bit == slot % 256);
    assert(slot == 1792 * q + 256 * (at / 256) + bit);
    if p == q && k == at / 256 {
        assert(slot_taken(after[p].rows@[k], i) <==> (!(bit <= i < bit + n) && slot_taken(
            before[p].rows@[k],
            i,
        )));
    } else if p == q {
        assert(after[p].rows@[k] == before[p].rows@[k]);
    }
}

/// A slot of a run that a search picks is free.
pub proof fn lemma_picked_bit(pages: Seq<Page>, from: int, n: int, slot: int, p: int, k: int, i: int)
    requires
        1 <= n <= 256,
        is_pick(pages, from, n, slot),
        0 <= p < pages.len(),
        0 <= k < 7,
        0 <= i < 256,
        slot <= 1792 * p + 256 * k + i < slot + n,
    ensures
        (pages[p].rows@[k]@[i / 64] >> ((i % 64) as u64)) & 1 != 1,
{
    let at = slot % 1792;
    let bit = at % 256;
    assert(slot == 1792 * (slot / 1792) + 256 * (at / 256) + bit);
    assert(p == slot / 1792 && k == at / 256 && bit <= i < bit + n);
    assert(!slot_taken(pages[p].rows@[k], i));
}

/// A bitmap with room in row `k` of page `p` gives a run. It lies in the first page with room, from
/// the page on at which the search starts and then from page 0 on; there in the first row with
/// room; and there it is the least one from the first slot of the current word on, or if there is
/// none the least one below that slot.
pub proof fn law_map_gives_the_first_run(
    map: &mut BitMap,
    n: usize,
    r: Option<usize>,
    p: int,
    k: int,
    b: int,
)
    requires
        1 <= n <= 256,
        old(map).wf(),
        call_ensures(BitMap::allocate, (map, n), r),
        0 <= p < old(map).pages().len(),
        0 <= k < 7,
        0 <= b,
        b + n <= 256,
        forall|i: int|
            b <= i < b + n ==> (#[trigger] old(map).pages()[p].rows@[k]@[i / 64] >> ((i
                % 64) as u64)) & 1 != 1,
    ensures
        r is Some,
        p >= old(map).next_page() ==> 1792 * old(map).next_page() <= r->0 < 1792 * p + 1792,
        p < old(map).next_page() ==> r->0 >= 1792 * old(map).next_page() || r->0 < 1792 * p + 1792,
        1792 * p <= r->0 < 1792 * p + 1792 ==> r->0 < 1792 * p + 256 * k + 256,
        1792 * p + 256 * k <= r->0 < 1792 * p + 256 * k + 256 ==> ({
            let at = r->0 - 1792 * p - 256 * k;
            let from = 64 * old(map).pages()[p].meta.current_word_ptr;
            &&& b >= from ==> from <= at <= b
            &&& b < from ==> at >= from || at <= b
        }),
{
    lemma_room_at(old(map).pages(), n as int, p, k, b);
    lemma_pick_is_first(old(map).pages(), old(map).next_page(), n as int, r->0 as int, p, k, b);
}

/// A bitmap that gives no run has a taken slot in every run of every row, and does not change.
pub proof fn law_map_without_room_stays_as_it_is(map: &mut BitMap, n: usize, p: int, k: int, b: int)
    requires
        1 <= n <= 256,
        old(map).wf(),
        call_ensures(BitMap::allocate, (map, n), None),
        0 <= p < old(map).pages().len(),
        0 <= k < 7,
        0 <= b,
        b + n <= 256,
    ensures
        exists|i: int|
            b <= i < b + n && (#[trigger] old(map).pages()[p].rows@[k]@[i / 64] >> ((i
                % 64) as u64)) & 1 == 1,
        final(map).pages() == old(map).pages(),
        final(map).next_page() == old(map).next_page(),
{
    if forall|i: int|
        b <= i < b + n ==> (#[trigger] old(map).pages()[p].rows@[k]@[i / 64] >> ((i % 64) as u64))
            & 1 != 1 {
        law_map_gives_the_first_run(map, n, None, p, k, b);
    }
}

/// An allocation takes the slots of the run that it gives, all of them in one row and all of them
/// free before, and leaves every other slot alone; all other pages stay as they are. The next
/// search starts at the page of the run, in the word after the one in which the run starts.
pub proof fn law_map_takes_the_run_it_gives(
    map: &mut BitMap,
    n: usize,
    slot: usize,
    p: int,
    k: int,
    i: int,
)
    requires
        1 <= n <= 256,
        old(map).wf(),
        call_ensures(BitMap::allocate, (map, n), Some(slot)),
        0 <= p < old(map).pages().len(),
        0 <= k < 7,
        0 <= i < 256,
    ensures
        final(map).wf(),
        final(map).pages().len() == old(map).pages().len(),
        slot < 1792 * old(map).pages().len(),
        slot % 256 + n <= 256,
        slot <= 1792 * p + 256 * k + i < slot + n ==> (old(map).pages()[p].rows@[k]@[i / 64] >> ((i
            % 64) as u64)) & 1 != 1,
        (final(map).pages()[p].rows@[k]@[i / 64] >> ((i % 64) as u64)) & 1 == 1 <==> (slot <= 1792 * p
            + 256 * k + i < slot + n || (old(map).pages()[p].rows@[k]@[i / 64] >> ((i % 64) as u64))
            & 1 == 1),
        p != slot as int / 1792 ==> final(map).pages()[p] == old(map).pages()[p],
        final(map).pages()[p].meta.padding == old(map).pages()[p].meta.padding,
        final(map).pages()[p].wf(),
        final(map).next_page() == slot as int / 1792,
        final(map).pages()[slot as int / 1792].meta.current_word_ptr == (slot as int % 256 / 64 + 1)
            % 4,
{
    lemma_taken_bit(old(map).pages(), final(map).pages(), slot as int, n as int, p, k, i);
    if slot <= 1792 * p + 256 * k + i < slot + n {
        lemma_picked_bit(old(map).pages(), old(map).next_page(), n as int, slot as int, p, k, i);
    }
}

/// A free gives back the slots of its run and leaves every other slot alone; all other pages stay
/// as they are. The next search of the page starts in the word after the one in which the run
/// starts.
pub proof fn law_map_frees_its_run(
    map: &mut BitMap,
    slot: usize,
    n: usize,
    p: int,
    k: int,
    i: int,
)
    requires
        1 <= n,
        old(map).wf(),
        slot % 256 + n <= 256,
        slot + n <= 1792 * old(map).pages().len(),
        call_ensures(BitMap::free, (map, slot, n), ()),
        0 <= p < old(map).pages().len(),
        0 <= k < 7,
        0 <= i < 256,
    ensures
        final(map).wf(),
        final(map).pages().len() == old(map).pages().len(),
        (final(map).pages()[p].rows@[k]@[i / 64] >> ((i % 64) as u64)) & 1 == 1 <==> (!(slot <= 1792
            * p + 256 * k + i < slot + n) && (old(map).pages()[p].rows@[k]@[i / 64] >> ((i
            % 64) as u64)) & 1 == 1),
        p != slot as int / 1792 ==> final(map).pages()[p] == old(map).pages()[p],
        final(map).pages()[p].meta.padding == old(map).pages()[p].meta.padding,
        final(map).pages()[p].wf(),
        final(map).next_page() == old(map).next_page(),
        final(map).pages()[slot as int / 1792].meta.current_word_ptr == (slot as int % 256 / 64 + 1)
            % 4,
{
    lemma_freed_bit(old(map).pages(), final(map).pages(), slot as int, n as int, p, k, i);
}

/// A bitmap is well formed exactly when each of its pages is, the next search starts at one of them
/// if there are any, and every slot has a number.
pub proof fn law_well_formed_map_has_well_formed_pages(map: BitMap)
    ensures
        map.wf() <==> {
            &&& forall|p: int| 0 <= p < map.pages().len() ==> (#[trigger] map.pages()[p]).wf()
            &&& 0 <= map.next_page()
            &&& map.pages().len() > 0 ==> map.next_page() < map.pages().len()
            &&& 1792 * map.pages().len() <= usize::MAX
        },
        map@ == taken(map.pages()),
{
}

/// A well-formed bitmap can be asked for any run that fits in a row, and can be told to free any
/// run within a row.
pub proof fn law_map_takes_every_call(map: &mut BitMap, slot: usize, n: usize)
    requires
        old(map).wf(),
        1 <= n <= 256,
    ensures
        call_requires(BitMap::allocate, (map, n)),
        slot % 256 + n <= 256 && slot + n <= 1792 * old(map).pages().len() ==> call_requires(
            BitMap::free,
            (map, slot, n),
        ),
{
}

/// A scan visits the pages one after the other, from the one at which it starts to the last and
/// then from page 0 on, until it has been told of a run or has visited all; the slot that it
/// settles on is that run, counted from the first page.
pub proof fn law_scan_goes_round_the_pages(scan: PageScan, action: ScanAction)
    requires
        scan.wf(),
        call_ensures(PageScan::action, (&scan,), action),
    ensures
        ({
            let ahead = scan.start_page() + scan.visited();
            let page = if ahead < scan.total_pages() {
                ahead
            } else {
                ahead - scan.total_pages()
            };
            match action {
                ScanAction::Visit(page_idx) => {
                    &&& scan.found() is None
                    &&& scan.visited() < scan.total_pages()
                    &&& page_idx == page
                },
                ScanAction::Settled { page_idx, slot } => {
                    &&& scan.found() is Some
                    &&& page_idx == page
                    &&& slot == 1792 * page + scan.found()->0
                },
                ScanAction::Exhausted => {
                    &&& scan.found() is None
                    &&& scan.visited() == scan.total_pages()
                },
            }
        }),
{
    if scan.visited() < scan.total_pages() {
        lemma_mod_below_twice(scan.start_page() + scan.visited(), scan.total_pages());
    }
}

} // verus!
