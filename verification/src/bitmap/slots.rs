//! The slots of a bitmap as a set of numbers.
//!
//! Slot `i` of page `p` has the number `p * SLOTS_PER_PAGE + i`.
use crate::bitmap::page::{
    page_freed, page_has_run, page_taken, Page, SLOTS_PER_PAGE, USABLE_ROWS_PER_PAGE,
};
use crate::bitmap::row::{has_run, run_free, slot_taken, SLOTS_PER_ROW};
use vstd::prelude::*;
use vstd::set_lib::set_int_range;

verus! {

/// How many slots the pages have.
pub open spec fn capacity(pages: Seq<Page>) -> int {
    pages.len() * SLOTS_PER_PAGE
}

/// Slot `s` is taken in the pages.
pub open spec fn taken_at(pages: Seq<Page>, s: int) -> bool {
    let at = s % SLOTS_PER_PAGE as int;
    slot_taken(
        pages[s / SLOTS_PER_PAGE as int].rows@[at / SLOTS_PER_ROW as int],
        at % SLOTS_PER_ROW as int,
    )
}

/// The slots that are taken in the pages.
pub open spec fn taken(pages: Seq<Page>) -> Set<int> {
    Set::new(|s: int| 0 <= s < capacity(pages) && taken_at(pages, s))
}

/// The slots `start..start + n` are free where `used` are taken.
pub open spec fn free_slots(used: Set<int>, start: int, n: int) -> bool {
    forall|s: int| start <= s < start + n ==> !#[trigger] used.contains(s)
}

/// A run of `n` slots at `start` lies within `total` slots and within one row.
pub open spec fn in_one_row(total: int, start: int, n: int) -> bool {
    &&& 0 <= start < total
    &&& start + n <= total
    &&& start % SLOTS_PER_ROW as int + n <= SLOTS_PER_ROW
}

/// Where `used` of `total` slots are taken, some row has `n` free slots, one after the other.
pub open spec fn has_room(used: Set<int>, total: int, n: int) -> bool {
    exists|start: int| in_one_row(total, start, n) && #[trigger] free_slots(used, start, n)
}

/// `after` are the pages `before` with the run of `n` slots at `start` taken.
pub open spec fn run_taken(before: Seq<Page>, after: Seq<Page>, start: int, n: int) -> bool {
    let p = start / SLOTS_PER_PAGE as int;
    &&& after == before.update(p, after[p])
    &&& page_taken(before[p], after[p], start % SLOTS_PER_PAGE as int, n)
}

/// `after` are the pages `before` with the run of `n` slots at `start` freed.
pub open spec fn run_freed(before: Seq<Page>, after: Seq<Page>, start: int, n: int) -> bool {
    let p = start / SLOTS_PER_PAGE as int;
    &&& after == before.update(p, after[p])
    &&& page_freed(before[p], after[p], start % SLOTS_PER_PAGE as int, n)
}

/// The number of slot `bit` of row `k` of page `p`.
pub open spec fn slot_number(p: int, k: int, bit: int) -> int {
    p * SLOTS_PER_PAGE + k * SLOTS_PER_ROW + bit
}

proof fn lemma_slot_number(p: int, k: int, bit: int)
    requires
        0 <= p,
        0 <= k < USABLE_ROWS_PER_PAGE,
        0 <= bit < SLOTS_PER_ROW,
    ensures
        slot_number(p, k, bit) / SLOTS_PER_PAGE as int == p,
        slot_number(p, k, bit) % SLOTS_PER_PAGE as int == k * SLOTS_PER_ROW + bit,
        (k * SLOTS_PER_ROW + bit) / SLOTS_PER_ROW as int == k,
        (k * SLOTS_PER_ROW + bit) % SLOTS_PER_ROW as int == bit,
        slot_number(p, k, bit) % SLOTS_PER_ROW as int == bit,
{
}

/// A free run of a row is a free run of slots, and the other way round.
pub proof fn lemma_row_run(pages: Seq<Page>, p: int, k: int, bit: int, n: int)
    requires
        0 <= p < pages.len(),
        0 <= k < USABLE_ROWS_PER_PAGE,
        0 <= bit,
        1 <= n,
        bit + n <= SLOTS_PER_ROW,
    ensures
        run_free(pages[p].rows@[k], bit, n) <==> free_slots(
            taken(pages),
            slot_number(p, k, bit),
            n,
        ),
        in_one_row(capacity(pages), slot_number(p, k, bit), n),
{
    lemma_slot_number(p, k, bit);
    let start = slot_number(p, k, bit);
    let row = pages[p].rows@[k];
    assert forall|i: int| bit <= i < bit + n implies (slot_taken(row, i) <==> taken(pages).contains(
        start + (i - bit),
    )) by {
        lemma_slot_number(p, k, i);
        assert(start + (i - bit) == slot_number(p, k, i));
    }
    if run_free(row, bit, n) {
        assert forall|s: int| start <= s < start + n implies !#[trigger] taken(pages).contains(
            s,
        ) by {
            let i = s - start + bit;
            assert(s == start + (i - bit));
            assert(!slot_taken(row, i));
        }
    }
    if free_slots(taken(pages), start, n) {
        assert forall|i: int| bit <= i < bit + n implies !slot_taken(row, i) by {
            assert(!taken(pages).contains(start + (i - bit)));
        }
    }
}

/// There is room for a run exactly when some page has it.
pub proof fn lemma_room(pages: Seq<Page>, n: int)
    requires
        1 <= n <= SLOTS_PER_ROW,
    ensures
        has_room(taken(pages), capacity(pages), n) <==> exists|p: int|
            0 <= p < pages.len() && #[trigger] page_has_run(pages[p], n),
{
    if has_room(taken(pages), capacity(pages), n) {
        let start = choose|start: int|
            in_one_row(capacity(pages), start, n) && #[trigger] free_slots(taken(pages), start, n);
        let p = start / SLOTS_PER_PAGE as int;
        let k = (start % SLOTS_PER_PAGE as int) / SLOTS_PER_ROW as int;
        let bit = start % SLOTS_PER_ROW as int;
        assert(start == slot_number(p, k, bit));
        lemma_row_run(pages, p, k, bit, n);
        assert(has_run(pages[p].rows@[k], n));
        assert(page_has_run(pages[p], n));
    }
    if exists|p: int| 0 <= p < pages.len() && #[trigger] page_has_run(pages[p], n) {
        let p = choose|p: int| 0 <= p < pages.len() && #[trigger] page_has_run(pages[p], n);
        let k = choose|k: int|
            0 <= k < USABLE_ROWS_PER_PAGE && #[trigger] has_run(pages[p].rows@[k], n);
        let bit = choose|start: int|
            0 <= start <= SLOTS_PER_ROW - n && run_free(pages[p].rows@[k], start, n);
        lemma_row_run(pages, p, k, bit, n);
        assert(free_slots(taken(pages), slot_number(p, k, bit), n));
    }
}

/// Taking a run in a page adds its slots to those that are taken.
#[verifier::rlimit(40)]
pub proof fn lemma_taken_after_take(before: Seq<Page>, after: Seq<Page>, start: int, n: int)
    requires
        in_one_row(capacity(before), start, n),
        1 <= n,
        run_taken(before, after, start, n),
    ensures
        taken(after) == taken(before).union(set_int_range(start, start + n)),
{
    let p = start / SLOTS_PER_PAGE as int;
    let k = (start % SLOTS_PER_PAGE as int) / SLOTS_PER_ROW as int;
    let bit = (start % SLOTS_PER_PAGE as int) % SLOTS_PER_ROW as int;
    assert(start == slot_number(p, k, bit));
    assert forall|s: int| #[trigger] taken(after).contains(s) <==> taken(before).union(
        set_int_range(start, start + n),
    ).contains(s) by {
        if 0 <= s < capacity(before) {
            let q = s / SLOTS_PER_PAGE as int;
            let j = (s % SLOTS_PER_PAGE as int) / SLOTS_PER_ROW as int;
            let i = (s % SLOTS_PER_PAGE as int) % SLOTS_PER_ROW as int;
            assert(s == slot_number(q, j, i));
            if q == p && j == k {
                assert(slot_taken(after[p].rows@[k], i) <==> (bit <= i < bit + n || slot_taken(
                    before[p].rows@[k],
                    i,
                )));
                assert(bit <= i < bit + n <==> start <= s < start + n);
            } else {
                assert(after[q].rows@[j] == before[q].rows@[j]);
                assert(!(start <= s < start + n));
            }
        }
    }
    assert(taken(after) =~= taken(before).union(set_int_range(start, start + n)));
}

/// Freeing a run in a page takes its slots out of those that are taken.
#[verifier::rlimit(40)]
pub proof fn lemma_taken_after_free(before: Seq<Page>, after: Seq<Page>, start: int, n: int)
    requires
        in_one_row(capacity(before), start, n),
        1 <= n,
        run_freed(before, after, start, n),
    ensures
        taken(after) == taken(before).difference(set_int_range(start, start + n)),
{
    let p = start / SLOTS_PER_PAGE as int;
    let k = (start % SLOTS_PER_PAGE as int) / SLOTS_PER_ROW as int;
    let bit = (start % SLOTS_PER_PAGE as int) % SLOTS_PER_ROW as int;
    assert(start == slot_number(p, k, bit));
    assert forall|s: int| #[trigger] taken(after).contains(s) <==> taken(before).difference(
        set_int_range(start, start + n),
    ).contains(s) by {
        if 0 <= s < capacity(before) {
            let q = s / SLOTS_PER_PAGE as int;
            let j = (s % SLOTS_PER_PAGE as int) / SLOTS_PER_ROW as int;
            let i = (s % SLOTS_PER_PAGE as int) % SLOTS_PER_ROW as int;
            assert(s == slot_number(q, j, i));
            if q == p && j == k {
                assert(slot_taken(after[p].rows@[k], i) <==> (!(bit <= i < bit + n) && slot_taken(
                    before[p].rows@[k],
                    i,
                )));
                assert(bit <= i < bit + n <==> start <= s < start + n);
            } else {
                assert(after[q].rows@[j] == before[q].rows@[j]);
                assert(!(start <= s < start + n));
            }
        }
    }
    assert(taken(after) =~= taken(before).difference(set_int_range(start, start + n)));
}

/// The taken slots are a finite set below the capacity.
pub proof fn lemma_taken_finite(pages: Seq<Page>)
    ensures
        taken(pages).finite(),
        taken(pages).subset_of(set_int_range(0, capacity(pages))),
        taken(pages).len() <= capacity(pages),
{
    vstd::set_lib::lemma_int_range(0, capacity(pages));
    assert(taken(pages).subset_of(set_int_range(0, capacity(pages))));
    vstd::set_lib::lemma_len_subset(taken(pages), set_int_range(0, capacity(pages)));
}

} // verus!
