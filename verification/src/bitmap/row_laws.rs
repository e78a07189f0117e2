//! What the operations on a row look at and change, bit by bit.
//!
//! The laws speak of the words themselves: a row has 256 slots, slot `i` is bit `i % 64` of word
//! `i / 64`, and a set bit is a taken slot.
use crate::bitmap::row::{
    bit_set, clear_run, find_free_run, has_run, is_run_free, lemma_row_full_words, row_full,
    run_free, run_mask, set_run, slot_taken, Row,
};
use crate::bitmap::simd::{is_slot_full_linear, SIMD};
use vstd::prelude::*;

verus! {

/// A run whose bits are clear is a free run.
pub proof fn lemma_clear_bits(row: Row, b: int, n: int)
    requires
        forall|i: int| b <= i < b + n ==> (#[trigger] row@[i / 64] >> ((i % 64) as u64)) & 1 != 1,
    ensures
        run_free(row, b, n),
{
    assert forall|i: int| b <= i < b + n implies !slot_taken(row, i) by {
        assert((row@[i / 64] >> ((i % 64) as u64)) & 1 != 1);
    }
}

/// A mask has the bits of its run set and no others.
pub proof fn law_mask_covers_its_run(offset: usize, take: usize, mask: u64, j: int)
    requires
        1 <= take,
        offset + take <= 64,
        call_ensures(run_mask, (offset, take), mask),
        0 <= j < 64,
    ensures
        (mask >> (j as u64)) & 1 == 1 <==> offset <= j < offset + take,
{
    assert(bit_set(mask, j) <==> offset <= j < offset + take);
}

/// A run is free exactly when the bits of its slots are clear.
pub proof fn law_free_test_looks_at_every_bit(row: Row, start: usize, len: usize, r: bool)
    requires
        len == 0 || start + len <= 256,
        call_ensures(is_run_free, (&row, start, len), r),
    ensures
        r <==> forall|i: int|
            start <= i < start + len ==> (#[trigger] row@[i / 64] >> ((i % 64) as u64)) & 1 != 1,
{
    if r {
        assert forall|i: int| start <= i < start + len implies (#[trigger] row@[i / 64] >> ((i
            % 64) as u64)) & 1 != 1 by {
            assert(!slot_taken(row, i));
        }
    }
    if forall|i: int|
        start <= i < start + len ==> (#[trigger] row@[i / 64] >> ((i % 64) as u64)) & 1 != 1 {
        lemma_clear_bits(row, start as int, len as int);
    }
}

/// Taking a run sets the bits of its slots and leaves every other bit alone.
pub proof fn law_set_run_sets_its_bits(row: &mut Row, start: usize, len: usize, i: int)
    requires
        len == 0 || start + len <= 256,
        call_ensures(set_run, (row, start, len), ()),
        0 <= i < 256,
    ensures
        (final(row)@[i / 64] >> ((i % 64) as u64)) & 1 == 1 <==> (start <= i < start + len || (
        old(row)@[i / 64] >> ((i % 64) as u64)) & 1 == 1),
{
    assert(slot_taken(*final(row), i) <==> (start <= i < start + len || slot_taken(*old(row), i)));
}

/// Freeing a run clears the bits of its slots and leaves every other bit alone.
pub proof fn law_clear_run_clears_its_bits(row: &mut Row, start: usize, len: usize, i: int)
    requires
        len == 0 || start + len <= 256,
        call_ensures(clear_run, (row, start, len), ()),
        0 <= i < 256,
    ensures
        (final(row)@[i / 64] >> ((i % 64) as u64)) & 1 == 1 <==> (!(start <= i < start + len) && (
        old(row)@[i / 64] >> ((i % 64) as u64)) & 1 == 1),
{
    assert(slot_taken(*final(row), i) <==> (!(start <= i < start + len) && slot_taken(
        *old(row),
        i,
    )));
}

/// Every row can be searched for any run that fits in it, from any of its words on.
pub proof fn law_search_takes_every_call(row: Row, start_word: usize, n: usize)
    requires
        start_word < 4,
        1 <= n <= 256,
    ensures
        call_requires(find_free_run, (&row, start_word, n)),
{
}

/// A run that was found lies within the row, and none of its bits is set.
pub proof fn law_found_run_is_free(row: Row, start_word: usize, n: usize, s: usize, i: int)
    requires
        start_word < 4,
        1 <= n <= 256,
        call_ensures(find_free_run, (&row, start_word, n), Some(s)),
        s <= i < s + n,
    ensures
        s + n <= 256,
        (row@[i / 64] >> ((i % 64) as u64)) & 1 != 1,
{
    assert(!slot_taken(row, i));
}

/// Where a run at `b` is free, a search finds a run, and it finds the least one from the first
/// slot of `start_word` on; only if there is none does it find the least one below that slot.
pub proof fn law_found_run_is_first(
    row: Row,
    start_word: usize,
    n: usize,
    r: Option<usize>,
    b: int,
)
    requires
        start_word < 4,
        1 <= n <= 256,
        call_ensures(find_free_run, (&row, start_word, n), r),
        0 <= b,
        b + n <= 256,
        forall|i: int| b <= i < b + n ==> (#[trigger] row@[i / 64] >> ((i % 64) as u64)) & 1 != 1,
    ensures
        r is Some,
        b >= 64 * start_word ==> 64 * start_word <= r->0 <= b,
        b < 64 * start_word ==> r->0 >= 64 * start_word || r->0 <= b,
{
    lemma_clear_bits(row, b, n as int);
    assert(has_run(row, n as int));
}

/// A search that finds nothing has met a taken slot in every run.
pub proof fn law_nothing_found_means_no_room(row: Row, start_word: usize, n: usize, b: int)
    requires
        start_word < 4,
        1 <= n <= 256,
        call_ensures(find_free_run, (&row, start_word, n), None),
        0 <= b,
        b + n <= 256,
    ensures
        exists|i: int|
            b <= i < b + n && (#[trigger] row@[i / 64] >> ((i % 64) as u64)) & 1 == 1,
{
    if forall|i: int| b <= i < b + n ==> (#[trigger] row@[i / 64] >> ((i % 64) as u64)) & 1 != 1 {
        law_found_run_is_first(row, start_word, n, None, b);
    }
}

/// Two runs of at least a word each share a row that they fit in: in an empty row the first is
/// found at slot 0, and the second right behind it.
pub proof fn law_two_runs_share_a_row(
    row: &mut Row,
    n: usize,
    first: Option<usize>,
    second: Option<usize>,
)
    requires
        64 <= n <= 128,
        forall|w: int| 0 <= w < 4 ==> #[trigger] old(row)@[w] == 0,
        call_ensures(find_free_run, (&*old(row), 0usize, n), first),
        call_ensures(set_run, (row, 0usize, n), ()),
        call_ensures(find_free_run, (&*final(row), 1usize, n), second),
    ensures
        first == Some(0usize),
        second == Some(n),
{
    assert forall|i: int| 0 <= i < 256 implies (#[trigger] old(row)@[i / 64] >> ((i % 64) as u64))
        & 1 != 1 by {
        let k = (i % 64) as u64;
        assert((0u64 >> k) & 1 != 1) by (bit_vector);
    }
    law_found_run_is_first(*old(row), 0, n, first, 0);
    assert forall|i: int| n <= i < 256 implies (#[trigger] final(row)@[i / 64] >> ((i % 64) as u64))
        & 1 != 1 by {
        law_set_run_sets_its_bits(row, 0, n, i);
        assert((old(row)@[i / 64] >> ((i % 64) as u64)) & 1 != 1);
    }
    law_found_run_is_first(*final(row), 1, n, second, n as int);
    let s = second->0;
    if s < n {
        law_set_run_sets_its_bits(row, 0, n, s as int);
        law_found_run_is_free(*final(row), 1, n, s, s as int);
    }
}

/// A row is full exactly when all bits of its four words are set.
pub proof fn lemma_full_words(row: Row)
    ensures
        row_full(row) <==> row@[0] == u64::MAX && row@[1] == u64::MAX && row@[2] == u64::MAX
            && row@[3] == u64::MAX,
{
    lemma_row_full_words(row);
    if row@[0] == u64::MAX && row@[1] == u64::MAX && row@[2] == u64::MAX && row@[3] == u64::MAX {
        assert forall|w: int| 0 <= w < 4 implies #[trigger] row@[w] == u64::MAX by {}
    }
}

/// With every instruction set, a row is reported full exactly when all bits of its four words are
/// set.
pub proof fn law_full_test_looks_at_every_word(
    simd: SIMD,
    row: Row,
    best: bool,
    sse2: bool,
    avx2: bool,
    neon: bool,
    linear: bool,
)
    requires
        call_ensures(SIMD::is_row_full, (&simd, &row), best),
        call_ensures(SIMD::is_row_full_sse2, (&row,), sse2),
        call_ensures(SIMD::is_row_full_avx2, (&row,), avx2),
        call_ensures(SIMD::is_row_full_neon, (&row,), neon),
        call_ensures(is_slot_full_linear, (&row,), linear),
    ensures
        sse2 == best && avx2 == best && neon == best && linear == best,
        best <==> row@[0] == u64::MAX && row@[1] == u64::MAX && row@[2] == u64::MAX && row@[3]
            == u64::MAX,
{
    lemma_full_words(row);
}

} // verus!
