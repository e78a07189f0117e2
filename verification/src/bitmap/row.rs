//! A row of the bitmap: 256 slots kept as four words, one bit per slot.
//!
//! A set bit is a taken slot. Slot `i` of a row is bit `i % 64` of word `i / 64`.
use vstd::prelude::*;

verus! {

/// One word of the bitmap.
pub type Word = u64;

/// Four words, which hold the state of [`SLOTS_PER_ROW`] slots.
pub type Row = [u64; 4];

/// A word in which every slot is taken.
pub const FULL_WORD: u64 = 0xFFFF_FFFF_FFFF_FFFF;

/// Words in a [`Row`].
pub const WORDS_PER_ROW: usize = 4;

/// Slots in a [`Word`].
pub const SLOTS_PER_WORD: usize = 64;

/// Slots in a [`Row`].
pub const SLOTS_PER_ROW: usize = 256;

/// Bit `j` of a word is set.
pub open spec fn bit_set(word: u64, j: int) -> bool {
    (word >> (j as u64)) & 1 == 1
}

/// Slot `i` of a row is taken.
pub open spec fn slot_taken(row: Row, i: int) -> bool {
    bit_set(row@[i / 64], i % 64)
}

/// All slots in `start..start + n` of a row are free.
pub open spec fn run_free(row: Row, start: int, n: int) -> bool {
    forall|i: int| start <= i < start + n ==> !slot_taken(row, i)
}

/// Some run of `n` slots of a row is free.
pub open spec fn has_run(row: Row, n: int) -> bool {
    exists|start: int| 0 <= start <= SLOTS_PER_ROW - n && run_free(row, start, n)
}

/// Every slot of a row is taken.
pub open spec fn row_full(row: Row) -> bool {
    forall|i: int| 0 <= i < SLOTS_PER_ROW ==> slot_taken(row, i)
}

/// The place of slot `b` in a search that starts at slot `from` and wraps to the beginning of
/// the row at its end.
pub open spec fn turn(from: int, b: int) -> int {
    if from <= b {
        b - from
    } else {
        SLOTS_PER_ROW + b - from
    }
}

/// `start` is the first free run of `n` slots that a search from slot `from` meets.
pub open spec fn is_first_run(row: Row, from: int, n: int, start: int) -> bool {
    &&& 0 <= start <= SLOTS_PER_ROW - n
    &&& run_free(row, start, n)
    &&& forall|b: int|
        0 <= b <= SLOTS_PER_ROW - n && #[trigger] run_free(row, b, n) ==> turn(from, start)
            <= turn(from, b)
}

/// The slots `start..start + n` are taken after an operation that left all others alone.
pub open spec fn run_set(before: Row, after: Row, start: int, n: int) -> bool {
    forall|i: int|
        0 <= i < SLOTS_PER_ROW ==> (#[trigger] slot_taken(after, i) <==> (start <= i < start + n
            || slot_taken(before, i)))
}

/// The slots `start..start + n` are free after an operation that left all others alone.
pub open spec fn run_cleared(before: Row, after: Row, start: int, n: int) -> bool {
    forall|i: int|
        0 <= i < SLOTS_PER_ROW ==> (#[trigger] slot_taken(after, i) <==> (!(start <= i < start + n)
            && slot_taken(before, i)))
}

proof fn lemma_mask_bits(offset: u64, take: u64, mask: u64, j: u64)
    requires
        1 <= take,
        offset + take <= 64,
        j < 64,
        mask == if take == 64 {
            FULL_WORD
        } else {
            (((1u64 << take) - 1) as u64) << offset
        },
    ensures
        bit_set(mask, j as int) <==> offset <= j < offset + take,
{
    assert((mask >> j) & 1 == 1 <==> offset <= j && j < offset + take) by (bit_vector)
        requires
            1 <= take,
            offset + take <= 64,
            j < 64,
            mask == if take == 64 {
                0xFFFF_FFFF_FFFF_FFFFu64
            } else {
                (((1u64 << take) - 1) as u64) << offset
            },
    ;
}

/// A word with the bits `offset..offset + take` set and no others.
pub fn run_mask(offset: usize, take: usize) -> (mask: u64)
    requires
        1 <= take,
        offset + take <= SLOTS_PER_WORD,
    ensures
        forall|j: int|
            0 <= j < SLOTS_PER_WORD ==> (#[trigger] bit_set(mask, j) <==> offset <= j < offset
                + take),
{
    let t: u64 = take as u64;
    let o: u64 = offset as u64;
    let mask: u64 = if take == SLOTS_PER_WORD {
        FULL_WORD
    } else {
        assert(1u64 << t >= 1) by (bit_vector)
            requires
                t < 64,
        ;
        ((1u64 << t) - 1) << o
    };
    proof {
        assert forall|j: int| 0 <= j < SLOTS_PER_WORD implies (#[trigger] bit_set(mask, j) <==> offset
            <= j < offset + take) by {
            lemma_mask_bits(o, t, mask, j as u64);
        }
    }
    mask
}

proof fn lemma_and_zero(word: u64, mask: u64)
    ensures
        word & mask == 0 ==> forall|j: int|
            0 <= j < 64 && #[trigger] bit_set(mask, j) ==> !bit_set(word, j),
        word & mask != 0 ==> exists|j: int|
            0 <= j < 64 && #[trigger] bit_set(mask, j) && bit_set(word, j),
{
    if word & mask == 0 {
        assert forall|j: int| 0 <= j < 64 && #[trigger] bit_set(mask, j) implies !bit_set(
            word,
            j,
        ) by {
            let k: u64 = j as u64;
            assert(!((word >> k) & 1 == 1 && (mask >> k) & 1 == 1)) by (bit_vector)
                requires
                    word & mask == 0,
                    k < 64,
            ;
        }
    } else {
        let j = lemma_some_bit(word & mask);
        let k: u64 = j as u64;
        assert((word >> k) & 1 == 1 && (mask >> k) & 1 == 1) by (bit_vector)
            requires
                ((word & mask) >> k) & 1 == 1,
        ;
        assert(bit_set(mask, j) && bit_set(word, j));
    }
}

/// A word that is not zero has a bit set.
proof fn lemma_some_bit(word: u64) -> (j: int)
    requires
        word != 0,
    ensures
        0 <= j < 64,
        bit_set(word, j),
{
    assert(word >> 64 == 0) by (bit_vector);
    lemma_some_bit_below(word, 64)
}

proof fn lemma_some_bit_below(word: u64, hi: u64) -> (j: int)
    requires
        word != 0,
        hi <= 64,
        word >> hi == 0,
    ensures
        0 <= j < hi,
        bit_set(word, j),
    decreases hi,
{
    if hi == 0 {
        assert(word >> 0 == word) by (bit_vector);
        0
    } else {
        let k: u64 = (hi - 1) as u64;
        if (word >> k) & 1 == 1 {
            k as int
        } else {
            assert(word >> k == 0) by (bit_vector)
                requires
                    k + 1 == hi,
                    hi <= 64,
                    word >> hi == 0,
                    (word >> k) & 1 != 1,
            ;
            lemma_some_bit_below(word, k)
        }
    }
}

/// A row is full exactly when each of its words is [`FULL_WORD`].
pub proof fn lemma_row_full_words(row: Row)
    ensures
        row_full(row) <==> forall|w: int| 0 <= w < WORDS_PER_ROW ==> #[trigger] row@[w] == FULL_WORD,
{
    if row_full(row) {
        assert forall|w: int| 0 <= w < WORDS_PER_ROW implies #[trigger] row@[w] == FULL_WORD by {
            let word = row@[w];
            if word != FULL_WORD {
                assert(!word != 0) by (bit_vector)
                    requires
                        word != 0xFFFF_FFFF_FFFF_FFFFu64,
                ;
                let j = lemma_some_bit(!word);
                let k: u64 = j as u64;
                assert((word >> k) & 1 != 1) by (bit_vector)
                    requires
                        ((!word) >> k) & 1 == 1,
                        k < 64,
                ;
                let i = 64 * w + j;
                assert(i / 64 == w && i % 64 == j);
                assert(slot_taken(row, i));
            }
        }
    }
    if forall|w: int| 0 <= w < WORDS_PER_ROW ==> #[trigger] row@[w] == FULL_WORD {
        assert forall|i: int| 0 <= i < SLOTS_PER_ROW implies slot_taken(row, i) by {
            assert(row@[i / 64] == FULL_WORD);
            let k: u64 = (i % 64) as u64;
            assert((0xFFFF_FFFF_FFFF_FFFFu64 >> k) & 1 == 1) by (bit_vector)
                requires
                    k < 64,
            ;
        }
    }
}

/// Checks that all slots in `start..start + len` of a row are free.
pub fn is_run_free(row: &Row, start: usize, len: usize) -> (r: bool)
    requires
        len == 0 || start + len <= SLOTS_PER_ROW,
    ensures
        r == run_free(*row, start as int, len as int),
{
    let mut bit: usize = start;
    let mut left: usize = len;
    while left != 0
        invariant
            len == 0 || start + len <= SLOTS_PER_ROW,
            start <= bit,
            bit + left == start + len,
            run_free(*row, start as int, bit - start),
        decreases left,
    {
        let word: usize = bit / SLOTS_PER_WORD;
        let offset: usize = bit % SLOTS_PER_WORD;
        let take: usize = if left < SLOTS_PER_WORD - offset {
            left
        } else {
            SLOTS_PER_WORD - offset
        };
        let mask: u64 = run_mask(offset, take);
        let hit: u64 = row[word] & mask;
        proof {
            lemma_and_zero(row@[word as int], mask);
        }
        if hit != 0 {
            proof {
                let j = choose|j: int|
                    0 <= j < 64 && #[trigger] bit_set(mask, j) && bit_set(row@[word as int], j);
                let i = 64 * word + j;
                assert(i / 64 == word && i % 64 == j);
                assert(slot_taken(*row, i));
            }
            return false;
        }
        proof {
            assert forall|i: int| start <= i < bit + take implies !slot_taken(*row, i) by {
                if i >= bit {
                    assert(i / 64 == word && i % 64 == i - 64 * word);
                    assert(bit_set(mask, i % 64));
                }
            }
        }
        left = left - take;
        bit = bit + take;
    }
    true
}

proof fn lemma_word_update(word: u64, mask: u64, j: int)
    requires
        0 <= j < 64,
    ensures
        bit_set(word | mask, j) <==> (bit_set(word, j) || bit_set(mask, j)),
        bit_set(word & !mask, j) <==> (bit_set(word, j) && !bit_set(mask, j)),
{
    let k: u64 = j as u64;
    assert(((word | mask) >> k) & 1 == 1 <==> ((word >> k) & 1 == 1 || (mask >> k) & 1 == 1))
        by (bit_vector);
    assert(((word & !mask) >> k) & 1 == 1 <==> ((word >> k) & 1 == 1 && (mask >> k) & 1 != 1))
        by (bit_vector)
        requires
            k < 64,
    ;
}

/// Takes the slots `start..start + len` of a row.
pub fn set_run(row: &mut Row, start: usize, len: usize)
    requires
        len == 0 || start + len <= SLOTS_PER_ROW,
    ensures
        run_set(*old(row), *final(row), start as int, len as int),
{
    let mut bit: usize = start;
    let mut left: usize = len;
    while left != 0
        invariant
            len == 0 || start + len <= SLOTS_PER_ROW,
            start <= bit,
            bit + left == start + len,
            run_set(*old(row), *row, start as int, bit - start),
        decreases left,
    {
        let word: usize = bit / SLOTS_PER_WORD;
        let offset: usize = bit % SLOTS_PER_WORD;
        let take: usize = if left < SLOTS_PER_WORD - offset {
            left
        } else {
            SLOTS_PER_WORD - offset
        };
        let mask: u64 = run_mask(offset, take);
        let ghost prev = *row;
        row[word] = row[word] | mask;
        proof {
            assert forall|i: int| 0 <= i < SLOTS_PER_ROW implies (#[trigger] slot_taken(*row, i) <==> (
            start <= i < bit + take || slot_taken(*old(row), i))) by {
                assert(slot_taken(prev, i) <==> (start <= i < bit || slot_taken(*old(row), i)));
                if i / 64 == word {
                    lemma_word_update(prev@[word as int], mask, i % 64);
                    assert(bit_set(mask, i % 64) <==> offset <= i % 64 < offset + take);
                }
            }
        }
        left = left - take;
        bit = bit + take;
    }
}

/// Frees the slots `start..start + len` of a row.
pub fn clear_run(row: &mut Row, start: usize, len: usize)
    requires
        len == 0 || start + len <= SLOTS_PER_ROW,
    ensures
        run_cleared(*old(row), *final(row), start as int, len as int),
{
    let mut bit: usize = start;
    let mut left: usize = len;
    while left != 0
        invariant
            len == 0 || start + len <= SLOTS_PER_ROW,
            start <= bit,
            bit + left == start + len,
            run_cleared(*old(row), *row, start as int, bit - start),
        decreases left,
    {
        let word: usize = bit / SLOTS_PER_WORD;
        let offset: usize = bit % SLOTS_PER_WORD;
        let take: usize = if left < SLOTS_PER_WORD - offset {
            left
        } else {
            SLOTS_PER_WORD - offset
        };
        let mask: u64 = run_mask(offset, take);
        let ghost prev = *row;
        row[word] = row[word] & !mask;
        proof {
            assert forall|i: int| 0 <= i < SLOTS_PER_ROW implies (#[trigger] slot_taken(*row, i) <==> (
            !(start <= i < bit + take) && slot_taken(*old(row), i))) by {
                assert(slot_taken(prev, i) <==> (!(start <= i < bit) && slot_taken(*old(row), i)));
                if i / 64 == word {
                    lemma_word_update(prev@[word as int], mask, i % 64);
                    assert(bit_set(mask, i % 64) <==> offset <= i % 64 < offset + take);
                }
            }
        }
        left = left - take;
        bit = bit + take;
    }
}

/// Looks for `n` free slots in a row, one after the other.
///
/// The search starts at the first slot of word `start_word` and goes on from the beginning of the
/// row when it has reached the end. A run does not wrap.
pub fn find_free_run(row: &Row, start_word: usize, n: usize) -> (r: Option<usize>)
    requires
        start_word < WORDS_PER_ROW,
        1 <= n <= SLOTS_PER_ROW,
    ensures
        match r {
            Some(bit) => is_first_run(*row, start_word * SLOTS_PER_WORD, n as int, bit as int),
            None => !has_run(*row, n as int),
        },
{
    let start: usize = start_word * SLOTS_PER_WORD;
    let last: usize = SLOTS_PER_ROW - n;
    let mut bit: usize = start;
    while bit <= last
        invariant
            start <= bit,
            start < SLOTS_PER_ROW,
            start == start_word * SLOTS_PER_WORD,
            last == SLOTS_PER_ROW - n,
            1 <= n <= SLOTS_PER_ROW,
            forall|b: int| start <= b < bit ==> !#[trigger] run_free(*row, b, n as int),
        decreases SLOTS_PER_ROW - bit,
    {
        if is_run_free(row, bit, n) {
            return Some(bit);
        }
        bit = bit + 1;
    }
    let ghost past = bit;
    bit = 0;
    while bit < start && bit <= last
        invariant
            bit <= start,
            start < SLOTS_PER_ROW,
            start == start_word * SLOTS_PER_WORD,
            last == SLOTS_PER_ROW - n,
            1 <= n <= SLOTS_PER_ROW,
            past > last,
            forall|b: int| start <= b < past ==> !#[trigger] run_free(*row, b, n as int),
            forall|b: int| 0 <= b < bit ==> !#[trigger] run_free(*row, b, n as int),
        decreases start - bit,
    {
        if is_run_free(row, bit, n) {
            return Some(bit);
        }
        bit = bit + 1;
    }
    None
}

} // verus!
