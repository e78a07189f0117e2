use kosa::bitmap::page::{Page, SLOTS_PER_PAGE, USABLE_ROWS_PER_PAGE};
use kosa::bitmap::row::SLOTS_PER_ROW;
use kosa::bitmap::simd::{Arch, SIMD};
use kosa::bitmap::BitMap;
use std::collections::HashSet;

const INIT_PAGES: usize = 0x0A;

fn simd() -> SIMD {
    SIMD::new(Arch::X86_64, true)
}

fn init() -> BitMap {
    BitMap::new(simd(), INIT_PAGES)
}

#[test]
fn ok_cross_word() {
    let mut bitmap = init();

    let bit = bitmap.allocate(0x60).unwrap();
    assert_eq!(bit, 0);

    bitmap.free(bit, 0x60);
    let bit2 = bitmap.allocate(0x60).unwrap();

    assert_eq!(bit2, 0x40);
}

#[test]
fn ok_reuse_after_free() {
    let mut bitmap = init();

    let first = bitmap.allocate(0x60).unwrap();
    bitmap.free(first, 0x60);

    let second = bitmap.allocate(0x60).unwrap();
    bitmap.free(second, 0x60);

    assert_ne!(first, usize::MAX);
    assert_ne!(second, usize::MAX);
}

#[test]
fn ok_multiple_sizes() {
    let mut bitmap = init();

    for size in 1..=SLOTS_PER_ROW {
        let bit = bitmap.allocate(size).unwrap();
        bitmap.free(bit, size);
    }
}

#[test]
fn ok_random_allocate_free() {
    let mut bitmap = init();

    let mut allocs = Vec::new();
    for i in 0..0x2000 {
        let size = (i % SLOTS_PER_ROW) + 1;
        if let Some(bit) = bitmap.allocate(size) {
            allocs.push((bit, size));
        }

        if allocs.len() > 0x20 {
            let (bit, size) = allocs.remove(0);
            bitmap.free(bit, size);
        }
    }

    while let Some((bit, size)) = allocs.pop() {
        bitmap.free(bit, size);
    }

    assert!(bitmap.allocate(SLOTS_PER_ROW).is_some());
}

#[test]
fn ok_fragmentation() {
    let mut bitmap = init();

    let mut allocs = Vec::new();
    for _ in 0..0x40 {
        allocs.push(bitmap.allocate(4).unwrap());
    }

    for bit in allocs.iter().step_by(2) {
        bitmap.free(*bit, 4);
    }

    for _ in 0..0x20 {
        assert!(bitmap.allocate(4).is_some());
    }
}

#[test]
fn ok_single_bit_until_full() {
    let mut bitmap = init();
    let mut seen = HashSet::new();
    let total_capacity = SLOTS_PER_PAGE * INIT_PAGES;

    for _ in 0..total_capacity {
        let bit = bitmap.allocate(1).unwrap();
        assert!(seen.insert(bit));
    }

    assert_eq!(bitmap.allocate(1), None);
}

#[test]
fn ok_entire_page() {
    let mut bitmap = init();
    let total_rows = USABLE_ROWS_PER_PAGE * INIT_PAGES;

    for _ in 0..total_rows {
        assert!(bitmap.allocate(SLOTS_PER_ROW).is_some());
    }

    assert_eq!(bitmap.allocate(1), None);
}

#[test]
fn ok_fill_all_rows() {
    let mut bitmap = init();
    let total_rows = USABLE_ROWS_PER_PAGE * INIT_PAGES;

    for _ in 0..total_rows {
        assert!(bitmap.allocate(SLOTS_PER_ROW).is_some());
    }

    assert_eq!(bitmap.allocate(1), None);
}

#[test]
fn ok_unique_indices() {
    let mut bitmap = init();
    let mut seen = HashSet::new();

    while let Some(bit) = bitmap.allocate(1) {
        assert!(seen.insert(bit), "duplicate allocation: {bit}");
    }

    assert_eq!(seen.len(), SLOTS_PER_PAGE * INIT_PAGES);
}

#[test]
fn ok_fill_and_empty_page() {
    let mut bitmap = init();
    let mut allocs = Vec::new();

    // Fill all pages
    while let Some(bit) = bitmap.allocate(1) {
        allocs.push(bit);
    }

    assert_eq!(allocs.len(), SLOTS_PER_PAGE * INIT_PAGES);

    // Free exactly one page worth of slots to test capacity recovery
    for bit in allocs.into_iter().take(SLOTS_PER_PAGE) {
        bitmap.free(bit, 1);
    }

    assert!(bitmap.allocate(SLOTS_PER_PAGE / USABLE_ROWS_PER_PAGE).is_some());
}

#[test]
fn ok_single_allocation() {
    let mut bitmap = init();

    let bit = bitmap.allocate(1).unwrap();
    bitmap.free(bit, 1);

    assert!(bitmap.allocate(SLOTS_PER_ROW).is_some());
}

#[test]
fn ok_first_allocation() {
    let mut bitmap = init();

    let first = bitmap.allocate(8).unwrap();
    let second = bitmap.allocate(8).unwrap();

    bitmap.free(first, 8);
    bitmap.free(second, 8);

    assert!(bitmap.allocate(SLOTS_PER_ROW).is_some());
}

#[test]
fn ok_last_allocation() {
    let mut bitmap = init();

    let mut last = None;
    while let Some(bit) = bitmap.allocate(1) {
        last = Some(bit);
    }

    let last = last.expect("expected at least one allocation");
    bitmap.free(last, 1);

    assert!(bitmap.allocate(1).is_some());
}

#[test]
fn ok_cross_word_allocation() {
    let mut bitmap = init();

    let bit = bitmap.allocate(0x60).unwrap();
    bitmap.free(bit, 0x60);

    assert!(bitmap.allocate(0x60).is_some());
}

#[test]
fn mod_ok_entire_row() {
    let mut bitmap = init();

    let mut allocs = Vec::new();
    for _ in 0..USABLE_ROWS_PER_PAGE {
        allocs.push(bitmap.allocate(SLOTS_PER_ROW).unwrap());
    }

    for bit in allocs {
        bitmap.free(bit, SLOTS_PER_ROW);
    }

    for _ in 0..USABLE_ROWS_PER_PAGE {
        assert!(bitmap.allocate(SLOTS_PER_ROW).is_some());
    }
}

#[test]
fn ok_allocate_after_free() {
    let mut bitmap = init();

    let bit = bitmap.allocate(0x25).unwrap();
    bitmap.free(bit, 0x25);

    let bit2 = bitmap.allocate(0x25).unwrap();
    bitmap.free(bit2, 0x25);

    assert!(bitmap.allocate(SLOTS_PER_ROW).is_some());
}

#[test]
fn ok_free_random_order() {
    let mut bitmap = init();

    let mut allocs = Vec::new();
    let mut size = 1;

    while let Some(bit) = bitmap.allocate(size) {
        allocs.push((bit, size));
        size += 1;

        if size > SLOTS_PER_ROW {
            size = 1;
        }
    }

    assert!(!allocs.is_empty());

    while !allocs.is_empty() {
        let idx = allocs.len() / 2;
        let (bit, size) = allocs.swap_remove(idx);
        bitmap.free(bit, size);
    }

    while bitmap.allocate(1).is_some() {}

    assert_eq!(bitmap.allocate(1), None);
}

fn rand(state: &mut u64) -> u64 {
    *state ^= *state << 0x0D;
    *state ^= *state >> 7;
    *state ^= *state << 0x11;
    *state
}

#[test]
fn stress_random_operations() {
    const OPS: usize = 0x20_000;

    let mut bitmap = init();

    let mut rng: u64 = 0xDEADC0DECAFEBABE;
    let mut allocs = Vec::<(usize, usize)>::new();

    for _ in 0..OPS {
        if allocs.is_empty() || (rand(&mut rng) % 0x64) < 0x3C {
            let size = (rand(&mut rng) as usize % SLOTS_PER_ROW) + 1;

            if let Some(bit) = bitmap.allocate(size) {
                allocs.push((bit, size));
            }
        } else {
            let idx = rand(&mut rng) as usize % allocs.len();
            let (bit, size) = allocs.swap_remove(idx);

            bitmap.free(bit, size);
        }
    }

    while let Some((bit, size)) = allocs.pop() {
        bitmap.free(bit, size);
    }

    // NOTE: Should be completely reusable
    let mut count = 0;
    while bitmap.allocate(1).is_some() {
        count += 1;
    }

    assert_eq!(count, INIT_PAGES * SLOTS_PER_PAGE);
}

#[test]
fn taken_slots_are_those_of_the_live_runs() {
    let mut bitmap = BitMap::new(simd(), 3);
    let mut rng: u64 = 0x1234_5678_9ABC_DEF1;
    let mut live = Vec::<(usize, usize)>::new();
    let mut taken = HashSet::new();

    for _ in 0..0x2000 {
        if live.is_empty() || rand(&mut rng) % 0x64 < 0x38 {
            let n = (rand(&mut rng) as usize % 0x60) + 1;
            if let Some(slot) = bitmap.allocate(n) {
                for s in slot..slot + n {
                    assert!(taken.insert(s), "slot {s} was handed out twice");
                }
                live.push((slot, n));
            }
        } else {
            let idx = rand(&mut rng) as usize % live.len();
            let (slot, n) = live.swap_remove(idx);
            bitmap.free(slot, n);
            for s in slot..slot + n {
                assert!(taken.remove(&s));
            }
        }
    }

    // what is left over is exactly what no live run holds
    while let Some(slot) = bitmap.allocate(1) {
        assert!(taken.insert(slot));
    }
    assert_eq!(taken.len(), 3 * SLOTS_PER_PAGE);
}

#[test]
fn next_allocation_starts_in_the_next_word() {
    let mut bitmap = init();

    assert_eq!(bitmap.allocate(1), Some(0));
    assert_eq!(bitmap.allocate(1), Some(0x40));
    assert_eq!(bitmap.allocate(1), Some(0x80));
    assert_eq!(bitmap.allocate(1), Some(0xC0));
    assert_eq!(bitmap.allocate(1), Some(1));

    // the search starts in the second word, behind its first slot
    assert_eq!(bitmap.allocate(0x3F), Some(0x41));

    // no run of this length is left in the first row
    assert_eq!(bitmap.allocate(0x40), Some(SLOTS_PER_ROW + 0x80));
}

#[test]
fn allocation_goes_on_in_the_next_page_and_stays_there() {
    let mut bitmap = init();

    for row in 0..USABLE_ROWS_PER_PAGE {
        assert_eq!(bitmap.allocate(SLOTS_PER_ROW), Some(row * SLOTS_PER_ROW));
    }
    assert_eq!(bitmap.allocate(SLOTS_PER_ROW), Some(SLOTS_PER_PAGE));

    // page 0 has room again, but the search starts at page 1
    bitmap.free(0, SLOTS_PER_ROW);
    assert_eq!(bitmap.allocate(SLOTS_PER_ROW), Some(SLOTS_PER_PAGE + SLOTS_PER_ROW));
}

#[test]
fn pages_wrap_around() {
    let mut bitmap = BitMap::new(simd(), 2);

    for _ in 0..2 * USABLE_ROWS_PER_PAGE {
        assert!(bitmap.allocate(SLOTS_PER_ROW).is_some());
    }
    assert_eq!(bitmap.allocate(1), None);

    bitmap.free(SLOTS_PER_ROW + 7, 3);
    assert_eq!(bitmap.allocate(4), None);
    assert_eq!(bitmap.allocate(3), Some(SLOTS_PER_ROW + 7));
    assert_eq!(bitmap.allocate(1), None);
}

#[test]
fn bitmap_without_pages_has_no_room() {
    let mut bitmap = BitMap::new(simd(), 0);
    assert_eq!(bitmap.allocate(1), None);
}

#[test]
fn shorter_run_fits_where_a_longer_one_did() {
    let mut bitmap = BitMap::new(simd(), 1);
    for _ in 0..USABLE_ROWS_PER_PAGE {
        bitmap.allocate(SLOTS_PER_ROW).unwrap();
    }

    bitmap.free(0x20, 9);
    for n in (1..=9).rev() {
        let slot = bitmap.allocate(n).unwrap();
        assert_eq!(slot, 0x20);
        bitmap.free(slot, n);
    }
    assert_eq!(bitmap.allocate(10), None);
}

#[test]
fn freeing_free_slots_changes_nothing() {
    let mut bitmap = BitMap::new(simd(), 1);

    bitmap.free(5, 7);
    for row in 0..USABLE_ROWS_PER_PAGE {
        assert_eq!(bitmap.allocate(SLOTS_PER_ROW), Some(row * SLOTS_PER_ROW));
    }
    assert_eq!(bitmap.allocate(1), None);
}

#[test]
fn first_search_starts_at_the_first_page_with_room() {
    assert_eq!(BitMap::find_init_page_idx(&vec![]), 0);
    assert_eq!(BitMap::find_init_page_idx(&vec![0, 0]), 0);
    assert_eq!(BitMap::find_init_page_idx(&vec![7, 7, 6, 0]), 2);
    assert_eq!(BitMap::find_init_page_idx(&vec![7, 7, 7]), 0);
}

#[test]
fn reopened_bitmap_knows_what_is_taken() {
    let simd = simd();
    let mut pages = vec![Page::zeroed(), Page::zeroed()];

    for row in 0..USABLE_ROWS_PER_PAGE {
        assert_eq!(pages[0].allocate(&simd, SLOTS_PER_ROW), Some(row * SLOTS_PER_ROW));
    }
    assert_eq!(pages[1].allocate(&simd, 3), Some(0));

    let stored: Vec<[u64; 32]> = pages.iter().map(|page| page.to_words()).collect();
    let loaded: Vec<Page> = stored.iter().map(|words| Page::from_words(words)).collect();
    assert!(loaded.iter().all(|page| page.is_wf()));
    let mut bitmap = BitMap::open(simd, loaded);

    assert_eq!(bitmap.allocate(0x40), Some(SLOTS_PER_PAGE + 0x40));
    assert_eq!(bitmap.allocate(0x3E), Some(SLOTS_PER_PAGE + 0x80));
}
