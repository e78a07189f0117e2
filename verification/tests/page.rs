use kosa::bitmap::page::{Page, SLOTS_PER_PAGE, USABLE_ROWS_PER_PAGE};
use kosa::bitmap::row::SLOTS_PER_ROW;
use kosa::bitmap::scan::{PageScan, ScanAction};
use kosa::bitmap::simd::{Arch, SIMD};

fn simd() -> SIMD {
    SIMD::new(Arch::X86_64, false)
}

#[test]
fn new_page_is_stored_as_zeroes() {
    assert_eq!(Page::zeroed().to_words(), [0u64; 32]);
}

#[test]
fn page_is_stored_behind_its_bookkeeping() {
    let mut page = Page::zeroed();

    assert_eq!(page.allocate(&simd(), SLOTS_PER_ROW), Some(0));
    assert_eq!(page.allocate(&simd(), 2), Some(SLOTS_PER_ROW + 0x40));

    let words = page.to_words();
    assert_eq!(words[..4], [2, 1, 0, 0]);
    assert_eq!(words[4..8], [u64::MAX; 4]);
    assert_eq!(words[8..12], [0, 3, 0, 0]);
    assert!(words[12..].iter().all(|&word| word == 0));
}

#[test]
fn stored_page_comes_back() {
    let mut words = [0u64; 32];
    for (i, word) in words.iter_mut().enumerate() {
        *word = 0x0101_0101 * (i as u64 + 1);
    }
    words[0] = 3;
    words[1] = 5;

    let page = Page::from_words(&words);
    assert_eq!(page.meta.current_word_ptr, 3);
    assert_eq!(page.meta.full_rows_counter, 5);
    assert_eq!(page.rows[0][0], words[4]);
    assert_eq!(page.rows[6][3], words[31]);
    assert_eq!(page.to_words(), words);
}

#[test]
fn full_rows_are_counted() {
    let mut page = Page::zeroed();

    for row in 0..USABLE_ROWS_PER_PAGE {
        assert_eq!(page.allocate(&simd(), 0xFF), Some(row * SLOTS_PER_ROW));
    }
    assert_eq!(page.meta.full_rows_counter, 0);

    for row in 0..USABLE_ROWS_PER_PAGE {
        assert_eq!(page.allocate(&simd(), 1), Some(row * SLOTS_PER_ROW + 0xFF));
        assert_eq!(page.meta.full_rows_counter, row as u64 + 1);
    }
    assert_eq!(page.allocate(&simd(), 1), None);

    page.free(&simd(), SLOTS_PER_ROW + 0x80, 1);
    assert_eq!(page.meta.full_rows_counter, 6);
    assert_eq!(page.meta.current_word_ptr, 3);

    page.free(&simd(), SLOTS_PER_ROW + 0xC0, 2);
    assert_eq!(page.meta.full_rows_counter, 6);
    assert_eq!(page.meta.current_word_ptr, 0);
}

#[test]
fn page_that_counts_itself_full_is_not_searched() {
    let mut page = Page::zeroed();
    page.meta.full_rows_counter = USABLE_ROWS_PER_PAGE as u64;

    assert_eq!(page.allocate(&simd(), 1), None);
}

#[test]
fn bookkeeping_is_held_against_the_rows() {
    let mut page = Page::zeroed();
    assert!(page.is_wf());

    assert_eq!(page.allocate(&simd(), SLOTS_PER_ROW), Some(0));
    assert_eq!(page.allocate(&simd(), 7), Some(SLOTS_PER_ROW + 0x40));
    assert!(page.is_wf());

    let mut wrong = page;
    wrong.meta.full_rows_counter = 0;
    assert!(!wrong.is_wf());

    let mut wrong = page;
    wrong.meta.current_word_ptr = 4;
    assert!(!wrong.is_wf());

    let mut wrong = page;
    wrong.rows[3] = [u64::MAX; 4];
    assert!(!wrong.is_wf());
    wrong.meta.full_rows_counter = 2;
    assert!(wrong.is_wf());
}

#[test]
fn scan_goes_round_the_pages() {
    let mut scan = PageScan::begin(2, 3);

    assert_eq!(scan.action(), ScanAction::Visit(2));
    scan.report(None);
    assert_eq!(scan.action(), ScanAction::Visit(0));
    scan.report(None);
    assert_eq!(scan.action(), ScanAction::Visit(1));
    scan.report(None);
    assert_eq!(scan.action(), ScanAction::Exhausted);
}

#[test]
fn scan_settles_on_what_was_found() {
    let mut scan = PageScan::begin(1, 3);

    scan.report(None);
    assert_eq!(scan.action(), ScanAction::Visit(2));
    scan.report(Some(9));
    assert_eq!(
        scan.action(),
        ScanAction::Settled { page_idx: 2, slot: 2 * SLOTS_PER_PAGE + 9 }
    );
}

#[test]
fn scan_over_no_pages_is_exhausted() {
    assert_eq!(PageScan::begin(0, 0).action(), ScanAction::Exhausted);
}

#[test]
fn free_undoes_an_allocation() {
    let mut page = Page::zeroed();
    page.allocate(&simd(), 0x30).unwrap();
    let rows = page.rows;

    let slot = page.allocate(&simd(), 0x90).unwrap();
    assert_ne!(page.rows, rows);

    page.free(&simd(), slot, 0x90);
    assert_eq!(page.rows, rows);
}
