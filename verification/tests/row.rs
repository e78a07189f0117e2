use kosa::bitmap::row::{
    clear_run, find_free_run, is_run_free, run_mask, set_run, FULL_WORD, SLOTS_PER_ROW,
    WORDS_PER_ROW,
};

#[test]
fn ok_empty_row() {
    let row = [0; WORDS_PER_ROW];

    assert_eq!(find_free_run(&row, 0, 1), Some(0));
    assert_eq!(find_free_run(&row, 0, 0x40), Some(0));
    assert_eq!(find_free_run(&row, 0, SLOTS_PER_ROW), Some(0));
}

#[test]
fn ok_full_row() {
    let row = [FULL_WORD; WORDS_PER_ROW];

    assert_eq!(find_free_run(&row, 0, 1), None);
    assert_eq!(find_free_run(&row, 0, 0x40), None);
    assert_eq!(find_free_run(&row, 0, SLOTS_PER_ROW), None);
}

#[test]
fn ok_exactly_fills_row() {
    let row = [0; WORDS_PER_ROW];
    assert_eq!(find_free_run(&row, 0, SLOTS_PER_ROW), Some(0));
}

#[test]
fn ok_starts_at_last_word() {
    let mut row = [FULL_WORD; WORDS_PER_ROW];
    row[3] = 0;

    assert_eq!(find_free_run(&row, 3, 0x20), Some(0xC0));
}

#[test]
fn ok_honors_start_word() {
    let mut row = [FULL_WORD; WORDS_PER_ROW];

    row[0] = 0;
    row[2] = 0;

    assert_eq!(find_free_run(&row, 2, 8), Some(0x80));
}

#[test]
fn ok_wraps_to_beginning() {
    let mut row = [FULL_WORD; WORDS_PER_ROW];

    row[0] = 0;
    row[3] = FULL_WORD;

    assert_eq!(find_free_run(&row, 3, 8), Some(0));
}

#[test]
fn ok_single_bit() {
    let mut row = [FULL_WORD; WORDS_PER_ROW];
    row[1] = !(1 << 0x11);

    assert_eq!(find_free_run(&row, 0, 1), Some(0x51));
}

#[test]
fn ok_entire_row() {
    assert_eq!(find_free_run(&[0; WORDS_PER_ROW], 0, 0x100), Some(0));
}

#[test]
fn run_does_not_wrap_at_the_end_of_a_row() {
    let mut row = [0; WORDS_PER_ROW];
    row[1] = FULL_WORD;

    assert_eq!(find_free_run(&row, 3, 0x41), Some(0x80));
    assert_eq!(find_free_run(&row, 3, 0x81), None);
}

#[test]
fn mask_covers_its_bits() {
    assert_eq!(run_mask(0, 0x40), u64::MAX);
    assert_eq!(run_mask(0, 1), 1);
    assert_eq!(run_mask(4, 3), 0x70);
    assert_eq!(run_mask(0x3F, 1), 1 << 0x3F);
}

#[test]
fn run_is_set_across_words_and_cleared_again() {
    let mut row = [0; WORDS_PER_ROW];

    set_run(&mut row, 0x3C, 0x48);
    assert_eq!(row, [0xF << 0x3C, FULL_WORD, 0xF, 0]);

    assert!(is_run_free(&row, 0, 0x3C));
    assert!(!is_run_free(&row, 0, 0x3D));
    assert!(!is_run_free(&row, 0x83, 1));
    assert!(is_run_free(&row, 0x84, 0x7C));
    assert!(is_run_free(&row, 0x40, 0));

    clear_run(&mut row, 0x40, 0x40);
    assert_eq!(row, [0xF << 0x3C, 0, 0xF, 0]);

    clear_run(&mut row, 0, SLOTS_PER_ROW);
    assert_eq!(row, [0; WORDS_PER_ROW]);
}
