use kosa::bitmap::row::{Row, FULL_WORD};
use kosa::bitmap::simd::{is_slot_full_linear, Arch, SIMD};

fn validate_impl<F>(func: F)
where
    F: Fn(&Row) -> bool,
{
    let cases = [
        ([FULL_WORD, FULL_WORD, FULL_WORD, FULL_WORD], true),
        ([0, FULL_WORD, FULL_WORD, FULL_WORD], false),
        ([FULL_WORD, 0, FULL_WORD, FULL_WORD], false),
        ([FULL_WORD, FULL_WORD, 0, FULL_WORD], false),
        ([FULL_WORD, FULL_WORD, FULL_WORD, 0], false),
        ([0, 0, 0, 0], false),
        ([1, 2, 3, 4], false),
        ([FULL_WORD, FULL_WORD - 1, FULL_WORD, FULL_WORD], false),
    ];

    for (slot, expected) in cases {
        assert_eq!(func(&slot), expected);
        assert_eq!(func(&slot), is_slot_full_linear(&slot));
    }
}

fn every_host() -> Vec<SIMD> {
    vec![
        SIMD::new(Arch::X86_64, false),
        SIMD::new(Arch::X86_64, true),
        SIMD::new(Arch::Aarch64, false),
        SIMD::new(Arch::Aarch64, true),
    ]
}

#[test]
fn ok_sse2_isa() {
    validate_impl(|slot| SIMD::is_row_full_sse2(slot));
}

#[test]
fn ok_avx2_isa() {
    validate_impl(|slot| SIMD::is_row_full_avx2(slot));
}

#[test]
fn ok_neon_isa() {
    validate_impl(|slot| SIMD::is_row_full_neon(slot));
}

#[test]
fn ok_runtime_dispatch_correctness() {
    let cases = [
        [FULL_WORD, FULL_WORD, FULL_WORD, FULL_WORD],
        [0, FULL_WORD, FULL_WORD, FULL_WORD],
        [FULL_WORD, 0, FULL_WORD, FULL_WORD],
        [FULL_WORD, FULL_WORD, 0, FULL_WORD],
        [FULL_WORD, FULL_WORD, FULL_WORD, 0],
        [0, 0, 0, 0],
        [1, 2, 3, 4],
    ];

    for simd in every_host() {
        for slot in cases {
            assert_eq!(simd.is_row_full(&slot), is_slot_full_linear(&slot));
        }
    }
}

#[test]
fn ok_is_full_works_with_many_patterns() {
    let patterns = [
        0,
        1,
        0xFF,
        0xFFFF,
        0xFFFFFFFF,
        0xAAAAAAAAAAAAAAAA,
        0x5555555555555555,
        FULL_WORD - 1,
        FULL_WORD,
    ];

    for simd in every_host() {
        for &a in &patterns {
            for &b in &patterns {
                for &c in &patterns {
                    for &d in &patterns {
                        let slot = [a, b, c, d];
                        assert_eq!(
                            is_slot_full_linear(&slot),
                            simd.is_row_full(&slot),
                            "failed for slot: {:?}",
                            slot
                        );
                    }
                }
            }
        }
    }
}

#[test]
fn instruction_set_follows_the_host() {
    let sets: Vec<String> = every_host().iter().map(|simd| format!("{simd:?}")).collect();

    assert!(sets[0].contains("SSE2"));
    assert!(sets[1].contains("AVX2"));
    assert!(sets[2].contains("NEON"));
    assert!(sets[3].contains("NEON"));
}
